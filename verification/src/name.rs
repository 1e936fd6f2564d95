//! Names of elements and attributes.
//!
//! A name is identified by its namespace and local part (an
//! [`ExpandedName`]); a [`QualName`] adds the prefix under which the name is
//! written out.

use vstd::prelude::*;

verus! {

/// The mathematical value of an [`ExpandedName`].
pub struct ExpandedNameView {
    pub ns: Seq<char>,
    pub local: Seq<char>,
}

/// The mathematical value of a [`QualName`].
pub struct QualNameView {
    pub prefix: Option<Seq<char>>,
    pub ns: Seq<char>,
    pub local: Seq<char>,
}

/// The value of an optional string.
pub open spec fn opt_view(s: Option<String>) -> Option<Seq<char>> {
    match s {
        Some(text) => Some(text@),
        None => None,
    }
}

/// The qualified name that spells `name` with `prefix`.
pub open spec fn qualify(name: ExpandedNameView, prefix: Option<Seq<char>>) -> QualNameView {
    QualNameView { prefix, ns: name.ns, local: name.local }
}

/// A namespace and a local name: the identity of an attribute or element.
#[derive(Debug, Clone, PartialEq, Eq)]
pub struct ExpandedName {
    pub ns: String,
    pub local: String,
}

/// A tag or attribute name together with its namespace and optional prefix.
#[derive(Debug, Clone, PartialEq, Eq)]
pub struct QualName {
    pub prefix: Option<String>,
    pub ns: String,
    pub local: String,
}

impl View for ExpandedName {
    type V = ExpandedNameView;

    open spec fn view(&self) -> ExpandedNameView {
        ExpandedNameView { ns: self.ns@, local: self.local@ }
    }
}

impl View for QualName {
    type V = QualNameView;

    open spec fn view(&self) -> QualNameView {
        QualNameView { prefix: opt_view(self.prefix), ns: self.ns@, local: self.local@ }
    }
}

/// An independent copy of an optional string.
pub fn copy_opt(s: &Option<String>) -> (r: Option<String>)
    ensures
        r == *s,
{
    match s {
        Some(text) => Some(text.clone()),
        None => None,
    }
}

impl ExpandedName {
    /// The name `local` in namespace `ns`.
    pub fn new(ns: &str, local: &str) -> (r: ExpandedName)
        ensures
            r@ == (ExpandedNameView { ns: ns@, local: local@ }),
    {
        ExpandedName { ns: ns.to_owned(), local: local.to_owned() }
    }

    /// An independent copy of this name.
    pub fn copy(&self) -> (r: ExpandedName)
        ensures
            r == *self,
    {
        ExpandedName { ns: self.ns.clone(), local: self.local.clone() }
    }

    /// Whether both names have the same namespace and the same local part.
    pub fn same(&self, other: &ExpandedName) -> (r: bool)
        ensures
            r == (self@ == other@),
    {
        self.ns == other.ns && self.local == other.local
    }

    /// This name written with `prefix`.
    pub fn with_prefix(&self, prefix: &Option<String>) -> (r: QualName)
        ensures
            r@ == qualify(self@, opt_view(*prefix)),
    {
        QualName { prefix: copy_opt(prefix), ns: self.ns.clone(), local: self.local.clone() }
    }
}

impl QualName {
    /// The name `local` in namespace `ns`, written with `prefix`.
    pub fn new(prefix: Option<&str>, ns: &str, local: &str) -> (r: QualName)
        ensures
            r@.ns == ns@,
            r@.local == local@,
            r@.prefix == match prefix {
                Some(p) => Some(p@),
                None => None,
            },
    {
        let prefix = match prefix {
            Some(p) => Some(p.to_owned()),
            None => None,
        };
        QualName { prefix, ns: ns.to_owned(), local: local.to_owned() }
    }

    /// An independent copy of this name.
    pub fn copy(&self) -> (r: QualName)
        ensures
            r == *self,
    {
        QualName { prefix: copy_opt(&self.prefix), ns: self.ns.clone(), local: self.local.clone() }
    }

    /// The namespace and local part of this name, without the prefix.
    pub fn expanded(&self) -> (r: ExpandedName)
        ensures
            r@ == (ExpandedNameView { ns: self@.ns, local: self@.local }),
    {
        ExpandedName { ns: self.ns.clone(), local: self.local.clone() }
    }
}

} // verus!
