//! The attribute set of an element: an ordered mapping from names to
//! values, in which every name occurs once and new names go to the end.

use crate::name::{opt_view, qualify, ExpandedName, ExpandedNameView, QualName, QualNameView};
use vstd::prelude::*;

verus! {

/// The mathematical value of an [`Attribute`].
pub struct AttributeView {
    pub prefix: Option<Seq<char>>,
    pub value: Seq<char>,
}

/// The value stored under an attribute name: the prefix the name is written
/// with, and the attribute's text.
#[derive(Debug, Clone, PartialEq, Eq)]
pub struct Attribute {
    pub prefix: Option<String>,
    pub value: String,
}

impl View for Attribute {
    type V = AttributeView;

    open spec fn view(&self) -> AttributeView {
        AttributeView { prefix: opt_view(self.prefix), value: self.value@ }
    }
}

/// The mathematical value of an [`Attributes`]: its entries in stored order.
pub type AttributesView = Seq<(ExpandedNameView, AttributeView)>;

/// No name occurs at two positions of `s`.
pub open spec fn names_distinct(s: AttributesView) -> bool {
    forall|i: int, j: int| 0 <= i < j < s.len() ==> (#[trigger] s[i]).0 != (#[trigger] s[j]).0
}

/// Some entry of `s` is stored under `name`.
pub open spec fn has_name(s: AttributesView, name: ExpandedNameView) -> bool {
    exists|i: int| 0 <= i < s.len() && (#[trigger] s[i]).0 == name
}

/// A position of `s` that holds `name`; the only one where the names of `s`
/// are distinct. Meaningful only if `has_name(s, name)`.
pub open spec fn position_of(s: AttributesView, name: ExpandedNameView) -> int {
    choose|i: int| 0 <= i < s.len() && (#[trigger] s[i]).0 == name
}

/// `s` after `attr` is stored under `name`: in the place that `name` has in
/// `s`, or at the end where `s` has no such name.
pub open spec fn inserted(
    s: AttributesView,
    name: ExpandedNameView,
    attr: AttributeView,
) -> AttributesView {
    if has_name(s, name) {
        s.update(position_of(s, name), (name, attr))
    } else {
        s.push((name, attr))
    }
}

/// The pairs a sink is given for the entries `s`: each name written with the
/// prefix stored beside its value, and the value, in stored order.
pub open spec fn qualified_pairs(s: AttributesView) -> Seq<(QualNameView, Seq<char>)> {
    Seq::new(s.len(), |i: int| (qualify(s[i].0, s[i].1.prefix), s[i].1.value))
}

/// The value of a list of borrowed pairs.
pub open spec fn pairs_view(v: Seq<(QualName, &str)>) -> Seq<(QualNameView, Seq<char>)> {
    Seq::new(v.len(), |i: int| (v[i].0@, v[i].1@))
}

/// In a sequence with distinct names, a position is determined by its name.
pub proof fn lemma_position_unique(s: AttributesView, i: int)
    requires
        names_distinct(s),
        0 <= i < s.len(),
    ensures
        has_name(s, s[i].0),
        position_of(s, s[i].0) == i,
{
    let j = position_of(s, s[i].0);
    assert(0 <= j < s.len() && s[j].0 == s[i].0);
    if j < i {
        assert(s[j].0 != s[i].0);
    } else if i < j {
        assert(s[i].0 != s[j].0);
    }
}

/// The value of a list of stored entries.
pub open spec fn entries_view(v: Seq<(ExpandedName, Attribute)>) -> AttributesView {
    Seq::new(v.len(), |i: int| (v[i].0@, v[i].1@))
}

/// An element's attributes.
#[derive(Debug, PartialEq, Eq)]
pub struct Attributes {
    entries: Vec<(ExpandedName, Attribute)>,
}

impl View for Attributes {
    type V = AttributesView;

    closed spec fn view(&self) -> AttributesView {
        entries_view(self.entries@)
    }
}

impl Attributes {
    #[verifier::type_invariant]
    spec fn inv(self) -> bool {
        names_distinct(self@)
    }

    /// The empty attribute set.
    pub fn new() -> (r: Attributes)
        ensures
            r@ == Seq::<(ExpandedNameView, AttributeView)>::empty(),
    {
        Attributes { entries: Vec::new() }
    }

    /// Makes known to the caller's proof what holds of every attribute set:
    /// no name occurs twice.
    pub fn valid(&self)
        ensures
            names_distinct(self@),
    {
        proof {
            use_type_invariant(self);
        }
    }

    /// The number of attributes.
    pub fn len(&self) -> (r: usize)
        ensures
            r == self@.len(),
            names_distinct(self@),
    {
        proof {
            use_type_invariant(self);
        }
        self.entries.len()
    }

    fn find(&self, name: &ExpandedName) -> (r: Option<usize>)
        ensures
            names_distinct(self@),
            match r {
                Some(i) => i < self@.len() && self@[i as int].0 == name@ && has_name(self@, name@)
                    && position_of(self@, name@) == i,
                None => !has_name(self@, name@),
            },
    {
        proof {
            use_type_invariant(self);
        }
        let mut i: usize = 0;
        while i < self.entries.len()
            invariant
                i <= self.entries.len(),
                self@.len() == self.entries.len(),
                names_distinct(self@),
                forall|j: int| 0 <= j < i ==> (#[trigger] self@[j]).0 != name@,
            decreases self.entries.len() - i,
        {
            if self.entries[i].0.same(name) {
                proof {
                    lemma_position_unique(self@, i as int);
                }
                return Some(i);
            }
            i += 1;
        }
        None
    }

    /// Whether an attribute is stored under `name`.
    pub fn contains(&self, name: &ExpandedName) -> (r: bool)
        ensures
            r == has_name(self@, name@),
    {
        self.find(name).is_some()
    }

    /// The attribute stored under `name`, if there is one.
    pub fn get(&self, name: &ExpandedName) -> (r: Option<&Attribute>)
        ensures
            names_distinct(self@),
            match r {
                Some(attr) => has_name(self@, name@) && attr@ == self@[position_of(
                    self@,
                    name@,
                )].1,
                None => !has_name(self@, name@),
            },
    {
        match self.find(name) {
            Some(i) => Some(&self.entries[i].1),
            None => None,
        }
    }

    /// The name and attribute at position `i` of the stored order.
    pub fn entry(&self, i: usize) -> (r: Option<(&ExpandedName, &Attribute)>)
        ensures
            names_distinct(self@),
            match r {
                Some(e) => i < self@.len() && (e.0@, e.1@) == self@[i as int],
                None => i >= self@.len(),
            },
    {
        proof {
            use_type_invariant(self);
        }
        if i < self.entries.len() {
            Some((&self.entries[i].0, &self.entries[i].1))
        } else {
            None
        }
    }

    /// Stores `attr` under `name`. A name that is already present keeps its
    /// position and gives back the attribute it held; a new name goes to the
    /// end.
    pub fn insert(&mut self, name: ExpandedName, attr: Attribute) -> (r: Option<Attribute>)
        ensures
            names_distinct(old(self)@),
            names_distinct(final(self)@),
            final(self)@ == inserted(old(self)@, name@, attr@),
            match r {
                Some(prev) => has_name(old(self)@, name@) && prev@ == old(self)@[position_of(
                    old(self)@,
                    name@,
                )].1,
                None => !has_name(old(self)@, name@),
            },
    {
        let found = self.find(&name);
        let ghost before = self@;
        let mut entries: Vec<(ExpandedName, Attribute)> = Vec::new();
        std::mem::swap(&mut entries, &mut self.entries);
        let ghost name_view = name@;
        let ghost attr_view = attr@;
        let r = match found {
            Some(i) => {
                let mut slot = (name, attr);
                std::mem::swap(&mut slot, &mut entries[i]);
                Some(slot.1)
            },
            None => {
                entries.push((name, attr));
                None
            },
        };
        proof {
            let after = entries_view(entries@);
            match found {
                Some(i) => {
                    assert(after =~= before.update(i as int, (name_view, attr_view)));
                    assert forall|a: int, b: int| 0 <= a < b < after.len() implies (
                    #[trigger] after[a]).0 != (#[trigger] after[b]).0 by {
                        assert(before[a].0 != before[b].0);
                    }
                },
                None => {
                    assert(after =~= before.push((name_view, attr_view)));
                    assert forall|a: int, b: int| 0 <= a < b < after.len() implies (
                    #[trigger] after[a]).0 != (#[trigger] after[b]).0 by {
                        if b < before.len() {
                            assert(before[a].0 != before[b].0);
                        } else {
                            assert(before[a].0 != name_view);
                        }
                    }
                },
            }
        }
        self.entries = entries;
        assert(self@ == inserted(before, name_view, attr_view));
        r
    }

    /// The attributes as a sink takes them: for each entry, in stored order,
    /// the name rebuilt with the entry's prefix, and the borrowed value.
    pub fn qualified(&self) -> (r: Vec<(QualName, &str)>)
        ensures
            pairs_view(r@) == qualified_pairs(self@),
    {
        let mut pairs: Vec<(QualName, &str)> = Vec::new();
        let mut i: usize = 0;
        while i < self.entries.len()
            invariant
                i <= self.entries.len(),
                pairs@.len() == i,
                self@.len() == self.entries.len(),
                forall|j: int|
                    0 <= j < i ==> (#[trigger] pairs@[j]).0@ == qualify(self@[j].0, self@[j].1.prefix)
                        && pairs@[j].1@ == self@[j].1.value,
            decreases self.entries.len() - i,
        {
            let entry = &self.entries[i];
            pairs.push((entry.0.with_prefix(&entry.1.prefix), entry.1.value.as_str()));
            i += 1;
        }
        assert(pairs_view(pairs@) =~= qualified_pairs(self@));
        pairs
    }
}

} // verus!
