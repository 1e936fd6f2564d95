//! The markup sink: what the traversal engine drives.
//!
//! A sink takes structured calls (start of an element, end of an element,
//! text, comment, document type, processing instruction) and turns them into
//! markup. How a tag is spelled, what is escaped and which elements have no
//! end tag is the sink's business alone.

use crate::attributes::pairs_view;
use crate::name::{QualName, QualNameView};
use vstd::prelude::*;

verus! {

/// `std::io::Error`, the failure of a sink. It is carried, never looked
/// into.
#[verifier::external_type_specification]
#[verifier::external_body]
pub struct ExIoError(std::io::Error);

/// `std::io::Error::from` on the kind `StorageFull`: the failure of a
/// sink that has no room.
#[verifier::external_body]
fn no_room() -> std::io::Error {
    std::io::Error::from(std::io::ErrorKind::StorageFull)
}

/// The mathematical value of one call on a sink.
#[allow(inconsistent_fields)]
pub enum SinkCallView {
    StartElem { name: QualNameView, attrs: Seq<(QualNameView, Seq<char>)> },
    EndElem { name: QualNameView },
    Text { text: Seq<char> },
    Comment { text: Seq<char> },
    Doctype { name: Seq<char> },
    ProcessingInstruction { target: Seq<char>, data: Seq<char> },
}

/// By how much a call changes the number of open elements.
pub open spec fn depth_change(call: SinkCallView) -> int {
    match call {
        SinkCallView::StartElem { .. } => 1,
        SinkCallView::EndElem { .. } => -1,
        _ => 0,
    }
}

/// The number of elements that `calls` leave open: starts less ends.
pub open spec fn nesting(calls: Seq<SinkCallView>) -> int
    decreases calls.len(),
{
    if calls.len() == 0 {
        0
    } else {
        nesting(calls.drop_last()) + depth_change(calls.last())
    }
}

/// One more call changes the nesting by that call's own change.
pub proof fn lemma_nesting_push(calls: Seq<SinkCallView>, call: SinkCallView)
    ensures
        nesting(calls.push(call)) == nesting(calls) + depth_change(call),
{
    assert(calls.push(call).drop_last() =~= calls);
}

/// The nesting of two runs of calls, one after the other, is the sum of
/// their nestings.
pub proof fn lemma_nesting_concat(a: Seq<SinkCallView>, b: Seq<SinkCallView>)
    ensures
        nesting(a + b) == nesting(a) + nesting(b),
    decreases b.len(),
{
    if b.len() == 0 {
        assert(a + b =~= a);
    } else {
        lemma_nesting_concat(a, b.drop_last());
        assert((a + b).drop_last() =~= a + b.drop_last());
        assert((a + b).last() == b.last());
    }
}

/// The calls nest: no front part of `calls` ends more elements than it has
/// started, and the whole of `calls` ends every element that it starts.
pub open spec fn well_nested(calls: Seq<SinkCallView>) -> bool {
    &&& nesting(calls) == 0
    &&& forall|k: int| 0 <= k <= calls.len() ==> nesting(#[trigger] calls.take(k)) >= 0
}

/// No calls at all nest.
pub proof fn lemma_nested_empty()
    ensures
        well_nested(Seq::<SinkCallView>::empty()),
{
    let none = Seq::<SinkCallView>::empty();
    assert forall|k: int| 0 <= k <= none.len() implies nesting(#[trigger] none.take(k)) >= 0 by {
        assert(none.take(k) =~= none);
    }
}

/// One call that neither starts nor ends an element nests.
pub proof fn lemma_nested_single(call: SinkCallView)
    requires
        depth_change(call) == 0,
    ensures
        well_nested(seq![call]),
{
    let one = seq![call];
    lemma_nesting_push(Seq::empty(), call);
    assert(one =~= Seq::empty().push(call));
    assert forall|k: int| 0 <= k <= one.len() implies nesting(#[trigger] one.take(k)) >= 0 by {
        if k == 0 {
            assert(one.take(k) =~= Seq::empty());
        } else {
            assert(one.take(k) =~= one);
        }
    }
}

/// Two runs of calls that nest, one after the other, nest.
pub proof fn lemma_nested_concat(a: Seq<SinkCallView>, b: Seq<SinkCallView>)
    requires
        well_nested(a),
        well_nested(b),
    ensures
        well_nested(a + b),
{
    let both = a + b;
    lemma_nesting_concat(a, b);
    assert forall|k: int| 0 <= k <= both.len() implies nesting(#[trigger] both.take(k)) >= 0 by {
        if k <= a.len() {
            assert(both.take(k) =~= a.take(k));
        } else {
            assert(both.take(k) =~= a + b.take(k - a.len()));
            lemma_nesting_concat(a, b.take(k - a.len()));
        }
    }
}

/// Calls that nest, put between the start and the end of an element, nest.
pub proof fn lemma_nested_wrap(start: SinkCallView, inner: Seq<SinkCallView>, end: SinkCallView)
    requires
        start is StartElem,
        end is EndElem,
        well_nested(inner),
    ensures
        well_nested(seq![start] + inner + seq![end]),
{
    let all = seq![start] + inner + seq![end];
    lemma_nesting_push(Seq::empty(), start);
    assert(seq![start] =~= Seq::empty().push(start));
    assert forall|k: int| 0 <= k <= all.len() implies nesting(#[trigger] all.take(k)) >= 0 by {
        if k == 0 {
            assert(all.take(k) =~= Seq::empty());
        } else if k <= inner.len() + 1 {
            assert(all.take(k) =~= seq![start] + inner.take(k - 1));
            lemma_nesting_concat(seq![start], inner.take(k - 1));
        } else {
            assert(all.take(k) =~= (seq![start] + inner).push(end));
            lemma_nesting_concat(seq![start], inner);
            lemma_nesting_push(seq![start] + inner, end);
        }
    }
    assert(all.take(all.len() as int) =~= all);
    assert(all =~= (seq![start] + inner).push(end));
    lemma_nesting_concat(seq![start], inner);
    lemma_nesting_push(seq![start] + inner, end);
}

/// The capability that the traversal engine drives.
///
/// A sink keeps account of the calls it has accepted. A call that returns
/// `Ok` is accepted and added to the account; one that returns an error is
/// not, and after an error the sink need not be ready for another call. The
/// calls must nest: an element is ended only while one is open.
pub trait Sink {
    /// What a sink is set up with when it is made. No call changes it.
    type Setup;

    /// What this sink was set up with.
    spec fn setup(&self) -> Self::Setup;

    /// The calls accepted so far, oldest first.
    spec fn accepted(&self) -> Seq<SinkCallView>;

    /// The sink is in a state to take calls.
    spec fn ready(&self) -> bool;

    /// The error that the sink gave last, if it has failed a call.
    spec fn failure(&self) -> Option<std::io::Error>;

    /// No call on a ready sink of this type fails.
    spec fn infallible() -> bool;

    /// The calls that a ready sink has accepted have ended no element that
    /// they had not started.
    proof fn lemma_ready_nests(&self)
        requires
            self.ready(),
        ensures
            nesting(self.accepted()) >= 0,
    ;

    /// Takes the start of an element, with its attributes in order.
    fn start_elem(&mut self, name: &QualName, attrs: &Vec<(QualName, &str)>) -> (r: Result<
        (),
        std::io::Error,
    >)
        requires
            old(self).ready(),
        ensures
            r is Ok ==> final(self).ready() && final(self).accepted() == old(self).accepted().push(
                SinkCallView::StartElem { name: name@, attrs: pairs_view(attrs@) },
            ),
            r is Ok ==> final(self).failure() == old(self).failure(),
            r is Err ==> final(self).accepted() == old(self).accepted(),
            r matches Err(e) ==> final(self).failure() == Some(e),
            final(self).setup() == old(self).setup(),
            Self::infallible() ==> r is Ok,
    ;

    /// Takes the end of the innermost open element.
    fn end_elem(&mut self, name: &QualName) -> (r: Result<(), std::io::Error>)
        requires
            old(self).ready(),
            nesting(old(self).accepted()) > 0,
        ensures
            r is Ok ==> final(self).ready() && final(self).accepted() == old(self).accepted().push(
                SinkCallView::EndElem { name: name@ },
            ),
            r is Ok ==> final(self).failure() == old(self).failure(),
            r is Err ==> final(self).accepted() == old(self).accepted(),
            r matches Err(e) ==> final(self).failure() == Some(e),
            final(self).setup() == old(self).setup(),
            Self::infallible() ==> r is Ok,
    ;

    /// Takes character data.
    fn write_text(&mut self, text: &str) -> (r: Result<(), std::io::Error>)
        requires
            old(self).ready(),
        ensures
            r is Ok ==> final(self).ready() && final(self).accepted() == old(self).accepted().push(
                SinkCallView::Text { text: text@ },
            ),
            r is Ok ==> final(self).failure() == old(self).failure(),
            r is Err ==> final(self).accepted() == old(self).accepted(),
            r matches Err(e) ==> final(self).failure() == Some(e),
            final(self).setup() == old(self).setup(),
            Self::infallible() ==> r is Ok,
    ;

    /// Takes a comment.
    fn write_comment(&mut self, text: &str) -> (r: Result<(), std::io::Error>)
        requires
            old(self).ready(),
        ensures
            r is Ok ==> final(self).ready() && final(self).accepted() == old(self).accepted().push(
                SinkCallView::Comment { text: text@ },
            ),
            r is Ok ==> final(self).failure() == old(self).failure(),
            r is Err ==> final(self).accepted() == old(self).accepted(),
            r matches Err(e) ==> final(self).failure() == Some(e),
            final(self).setup() == old(self).setup(),
            Self::infallible() ==> r is Ok,
    ;

    /// Takes a document type declaration.
    fn write_doctype(&mut self, name: &str) -> (r: Result<(), std::io::Error>)
        requires
            old(self).ready(),
        ensures
            r is Ok ==> final(self).ready() && final(self).accepted() == old(self).accepted().push(
                SinkCallView::Doctype { name: name@ },
            ),
            r is Ok ==> final(self).failure() == old(self).failure(),
            r is Err ==> final(self).accepted() == old(self).accepted(),
            r matches Err(e) ==> final(self).failure() == Some(e),
            final(self).setup() == old(self).setup(),
            Self::infallible() ==> r is Ok,
    ;

    /// Takes a processing instruction.
    fn write_processing_instruction(&mut self, target: &str, data: &str) -> (r: Result<
        (),
        std::io::Error,
    >)
        requires
            old(self).ready(),
        ensures
            r is Ok ==> final(self).ready() && final(self).accepted() == old(self).accepted().push(
                SinkCallView::ProcessingInstruction { target: target@, data: data@ },
            ),
            r is Ok ==> final(self).failure() == old(self).failure(),
            r is Err ==> final(self).accepted() == old(self).accepted(),
            r matches Err(e) ==> final(self).failure() == Some(e),
            final(self).setup() == old(self).setup(),
            Self::infallible() ==> r is Ok,
    ;
}

/// One call on a sink, with its arguments.
#[derive(Debug, Clone, PartialEq, Eq)]
pub enum SinkCall {
    StartElem { name: QualName, attrs: Vec<(QualName, String)> },
    EndElem { name: QualName },
    Text { text: String },
    Comment { text: String },
    Doctype { name: String },
    ProcessingInstruction { target: String, data: String },
}

/// The value of a list of owned pairs.
pub open spec fn owned_pairs_view(v: Seq<(QualName, String)>) -> Seq<(QualNameView, Seq<char>)> {
    Seq::new(v.len(), |i: int| (v[i].0@, v[i].1@))
}

impl View for SinkCall {
    type V = SinkCallView;

    open spec fn view(&self) -> SinkCallView {
        match *self {
            SinkCall::StartElem { name, attrs } => SinkCallView::StartElem {
                name: name@,
                attrs: owned_pairs_view(attrs@),
            },
            SinkCall::EndElem { name } => SinkCallView::EndElem { name: name@ },
            SinkCall::Text { text } => SinkCallView::Text { text: text@ },
            SinkCall::Comment { text } => SinkCallView::Comment { text: text@ },
            SinkCall::Doctype { name } => SinkCallView::Doctype { name: name@ },
            SinkCall::ProcessingInstruction { target, data } => SinkCallView::ProcessingInstruction {
                target: target@,
                data: data@,
            },
        }
    }
}

/// The value of a list of calls.
pub open spec fn calls_view(v: Seq<SinkCall>) -> Seq<SinkCallView> {
    Seq::new(v.len(), |i: int| v[i]@)
}

/// A sink that writes nothing and keeps the calls it is given.
pub struct CallLog {
    calls: Vec<SinkCall>,
}

impl View for CallLog {
    type V = Seq<SinkCallView>;

    closed spec fn view(&self) -> Seq<SinkCallView> {
        calls_view(self.calls@)
    }
}

impl CallLog {
    /// A log without calls.
    pub fn new() -> (r: CallLog)
        ensures
            r@ == Seq::<SinkCallView>::empty(),
            r.ready(),
    {
        let r = CallLog { calls: Vec::new() };
        assert(r@ =~= Seq::<SinkCallView>::empty());
        r
    }

    /// The number of calls logged.
    pub fn len(&self) -> (r: usize)
        ensures
            r == self@.len(),
    {
        self.calls.len()
    }

    /// The calls that were logged, oldest first.
    pub fn into_calls(self) -> (r: Vec<SinkCall>)
        ensures
            calls_view(r@) == self@,
    {
        self.calls
    }

    fn record(&mut self, call: SinkCall)
        ensures
            final(self)@ == old(self)@.push(call@),
            nesting(final(self)@) == nesting(old(self)@) + depth_change(call@),
    {
        self.calls.push(call);
        assert(self@ =~= old(self)@.push(call@));
        proof {
            lemma_nesting_push(old(self)@, call@);
        }
    }
}

/// Owned copies of borrowed attribute pairs.
fn copy_pairs(attrs: &Vec<(QualName, &str)>) -> (r: Vec<(QualName, String)>)
    ensures
        owned_pairs_view(r@) == pairs_view(attrs@),
{
    let mut out: Vec<(QualName, String)> = Vec::new();
    let mut i: usize = 0;
    while i < attrs.len()
        invariant
            i <= attrs.len(),
            out@.len() == i,
            forall|j: int|
                0 <= j < i ==> (#[trigger] out@[j]).0@ == attrs@[j].0@ && out@[j].1@
                    == attrs@[j].1@,
        decreases attrs.len() - i,
    {
        out.push((attrs[i].0.copy(), attrs[i].1.to_owned()));
        i += 1;
    }
    assert(owned_pairs_view(out@) =~= pairs_view(attrs@));
    out
}

impl Sink for CallLog {
    type Setup = ();

    open spec fn setup(&self) -> () {
        ()
    }

    open spec fn accepted(&self) -> Seq<SinkCallView> {
        self@
    }

    open spec fn ready(&self) -> bool {
        nesting(self@) >= 0
    }

    open spec fn failure(&self) -> Option<std::io::Error> {
        None
    }

    open spec fn infallible() -> bool {
        true
    }

    proof fn lemma_ready_nests(&self) {
    }

    fn start_elem(&mut self, name: &QualName, attrs: &Vec<(QualName, &str)>) -> (r: Result<
        (),
        std::io::Error,
    >) {
        self.record(SinkCall::StartElem { name: name.copy(), attrs: copy_pairs(attrs) });
        Ok(())
    }

    fn end_elem(&mut self, name: &QualName) -> (r: Result<(), std::io::Error>) {
        self.record(SinkCall::EndElem { name: name.copy() });
        Ok(())
    }

    fn write_text(&mut self, text: &str) -> (r: Result<(), std::io::Error>) {
        self.record(SinkCall::Text { text: text.to_owned() });
        Ok(())
    }

    fn write_comment(&mut self, text: &str) -> (r: Result<(), std::io::Error>) {
        self.record(SinkCall::Comment { text: text.to_owned() });
        Ok(())
    }

    fn write_doctype(&mut self, name: &str) -> (r: Result<(), std::io::Error>) {
        self.record(SinkCall::Doctype { name: name.to_owned() });
        Ok(())
    }

    fn write_processing_instruction(&mut self, target: &str, data: &str) -> (r: Result<
        (),
        std::io::Error,
    >) {
        self.record(
            SinkCall::ProcessingInstruction { target: target.to_owned(), data: data.to_owned() },
        );
        Ok(())
    }
}

/// A log with room for a fixed number of calls. A call that finds room is
/// kept; one that finds none fails and leaves the log as it is.
pub struct BoundedLog {
    log: CallLog,
    room: usize,
    failure: Ghost<Option<std::io::Error>>,
}

impl View for BoundedLog {
    type V = Seq<SinkCallView>;

    closed spec fn view(&self) -> Seq<SinkCallView> {
        self.log@
    }
}

impl BoundedLog {
    /// The number of calls that the log has room for in all.
    pub closed spec fn room(&self) -> nat {
        self.room as nat
    }

    /// A log without calls, with room for `room` of them.
    pub fn new(room: usize) -> (r: BoundedLog)
        ensures
            r@ == Seq::<SinkCallView>::empty(),
            r.room() == room,
            r.failure() is None,
            r.ready(),
    {
        BoundedLog { log: CallLog::new(), room, failure: Ghost(None) }
    }

    /// The calls that were logged, oldest first.
    pub fn into_calls(self) -> (r: Vec<SinkCall>)
        ensures
            calls_view(r@) == self@,
    {
        self.log.into_calls()
    }

    fn fail(&mut self) -> (r: Result<(), std::io::Error>)
        ensures
            r matches Err(e) && final(self).failure() == Some(e),
            final(self)@ == old(self)@,
            final(self).room() == old(self).room(),
    {
        let e = no_room();
        self.failure = Ghost(Some(e));
        Err(e)
    }

    fn has_room(&self) -> (r: bool)
        ensures
            r == (self@.len() < self.room()),
    {
        self.log.len() < self.room
    }
}

impl Sink for BoundedLog {
    type Setup = nat;

    open spec fn setup(&self) -> nat {
        self.room()
    }

    open spec fn accepted(&self) -> Seq<SinkCallView> {
        self@
    }

    open spec fn ready(&self) -> bool {
        nesting(self@) >= 0
    }

    closed spec fn failure(&self) -> Option<std::io::Error> {
        self.failure@
    }

    open spec fn infallible() -> bool {
        false
    }

    proof fn lemma_ready_nests(&self) {
    }

    fn start_elem(&mut self, name: &QualName, attrs: &Vec<(QualName, &str)>) -> (r: Result<
        (),
        std::io::Error,
    >)
        ensures
            r is Ok <==> old(self)@.len() < old(self).room(),
    {
        if self.has_room() {
            self.log.start_elem(name, attrs)
        } else {
            self.fail()
        }
    }

    fn end_elem(&mut self, name: &QualName) -> (r: Result<(), std::io::Error>)
        ensures
            r is Ok <==> old(self)@.len() < old(self).room(),
    {
        if self.has_room() {
            self.log.end_elem(name)
        } else {
            self.fail()
        }
    }

    fn write_text(&mut self, text: &str) -> (r: Result<(), std::io::Error>)
        ensures
            r is Ok <==> old(self)@.len() < old(self).room(),
    {
        if self.has_room() {
            self.log.write_text(text)
        } else {
            self.fail()
        }
    }

    fn write_comment(&mut self, text: &str) -> (r: Result<(), std::io::Error>)
        ensures
            r is Ok <==> old(self)@.len() < old(self).room(),
    {
        if self.has_room() {
            self.log.write_comment(text)
        } else {
            self.fail()
        }
    }

    fn write_doctype(&mut self, name: &str) -> (r: Result<(), std::io::Error>)
        ensures
            r is Ok <==> old(self)@.len() < old(self).room(),
    {
        if self.has_room() {
            self.log.write_doctype(name)
        } else {
            self.fail()
        }
    }

    fn write_processing_instruction(&mut self, target: &str, data: &str) -> (r: Result<
        (),
        std::io::Error,
    >)
        ensures
            r is Ok <==> old(self)@.len() < old(self).room(),
    {
        if self.has_room() {
            self.log.write_processing_instruction(target, data)
        } else {
            self.fail()
        }
    }
}

} // verus!
