//! The HTML sink: a [`Sink`] that writes HTML into a buffer of bytes.
//!
//! The markup itself is written by html5ever's `HtmlSerializer`. What this
//! module states of it, and does not prove, stands on the items from
//! [`HtmlWriter`] down to `writer_into_bytes`; everything after them is
//! proved from those statements.

use crate::attributes::pairs_view;
use crate::name::{QualName, QualNameView};
use crate::serializer::{emitted, emitted_first, lemma_emitted_nests, TraversalScope};
use crate::sink::{depth_change, lemma_nesting_push, nesting, well_nested, Sink, SinkCallView};
use crate::tree::{is_leaf, node_ok, well_formed, with_data, NodeDataView, TreeView};
use html5ever::serialize::{HtmlSerializer, Serializer};
use html5ever::{LocalName, Namespace, Prefix};
use vstd::prelude::*;
use vstd::utf8::{encode_utf8, valid_utf8};

verus! {

/// How a serialization into HTML is set up.
#[derive(Debug, Clone, PartialEq, Eq)]
pub struct SerializeOpts {
    /// Whether scripting counts as enabled; it decides how the text inside
    /// `noscript` is written.
    pub scripting_enabled: bool,
    /// Whether the node itself is written or its children only.
    pub traversal_scope: TraversalScope,
    /// Lets the writer make up a parent where an element is ended that was
    /// never started. It has no effect on calls that nest.
    pub create_missing_parent: bool,
}

impl Default for SerializeOpts {
    /// Scripting enabled, the children only, no made-up parent.
    fn default() -> (r: SerializeOpts)
        ensures
            r.scripting_enabled,
            r.traversal_scope == TraversalScope::ChildrenOnly(None),
            !r.create_missing_parent,
    {
        SerializeOpts {
            scripting_enabled: true,
            traversal_scope: TraversalScope::ChildrenOnly(None),
            create_missing_parent: false,
        }
    }
}

/// The element that the first calls are read as standing in: the local name
/// given with a scope of children only, and none otherwise.
pub open spec fn context_name(scope: TraversalScope) -> Option<Seq<char>> {
    match scope {
        TraversalScope::ChildrenOnly(Some(name)) => Some(name@.local),
        _ => None,
    }
}

/// What an HTML writer keeps of an element that is open: its local name,
/// if it is an HTML element, and whether what stands inside it is left out.
pub type Frame = (Option<Seq<char>>, bool);

/// html5ever's `HtmlSerializer` over a buffer of bytes. Nothing of its
/// inside is known here but what the functions below state.
#[verifier::external_body]
pub struct HtmlWriter {
    inner: HtmlSerializer<Vec<u8>>,
}

/// The bytes that the writer holds in its buffer.
pub uninterp spec fn writer_output(w: HtmlWriter) -> Seq<u8>;

/// The writer's stack of open elements, the innermost last.
pub uninterp spec fn writer_open(w: HtmlWriter) -> Seq<(Option<Seq<char>>, bool)>;

/// Whether the writer was set up with scripting enabled.
pub uninterp spec fn writer_scripting(w: HtmlWriter) -> bool;

/// The bytes of the start tag that `HtmlSerializer::start_elem` writes for
/// an element with this name and these attributes.
pub uninterp spec fn start_tag_markup(
    name: QualNameView,
    attrs: Seq<(QualNameView, Seq<char>)>,
) -> Seq<u8>;

/// The bytes that `HtmlSerializer::write_text` writes for `text` inside an
/// open element with the HTML name `parent`.
pub uninterp spec fn text_markup(parent: Option<Seq<char>>, scripting: bool, text: Seq<char>) -> Seq<
    u8,
>;

/// The namespace of HTML elements.
pub open spec fn html_namespace() -> Seq<char> {
    "http://www.w3.org/1999/xhtml"@
}

/// The HTML elements that have no content and no end tag.
pub open spec fn is_void(name: QualNameView) -> bool {
    name.ns == html_namespace() && (name.local == "area"@ || name.local == "base"@ || name.local
        == "basefont"@ || name.local == "bgsound"@ || name.local == "br"@ || name.local == "col"@
        || name.local == "embed"@ || name.local == "frame"@ || name.local == "hr"@ || name.local
        == "img"@ || name.local == "input"@ || name.local == "keygen"@ || name.local == "link"@
        || name.local == "meta"@ || name.local == "param"@ || name.local == "source"@
        || name.local == "track"@ || name.local == "wbr"@)
}

/// The frame that the start of an element opens: the local name of an HTML
/// element, and whether what stands inside is left out, which it is inside
/// an element that leaves out its content (`skipping`) and inside a void
/// element.
pub open spec fn opened_frame(skipping: bool, name: QualNameView) -> Frame {
    (
        if name.ns == html_namespace() {
            Some(name.local)
        } else {
            None
        },
        skipping || is_void(name),
    )
}

/// The bytes of the start of an element: none inside an element that leaves
/// out its content.
pub open spec fn start_markup(
    skipping: bool,
    name: QualNameView,
    attrs: Seq<(QualNameView, Seq<char>)>,
) -> Seq<u8> {
    if skipping {
        Seq::empty()
    } else {
        start_tag_markup(name, attrs)
    }
}

/// The bytes of an end tag: none where the element left out its content.
pub open spec fn end_tag_markup(skipping: bool, name: QualNameView) -> Seq<u8> {
    if skipping {
        Seq::empty()
    } else {
        encode_utf8("</"@ + name.local + ">"@)
    }
}

/// The bytes of a comment.
pub open spec fn comment_markup(text: Seq<char>) -> Seq<u8> {
    encode_utf8("<!--"@ + text + "-->"@)
}

/// The bytes of a document type declaration.
pub open spec fn doctype_markup(name: Seq<char>) -> Seq<u8> {
    encode_utf8("<!DOCTYPE "@ + name + ">"@)
}

/// The bytes of a processing instruction.
pub open spec fn processing_instruction_markup(target: Seq<char>, data: Seq<char>) -> Seq<u8> {
    encode_utf8("<?"@ + target + " "@ + data + ">"@)
}

/// `HtmlSerializer::new` over an empty buffer. The writer starts with one
/// open frame, which has the local name that comes with a scope of children
/// only, and leaves nothing out.
#[verifier::external_body]
fn writer_new(opts: &SerializeOpts) -> (w: HtmlWriter)
    ensures
        writer_output(w) == Seq::<u8>::empty(),
        writer_open(w) == seq![(context_name(opts.traversal_scope), false)],
        writer_scripting(w) == opts.scripting_enabled,
{
    let convert = |n: &QualName| html5ever::QualName::new(
        n.prefix.as_deref().map(Prefix::from), Namespace::from(n.ns.as_str()), LocalName::from(n.local.as_str()));
    let traversal_scope = match &opts.traversal_scope {
        TraversalScope::IncludeNode => html5ever::serialize::TraversalScope::IncludeNode,
        TraversalScope::ChildrenOnly(n) =>
            html5ever::serialize::TraversalScope::ChildrenOnly(n.as_ref().map(convert)),
    };
    let (scripting_enabled, create_missing_parent) = (opts.scripting_enabled, opts.create_missing_parent);
    let opts = html5ever::serialize::SerializeOpts { scripting_enabled, traversal_scope, create_missing_parent };
    HtmlWriter { inner: HtmlSerializer::new(Vec::new(), opts) }
}

/// `HtmlSerializer::start_elem`, called while an element is open.
///
/// * It returns `Ok`: it fails only where a write on its buffer fails, and
///   the buffer is a `Vec<u8>`, to which a write appends and gives `Ok`.
/// * Inside an element that leaves out its content it writes nothing;
///   elsewhere it appends the start tag that [`start_tag_markup`] names,
///   which depends on the name and the attributes only.
/// * It opens the frame that [`opened_frame`] states.
/// * What it appends is text, escaped byte by byte at ASCII characters and
///   at the no-break space: a buffer that held UTF-8 holds UTF-8 after.
#[verifier::external_body]
fn writer_start_elem(w: &mut HtmlWriter, name: &QualName, attrs: &Vec<(QualName, &str)>) -> (r:
    Result<(), std::io::Error>)
    requires
        writer_open(*old(w)).len() > 0,
    ensures
        r is Ok,
        writer_output(*final(w)) == writer_output(*old(w)) + if writer_open(*old(w)).last().1 {
            Seq::<u8>::empty()
        } else {
            start_tag_markup(name@, pairs_view(attrs@))
        },
        writer_open(*final(w)) == writer_open(*old(w)).push(
            opened_frame(writer_open(*old(w)).last().1, name@),
        ),
        writer_scripting(*final(w)) == writer_scripting(*old(w)),
        valid_utf8(writer_output(*old(w))) ==> valid_utf8(writer_output(*final(w))),
{
    let convert = |n: &QualName| html5ever::QualName::new(
        n.prefix.as_deref().map(Prefix::from), Namespace::from(n.ns.as_str()), LocalName::from(n.local.as_str()));
    let pairs: Vec<(html5ever::QualName, &str)> = attrs.iter().map(|a| (convert(&a.0), a.1)).collect();
    w.inner.start_elem(convert(name), pairs.iter().map(|a| (&a.0, a.1)))
}

/// `HtmlSerializer::end_elem`, called while an element is open. It returns
/// `Ok`, as a write on a `Vec<u8>` does; it closes the innermost frame and
/// appends `</`, the local name and `>`, or nothing where that frame left
/// out its content.
#[verifier::external_body]
fn writer_end_elem(w: &mut HtmlWriter, name: &QualName) -> (r: Result<(), std::io::Error>)
    requires
        writer_open(*old(w)).len() > 0,
    ensures
        r is Ok,
        writer_output(*final(w)) == writer_output(*old(w)) + end_tag_markup(
            writer_open(*old(w)).last().1,
            name@,
        ),
        writer_open(*final(w)) == writer_open(*old(w)).drop_last(),
        writer_scripting(*final(w)) == writer_scripting(*old(w)),
{
    w.inner.end_elem(
        html5ever::QualName::new(
            name.prefix.as_deref().map(Prefix::from),
            Namespace::from(name.ns.as_str()),
            LocalName::from(name.local.as_str()),
        ),
    )
}

/// `HtmlSerializer::write_text`, called while an element is open.
///
/// * It returns `Ok`, as a write on a `Vec<u8>` does.
/// * It appends the bytes that [`text_markup`] names, which depend on the
///   HTML name of the innermost open frame, on the scripting flag and on the
///   text only, and leaves the open frames as they were.
/// * What it appends is the text, as it is or escaped byte by byte at ASCII
///   characters and at the no-break space: a buffer that held UTF-8 holds
///   UTF-8 after.
#[verifier::external_body]
fn writer_write_text(w: &mut HtmlWriter, text: &str) -> (r: Result<(), std::io::Error>)
    requires
        writer_open(*old(w)).len() > 0,
    ensures
        r is Ok,
        writer_output(*final(w)) == writer_output(*old(w)) + text_markup(
            writer_open(*old(w)).last().0,
            writer_scripting(*old(w)),
            text@,
        ),
        writer_open(*final(w)) == writer_open(*old(w)),
        writer_scripting(*final(w)) == writer_scripting(*old(w)),
        valid_utf8(writer_output(*old(w))) ==> valid_utf8(writer_output(*final(w))),
{
    w.inner.write_text(text)
}

/// `HtmlSerializer::write_comment`. It returns `Ok`, as a write on a
/// `Vec<u8>` does; it appends `<!--`, the text and `-->`, and leaves the
/// open frames as they were.
#[verifier::external_body]
fn writer_write_comment(w: &mut HtmlWriter, text: &str) -> (r: Result<(), std::io::Error>)
    ensures
        r is Ok,
        writer_output(*final(w)) == writer_output(*old(w)) + comment_markup(text@),
        writer_open(*final(w)) == writer_open(*old(w)),
        writer_scripting(*final(w)) == writer_scripting(*old(w)),
{
    w.inner.write_comment(text)
}

/// `HtmlSerializer::write_doctype`. It returns `Ok`, as a write on a
/// `Vec<u8>` does; it appends `<!DOCTYPE `, the name and `>`, and leaves
/// the open frames as they were.
#[verifier::external_body]
fn writer_write_doctype(w: &mut HtmlWriter, name: &str) -> (r: Result<(), std::io::Error>)
    ensures
        r is Ok,
        writer_output(*final(w)) == writer_output(*old(w)) + doctype_markup(name@),
        writer_open(*final(w)) == writer_open(*old(w)),
        writer_scripting(*final(w)) == writer_scripting(*old(w)),
{
    w.inner.write_doctype(name)
}

/// `HtmlSerializer::write_processing_instruction`. It returns `Ok`, as a
/// write on a `Vec<u8>` does; it appends `<?`, the target, a space, the
/// data and `>`, and leaves the open frames as they were.
#[verifier::external_body]
fn writer_write_processing_instruction(w: &mut HtmlWriter, target: &str, data: &str) -> (r: Result<
    (),
    std::io::Error,
>)
    ensures
        r is Ok,
        writer_output(*final(w)) == writer_output(*old(w)) + processing_instruction_markup(
            target@,
            data@,
        ),
        writer_open(*final(w)) == writer_open(*old(w)),
        writer_scripting(*final(w)) == writer_scripting(*old(w)),
{
    w.inner.write_processing_instruction(target, data)
}

/// The buffer of the writer: the public field `writer` of `HtmlSerializer`.
#[verifier::external_body]
fn writer_into_bytes(w: HtmlWriter) -> (r: Vec<u8>)
    ensures
        r@ == writer_output(w),
{
    w.inner.writer
}

/// The state of an HTML writer as far as it shapes the markup: the bytes
/// written and the open frames, the innermost last.
pub struct HtmlState {
    pub output: Seq<u8>,
    pub open: Seq<Frame>,
}

/// The state of a new writer that reads its first calls as standing inside
/// `context`.
pub open spec fn html_start(context: Option<Seq<char>>) -> HtmlState {
    HtmlState { output: Seq::empty(), open: seq![(context, false)] }
}

/// The state after one call.
pub open spec fn html_step(s: HtmlState, scripting: bool, call: SinkCallView) -> HtmlState {
    match call {
        SinkCallView::StartElem { name, attrs } => HtmlState {
            output: s.output + start_markup(s.open.last().1, name, attrs),
            open: s.open.push(opened_frame(s.open.last().1, name)),
        },
        SinkCallView::EndElem { name } => HtmlState {
            output: s.output + end_tag_markup(s.open.last().1, name),
            open: s.open.drop_last(),
        },
        SinkCallView::Text { text } => HtmlState {
            output: s.output + text_markup(s.open.last().0, scripting, text),
            ..s
        },
        SinkCallView::Comment { text } => HtmlState { output: s.output + comment_markup(text), ..s },
        SinkCallView::Doctype { name } => HtmlState { output: s.output + doctype_markup(name), ..s },
        SinkCallView::ProcessingInstruction { target, data } => HtmlState {
            output: s.output + processing_instruction_markup(target, data),
            ..s
        },
    }
}

/// The state after a run of calls, from the state `s`.
pub open spec fn html_run(s: HtmlState, scripting: bool, calls: Seq<SinkCallView>) -> HtmlState
    decreases calls.len(),
{
    if calls.len() == 0 {
        s
    } else {
        html_step(html_run(s, scripting, calls.drop_last()), scripting, calls.last())
    }
}

/// The HTML that a new writer holds after `calls`.
pub open spec fn html_markup(
    context: Option<Seq<char>>,
    scripting: bool,
    calls: Seq<SinkCallView>,
) -> Seq<u8> {
    html_run(html_start(context), scripting, calls).output
}

/// One more call takes a run one step further.
pub proof fn lemma_run_push(s: HtmlState, scripting: bool, calls: Seq<SinkCallView>, call: SinkCallView)
    ensures
        html_run(s, scripting, calls.push(call)) == html_step(
            html_run(s, scripting, calls),
            scripting,
            call,
        ),
{
    assert(calls.push(call).drop_last() =~= calls);
}

/// What an HTML sink is set up with: the element that the first calls are
/// read as standing in, and whether scripting counts as enabled.
pub struct HtmlSetup {
    pub context: Option<Seq<char>>,
    pub scripting: bool,
}

/// The setup that `opts` ask for.
pub open spec fn setup_of(opts: SerializeOpts) -> HtmlSetup {
    HtmlSetup { context: context_name(opts.traversal_scope), scripting: opts.scripting_enabled }
}

/// A sink that writes HTML into a buffer of its own. No call on it fails.
pub struct HtmlSink {
    writer: HtmlWriter,
    setup: Ghost<HtmlSetup>,
    log: Ghost<Seq<SinkCallView>>,
}

impl HtmlSink {
    /// The bytes in the buffer.
    pub closed spec fn output(&self) -> Seq<u8> {
        writer_output(self.writer)
    }

    spec fn state(&self) -> HtmlState {
        html_run(html_start(self.setup@.context), self.setup@.scripting, self.log@)
    }

    /// The writer has taken `call`, and the account does not hold it yet.
    spec fn taken(&self, call: SinkCallView) -> bool {
        let next = html_step(self.state(), self.setup@.scripting, call);
        &&& writer_output(self.writer) == next.output
        &&& writer_open(self.writer) == next.open
        &&& writer_scripting(self.writer) == self.setup@.scripting
        &&& writer_open(self.writer).len() == nesting(self.log@) + depth_change(call) + 1
        &&& nesting(self.log@) + depth_change(call) >= 0
        &&& valid_utf8(writer_output(self.writer))
    }

    /// A sink with an empty buffer, set up as `opts` says.
    pub fn new(opts: &SerializeOpts) -> (r: HtmlSink)
        ensures
            r.ready(),
            r.accepted() == Seq::<SinkCallView>::empty(),
            r.setup() == setup_of(*opts),
            r.output() == Seq::<u8>::empty(),
    {
        HtmlSink { writer: writer_new(opts), setup: Ghost(setup_of(*opts)), log: Ghost(Seq::empty()) }
    }

    /// The buffer. Of a sink that is ready it holds the HTML of the calls
    /// accepted, which is UTF-8.
    pub fn into_bytes(self) -> (r: Vec<u8>)
        ensures
            r@ == self.output(),
            self.ready() ==> valid_utf8(r@) && r@ == html_markup(
                self.setup().context,
                self.setup().scripting,
                self.accepted(),
            ),
    {
        writer_into_bytes(self.writer)
    }

    /// Adds to the account the call that the writer has taken.
    fn note(&mut self, Ghost(call): Ghost<SinkCallView>)
        requires
            old(self).taken(call),
        ensures
            final(self).ready(),
            final(self).accepted() == old(self).accepted().push(call),
            final(self).setup() == old(self).setup(),
            final(self).output() == old(self).output(),
    {
        proof {
            lemma_run_push(html_start(self.setup@.context), self.setup@.scripting, self.log@, call);
            lemma_nesting_push(self.log@, call);
        }
        self.log = Ghost(self.log@.push(call));
    }
}

impl Sink for HtmlSink {
    type Setup = HtmlSetup;

    closed spec fn setup(&self) -> HtmlSetup {
        self.setup@
    }

    closed spec fn accepted(&self) -> Seq<SinkCallView> {
        self.log@
    }

    closed spec fn ready(&self) -> bool {
        &&& writer_output(self.writer) == self.state().output
        &&& writer_open(self.writer) == self.state().open
        &&& writer_scripting(self.writer) == self.setup@.scripting
        &&& writer_open(self.writer).len() == nesting(self.log@) + 1
        &&& nesting(self.log@) >= 0
        &&& valid_utf8(writer_output(self.writer))
    }

    open spec fn failure(&self) -> Option<std::io::Error> {
        None
    }

    open spec fn infallible() -> bool {
        true
    }

    proof fn lemma_ready_nests(&self) {
    }

    fn start_elem(&mut self, name: &QualName, attrs: &Vec<(QualName, &str)>) -> (r: Result<
        (),
        std::io::Error,
    >) {
        let r = writer_start_elem(&mut self.writer, name, attrs);
        self.note(Ghost(SinkCallView::StartElem { name: name@, attrs: pairs_view(attrs@) }));
        r
    }

    fn end_elem(&mut self, name: &QualName) -> (r: Result<(), std::io::Error>) {
        let r = writer_end_elem(&mut self.writer, name);
        proof {
            lemma_markup_is_utf8();
        }
        self.note(Ghost(SinkCallView::EndElem { name: name@ }));
        r
    }

    fn write_text(&mut self, text: &str) -> (r: Result<(), std::io::Error>) {
        let r = writer_write_text(&mut self.writer, text);
        self.note(Ghost(SinkCallView::Text { text: text@ }));
        r
    }

    fn write_comment(&mut self, text: &str) -> (r: Result<(), std::io::Error>) {
        let r = writer_write_comment(&mut self.writer, text);
        proof {
            lemma_markup_is_utf8();
        }
        self.note(Ghost(SinkCallView::Comment { text: text@ }));
        r
    }

    fn write_doctype(&mut self, name: &str) -> (r: Result<(), std::io::Error>) {
        let r = writer_write_doctype(&mut self.writer, name);
        proof {
            lemma_markup_is_utf8();
        }
        self.note(Ghost(SinkCallView::Doctype { name: name@ }));
        r
    }

    fn write_processing_instruction(&mut self, target: &str, data: &str) -> (r: Result<
        (),
        std::io::Error,
    >) {
        let r = writer_write_processing_instruction(&mut self.writer, target, data);
        proof {
            lemma_markup_is_utf8();
        }
        self.note(Ghost(SinkCallView::ProcessingInstruction { target: target@, data: data@ }));
        r
    }
}

/// The markup that is spelled out here is UTF-8, and stays so behind
/// UTF-8: an end tag, a comment, a document type, a processing instruction.
proof fn lemma_markup_is_utf8()
    ensures
        forall|skipping: bool, name: QualNameView| #[trigger]
            valid_utf8(end_tag_markup(skipping, name)),
        forall|text: Seq<char>| #[trigger] valid_utf8(comment_markup(text)),
        forall|name: Seq<char>| #[trigger] valid_utf8(doctype_markup(name)),
        forall|target: Seq<char>, data: Seq<char>| #[trigger]
            valid_utf8(processing_instruction_markup(target, data)),
        forall|before: Seq<u8>, more: Seq<u8>|
            valid_utf8(before) && valid_utf8(more) ==> #[trigger] valid_utf8(before + more),
{
    broadcast use vstd::utf8::encode_utf8_valid_utf8;

    assert forall|before: Seq<u8>, more: Seq<u8>| valid_utf8(before) && valid_utf8(more) implies
        #[trigger] valid_utf8(before + more) by {
        vstd::utf8::valid_utf8_concat(before, more);
    }
}

/// A run over two runs of calls, one after the other, is the run over the
/// second from where the first ended.
pub proof fn lemma_run_concat(
    s: HtmlState,
    scripting: bool,
    a: Seq<SinkCallView>,
    b: Seq<SinkCallView>,
)
    ensures
        html_run(s, scripting, a + b) == html_run(html_run(s, scripting, a), scripting, b),
    decreases b.len(),
{
    if b.len() == 0 {
        assert(a + b =~= a);
    } else {
        lemma_run_concat(s, scripting, a, b.drop_last());
        assert((a + b).drop_last() =~= a + b.drop_last());
        assert((a + b).last() == b.last());
    }
}

/// What a run appends does not depend on what was written before it.
pub proof fn lemma_run_appends(s: HtmlState, scripting: bool, calls: Seq<SinkCallView>)
    ensures
        html_run(s, scripting, calls).open == html_run(
            HtmlState { output: Seq::empty(), ..s },
            scripting,
            calls,
        ).open,
        html_run(s, scripting, calls).output == s.output + html_run(
            HtmlState { output: Seq::empty(), ..s },
            scripting,
            calls,
        ).output,
    decreases calls.len(),
{
    let fresh = HtmlState { output: Seq::empty(), ..s };
    if calls.len() == 0 {
        assert(s.output =~= s.output + fresh.output);
    } else {
        lemma_run_appends(s, scripting, calls.drop_last());
        let mid = html_run(s, scripting, calls.drop_last());
        let mid_fresh = html_run(fresh, scripting, calls.drop_last());
        let end = html_step(mid, scripting, calls.last());
        let end_fresh = html_step(mid_fresh, scripting, calls.last());
        assert(end.output =~= s.output + end_fresh.output);
    }
}

/// A run of calls that never ends more elements than it has started leaves
/// the frames that were open before it as they were, below the frames of
/// the elements that it leaves open.
pub proof fn lemma_run_keeps_frames(s: HtmlState, scripting: bool, calls: Seq<SinkCallView>)
    requires
        forall|k: int| 0 <= k <= calls.len() ==> nesting(#[trigger] calls.take(k)) >= 0,
    ensures
        html_run(s, scripting, calls).open.len() == s.open.len() + nesting(calls),
        html_run(s, scripting, calls).open.take(s.open.len() as int) == s.open,
    decreases calls.len(),
{
    if calls.len() == 0 {
        assert(s.open.take(s.open.len() as int) =~= s.open);
    } else {
        let front = calls.drop_last();
        assert forall|k: int| 0 <= k <= front.len() implies nesting(#[trigger] front.take(k))
            >= 0 by {
            assert(front.take(k) =~= calls.take(k));
        }
        lemma_run_keeps_frames(s, scripting, front);
        assert(calls.take(calls.len() as int) =~= calls);
        let mid = html_run(s, scripting, front);
        let end = html_step(mid, scripting, calls.last());
        assert(end.open.take(s.open.len() as int) =~= mid.open.take(s.open.len() as int));
    }
}

/// After calls that nest, the open frames are those from before.
pub proof fn lemma_run_nested(s: HtmlState, scripting: bool, calls: Seq<SinkCallView>)
    requires
        well_nested(calls),
    ensures
        html_run(s, scripting, calls).open == s.open,
{
    lemma_run_keeps_frames(s, scripting, calls);
    let open = html_run(s, scripting, calls).open;
    assert(open.take(open.len() as int) =~= open);
}

/// The HTML of a document or a fragment is the same whether the node is
/// covered itself or its children only.
pub proof fn law_html_ignores_scope_for_roots(
    t: TreeView,
    id: int,
    context: Option<Seq<char>>,
    scripting: bool,
)
    requires
        well_formed(t),
        0 <= id < t.len(),
        t[id].data is Document || t[id].data is DocumentFragment,
    ensures
        html_markup(context, scripting, emitted(t, id, true)) == html_markup(
            context,
            scripting,
            emitted(t, id, false),
        ),
{
}

/// Text, a comment, a processing instruction and a document type give no
/// HTML when their children only are covered.
pub proof fn law_html_leaf_children_only_is_empty(
    t: TreeView,
    id: int,
    context: Option<Seq<char>>,
    scripting: bool,
)
    requires
        well_formed(t),
        0 <= id < t.len(),
        is_leaf(t[id].data),
    ensures
        html_markup(context, scripting, emitted(t, id, false)) == Seq::<u8>::empty(),
{
}

/// The HTML of each child of the node at `id`, the child covered itself,
/// joined in order.
pub open spec fn children_markup(
    t: TreeView,
    id: int,
    context: Option<Seq<char>>,
    scripting: bool,
) -> Seq<u8> {
    Seq::new(
        t[id].children.len(),
        |i: int| html_markup(context, scripting, emitted(t, t[id].children[i], true)),
    ).flatten()
}

proof fn lemma_first_markup_is_join(
    t: TreeView,
    id: int,
    n: int,
    context: Option<Seq<char>>,
    scripting: bool,
)
    requires
        well_formed(t),
        0 <= id < t.len(),
        0 <= n <= t[id].children.len(),
    ensures
        html_run(html_start(context), scripting, emitted_first(t, id, n)).open == html_start(
            context,
        ).open,
        html_markup(context, scripting, emitted_first(t, id, n)) == Seq::new(
            n as nat,
            |i: int| html_markup(context, scripting, emitted(t, t[id].children[i], true)),
        ).flatten(),
    decreases n,
{
    let start = html_start(context);
    let parts = Seq::new(
        n as nat,
        |i: int| html_markup(context, scripting, emitted(t, t[id].children[i], true)),
    );
    assert(node_ok(t, id));
    if n == 0 {
        assert(parts =~= Seq::<Seq<u8>>::empty());
    } else {
        lemma_first_markup_is_join(t, id, n - 1, context, scripting);
        let fewer = Seq::new(
            (n - 1) as nat,
            |i: int| html_markup(context, scripting, emitted(t, t[id].children[i], true)),
        );
        let before = emitted_first(t, id, n - 1);
        let mine = emitted(t, t[id].children[n - 1], true);
        let mid = html_run(start, scripting, before);
        lemma_run_concat(start, scripting, before, mine);
        lemma_run_appends(mid, scripting, mine);
        lemma_emitted_nests(t, t[id].children[n - 1], true);
        lemma_run_nested(mid, scripting, mine);
        assert(HtmlState { output: Seq::empty(), ..mid } == start);
        assert(parts =~= fewer.push(html_markup(context, scripting, mine)));
        fewer.lemma_flatten_push(html_markup(context, scripting, mine));
    }
}

/// The HTML of an element whose children only are covered is the HTML of
/// each of its children, the child covered itself and written by a sink that
/// is set up in the same way, joined in order; no tag stands for the
/// element.
pub proof fn law_html_children_only_joins_children(
    t: TreeView,
    id: int,
    context: Option<Seq<char>>,
    scripting: bool,
)
    requires
        well_formed(t),
        0 <= id < t.len(),
        t[id].data is Element,
    ensures
        html_markup(context, scripting, emitted(t, id, false)) == children_markup(
            t,
            id,
            context,
            scripting,
        ),
{
    lemma_first_markup_is_join(t, id, t[id].children.len() as int, context, scripting);
}

/// After the characters of a text node are replaced, the HTML of the node
/// is what the writer makes of the new characters.
pub proof fn law_html_new_text_is_written(
    t: TreeView,
    id: int,
    text: Seq<char>,
    context: Option<Seq<char>>,
    scripting: bool,
)
    requires
        well_formed(t),
        0 <= id < t.len(),
        t[id].data is Text,
    ensures
        html_markup(
            context,
            scripting,
            emitted(with_data(t, id, NodeDataView::Text { text }), id, true),
        ) == text_markup(context, scripting, text),
{
    crate::tree::lemma_with_data_ok(t, id, NodeDataView::Text { text });
    let call = SinkCallView::Text { text };
    let calls = seq![call];
    assert(calls =~= Seq::<SinkCallView>::empty().push(call));
    lemma_run_push(html_start(context), scripting, Seq::empty(), call);
    assert(html_markup(context, scripting, calls) =~= text_markup(context, scripting, text));
}

} // verus!
