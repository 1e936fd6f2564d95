//! The traversal engine: a depth-first walk that turns a node, and with it
//! its descendants, into calls on a [`Sink`].

use crate::attributes::qualified_pairs;
use crate::html::{context_name, html_markup, HtmlSink, SerializeOpts};
use crate::name::QualName;
use crate::sink::{
    calls_view, lemma_nested_concat, lemma_nested_empty, lemma_nested_single, lemma_nested_wrap,
    lemma_nesting_concat, lemma_nesting_push, nesting, well_nested, CallLog, Sink, SinkCall,
    SinkCallView,
};
use crate::tree::{is_leaf, node_ok, well_formed, with_data, NodeData, NodeDataView, NodeRef, TreeView};
use vstd::prelude::*;
use vstd::utf8::{encode_utf8, valid_utf8};

verus! {

/// What a serialization covers.
#[derive(Debug, Clone, PartialEq, Eq)]
pub enum TraversalScope {
    /// The node itself and, inside it, its descendants.
    IncludeNode,
    /// The descendants of the node only. The name, if one is given, tells an
    /// HTML sink which element the children are to be read as standing in.
    ChildrenOnly(Option<QualName>),
}

/// `String::from_utf8`, with the error dropped: the string whose UTF-8
/// bytes are `bytes`, where they are valid UTF-8, and nothing where not.
#[verifier::external_body]
fn string_from_utf8(bytes: Vec<u8>) -> (r: Option<String>)
    ensures
        match r {
            Some(text) => valid_utf8(bytes@) && encode_utf8(text@) == bytes@,
            None => !valid_utf8(bytes@),
        },
{
    String::from_utf8(bytes).ok()
}

/// The calls made on the sink for the node at `id` of `t`, in order;
/// `whole` says whether the node itself is covered or its children only.
///
/// * An element that is covered gives the start of the element with its
///   attributes, then what its children give, then the end of the element;
///   one that is not gives what its children give.
/// * A document or a fragment gives what its children give, covered or not.
/// * Text, a comment, a document type or a processing instruction gives
///   one call if covered, and nothing if not.
pub open spec fn emitted(t: TreeView, id: int, whole: bool) -> Seq<SinkCallView>
    decreases t.len() - id, t[id].children.len() + 1,
    when well_formed(t) && 0 <= id < t.len()
{
    match t[id].data {
        NodeDataView::Element { name, attributes } => {
            let inner = emitted_first(t, id, t[id].children.len() as int);
            if whole {
                seq![SinkCallView::StartElem { name, attrs: qualified_pairs(attributes) }] + inner
                    + seq![SinkCallView::EndElem { name }]
            } else {
                inner
            }
        },
        NodeDataView::Document | NodeDataView::DocumentFragment => emitted_first(
            t,
            id,
            t[id].children.len() as int,
        ),
        NodeDataView::Doctype { name, .. } => if whole {
            seq![SinkCallView::Doctype { name }]
        } else {
            seq![]
        },
        NodeDataView::Text { text } => if whole {
            seq![SinkCallView::Text { text }]
        } else {
            seq![]
        },
        NodeDataView::Comment { text } => if whole {
            seq![SinkCallView::Comment { text }]
        } else {
            seq![]
        },
        NodeDataView::ProcessingInstruction { target, data } => if whole {
            seq![SinkCallView::ProcessingInstruction { target, data }]
        } else {
            seq![]
        },
    }
}

/// The calls made for the first `n` children of the node at `id` of `t`:
/// what each of them gives when covered itself, one child after the other.
pub open spec fn emitted_first(t: TreeView, id: int, n: int) -> Seq<SinkCallView>
    decreases t.len() - id, n,
    when well_formed(t) && 0 <= id < t.len() && 0 <= n <= t[id].children.len()
{
    if n == 0 {
        seq![]
    } else {
        proof {
            assert(node_ok(t, id));
        }
        emitted_first(t, id, n - 1) + emitted(t, t[id].children[n - 1], true)
    }
}

/// The traversal stopped before the end: of the calls `emission` that were
/// due after `before`, the sink accepted some from the front, not all, and
/// `after` is what it has accepted then.
pub open spec fn stopped_short(
    before: Seq<SinkCallView>,
    after: Seq<SinkCallView>,
    emission: Seq<SinkCallView>,
) -> bool {
    let k = after.len() - before.len();
    0 <= k < emission.len() && after == before + emission.take(k)
}

proof fn lemma_stopped_inside(
    before: Seq<SinkCallView>,
    pre: Seq<SinkCallView>,
    mid: Seq<SinkCallView>,
    post: Seq<SinkCallView>,
    after: Seq<SinkCallView>,
)
    requires
        stopped_short(before + pre, after, mid),
    ensures
        stopped_short(before, after, pre + mid + post),
{
    let k = after.len() - (before + pre).len();
    assert(after =~= before + (pre + mid + post).take(pre.len() + k));
}

proof fn lemma_stopped_after(
    before: Seq<SinkCallView>,
    pre: Seq<SinkCallView>,
    post: Seq<SinkCallView>,
)
    requires
        post.len() > 0,
    ensures
        stopped_short(before, before + pre, pre + post),
{
    assert(before + pre =~= before + (pre + post).take(pre.len() as int));
}

/// What the first `k` children give is the front of what the first `n` give.
proof fn lemma_first_prefix(t: TreeView, id: int, k: int, n: int)
    requires
        well_formed(t),
        0 <= id < t.len(),
        0 <= k <= n <= t[id].children.len(),
    ensures
        emitted_first(t, id, k).is_prefix_of(emitted_first(t, id, n)),
    decreases n - k,
{
    if k < n {
        lemma_first_prefix(t, id, k, n - 1);
    }
}

/// The calls for a node nest: they end every element that they start, and
/// end none before it is started.
pub proof fn lemma_emitted_nests(t: TreeView, id: int, whole: bool)
    requires
        well_formed(t),
        0 <= id < t.len(),
    ensures
        well_nested(emitted(t, id, whole)),
    decreases t.len() - id, t[id].children.len() + 1,
{
    let inner = emitted_first(t, id, t[id].children.len() as int);
    lemma_emitted_first_nests(t, id, t[id].children.len() as int);
    match t[id].data {
        NodeDataView::Element { name, attributes } => {
            if whole {
                lemma_nested_wrap(
                    SinkCallView::StartElem { name, attrs: qualified_pairs(attributes) },
                    inner,
                    SinkCallView::EndElem { name },
                );
            }
        },
        NodeDataView::Document | NodeDataView::DocumentFragment => {},
        _ => {
            if whole {
                let calls = emitted(t, id, whole);
                assert(calls =~= seq![calls[0]]);
                lemma_nested_single(calls[0]);
            } else {
                lemma_nested_empty();
            }
        },
    }
}

/// The calls for the first `n` children of a node nest.
pub proof fn lemma_emitted_first_nests(t: TreeView, id: int, n: int)
    requires
        well_formed(t),
        0 <= id < t.len(),
        0 <= n <= t[id].children.len(),
    ensures
        well_nested(emitted_first(t, id, n)),
    decreases t.len() - id, n,
{
    if n > 0 {
        assert(node_ok(t, id));
        lemma_emitted_first_nests(t, id, n - 1);
        lemma_emitted_nests(t, t[id].children[n - 1], true);
        lemma_nested_concat(emitted_first(t, id, n - 1), emitted(t, t[id].children[n - 1], true));
    } else {
        lemma_nested_empty();
    }
}

impl<'a> NodeRef<'a> {
    /// Walks this node depth first and drives `sink` with the calls that
    /// [`emitted`] lists, in order. The first call that the sink fails ends
    /// the walk: no call follows it, and the error that the sink gave is
    /// returned as it came.
    ///
    /// Every child is walked as covered itself, whatever `scope` says of
    /// this node.
    pub fn serialize_into<S: Sink>(&self, sink: &mut S, scope: &TraversalScope) -> (r: Result<
        (),
        std::io::Error,
    >)
        requires
            old(sink).ready(),
        ensures
            well_formed(self.nodes()),
            0 <= self.position() < self.nodes().len(),
            r is Ok ==> final(sink).ready() && final(sink).accepted() == old(sink).accepted()
                + emitted(self.nodes(), self.position(), scope is IncludeNode),
            r is Err ==> stopped_short(
                old(sink).accepted(),
                final(sink).accepted(),
                emitted(self.nodes(), self.position(), scope is IncludeNode),
            ),
            r is Ok ==> final(sink).failure() == old(sink).failure(),
            r matches Err(e) ==> final(sink).failure() == Some(e),
            final(sink).setup() == old(sink).setup(),
            S::infallible() ==> r is Ok,
        decreases self.nodes().len() - self.position(), 1int,
    {
        self.valid();
        proof {
            sink.lemma_ready_nests();
        }
        let whole = match scope {
            TraversalScope::IncludeNode => true,
            TraversalScope::ChildrenOnly(_) => false,
        };
        let ghost t = self.nodes();
        let ghost id = self.position();
        let ghost before = sink.accepted();
        let ghost inner = emitted_first(t, id, t[id].children.len() as int);
        match self.data() {
            NodeData::Element(element) => {
                let ghost start = SinkCallView::StartElem {
                    name: element.name@,
                    attrs: qualified_pairs(element.attributes@),
                };
                let ghost end = SinkCallView::EndElem { name: element.name@ };
                if whole {
                    let attrs = element.attributes.qualified();
                    match sink.start_elem(&element.name, &attrs) {
                        Ok(()) => {
                            proof {
                                lemma_nesting_push(before, start);
                            }
                        },
                        Err(e) => {
                            proof {
                                lemma_stopped_after(before, Seq::empty(), seq![start] + inner + seq![end]);
                                assert(Seq::<SinkCallView>::empty() + (seq![start] + inner + seq![end])
                                    =~= seq![start] + inner + seq![end]);
                                assert(before + Seq::<SinkCallView>::empty() =~= before);
                            }
                            return Err(e);
                        },
                    }
                }
                let ghost opened = sink.accepted();
                match self.serialize_children_into(sink) {
                    Ok(()) => {},
                    Err(e) => {
                        proof {
                            if whole {
                                assert(opened =~= before + seq![start]);
                                lemma_stopped_inside(
                                    before,
                                    seq![start],
                                    inner,
                                    seq![end],
                                    sink.accepted(),
                                );
                            }
                        }
                        return Err(e);
                    },
                }
                if whole {
                    proof {
                        lemma_emitted_first_nests(t, id, t[id].children.len() as int);
                        lemma_nesting_concat(opened, inner);
                    }
                    match sink.end_elem(&element.name) {
                        Ok(()) => {
                            proof {
                                assert(sink.accepted() =~= before + (seq![start] + inner + seq![end]));
                            }
                        },
                        Err(e) => {
                            proof {
                                lemma_stopped_after(before, seq![start] + inner, seq![end]);
                                assert(sink.accepted() =~= before + (seq![start] + inner));
                            }
                            return Err(e);
                        },
                    }
                }
                Ok(())
            },
            NodeData::Document => self.serialize_children_into(sink),
            NodeData::DocumentFragment => self.serialize_children_into(sink),
            NodeData::Doctype(doctype) => {
                if whole {
                    let r = sink.write_doctype(doctype.name.as_str());
                    proof {
                        let call = SinkCallView::Doctype { name: doctype.name@ };
                        lemma_leaf_call(before, sink.accepted(), call, r is Ok);
                    }
                    r
                } else {
                    proof {
                        assert(before + Seq::<SinkCallView>::empty() =~= before);
                    }
                    Ok(())
                }
            },
            NodeData::Text(text) => {
                if whole {
                    let r = sink.write_text(text.as_str());
                    proof {
                        let call = SinkCallView::Text { text: text@ };
                        lemma_leaf_call(before, sink.accepted(), call, r is Ok);
                    }
                    r
                } else {
                    proof {
                        assert(before + Seq::<SinkCallView>::empty() =~= before);
                    }
                    Ok(())
                }
            },
            NodeData::Comment(text) => {
                if whole {
                    let r = sink.write_comment(text.as_str());
                    proof {
                        let call = SinkCallView::Comment { text: text@ };
                        lemma_leaf_call(before, sink.accepted(), call, r is Ok);
                    }
                    r
                } else {
                    proof {
                        assert(before + Seq::<SinkCallView>::empty() =~= before);
                    }
                    Ok(())
                }
            },
            NodeData::ProcessingInstruction(target, data) => {
                if whole {
                    let r = sink.write_processing_instruction(target.as_str(), data.as_str());
                    proof {
                        let call = SinkCallView::ProcessingInstruction {
                            target: target@,
                            data: data@,
                        };
                        lemma_leaf_call(before, sink.accepted(), call, r is Ok);
                    }
                    r
                } else {
                    proof {
                        assert(before + Seq::<SinkCallView>::empty() =~= before);
                    }
                    Ok(())
                }
            },
        }
    }

    /// Walks the children of this node, in order, each covered itself.
    fn serialize_children_into<S: Sink>(&self, sink: &mut S) -> (r: Result<
        (),
        std::io::Error,
    >)
        requires
            old(sink).ready(),
        ensures
            well_formed(self.nodes()),
            0 <= self.position() < self.nodes().len(),
            r is Ok ==> final(sink).ready() && final(sink).accepted() == old(sink).accepted()
                + emitted_first(
                self.nodes(),
                self.position(),
                self.node().children.len() as int,
            ),
            r is Err ==> stopped_short(
                old(sink).accepted(),
                final(sink).accepted(),
                emitted_first(self.nodes(), self.position(), self.node().children.len() as int),
            ),
            r is Ok ==> final(sink).failure() == old(sink).failure(),
            r matches Err(e) ==> final(sink).failure() == Some(e),
            final(sink).setup() == old(sink).setup(),
            S::infallible() ==> r is Ok,
        decreases self.nodes().len() - self.position(), 0int,
    {
        self.valid();
        proof {
            sink.lemma_ready_nests();
        }
        let ghost t = self.nodes();
        let ghost id = self.position();
        let ghost before = sink.accepted();
        let n = self.child_count();
        let mut k: usize = 0;
        proof {
            assert(before + emitted_first(t, id, 0) =~= before);
        }
        while k < n
            invariant
                k <= n,
                n == t[id].children.len(),
                t == self.nodes(),
                id == self.position(),
                well_formed(t),
                0 <= id < t.len(),
                before == old(sink).accepted(),
                sink.setup() == old(sink).setup(),
                sink.failure() == old(sink).failure(),
                sink.ready(),
                nesting(sink.accepted()) == nesting(before),
                nesting(before) >= 0,
                sink.accepted() == before + emitted_first(t, id, k as int),
            decreases n - k,
        {
            let ghost done = emitted_first(t, id, k as int);
            match self.child(k) {
                Some(child) => {
                    child.valid();
                    let ghost mine = emitted(t, child.position(), true);
                    match child.serialize_into(sink, &TraversalScope::IncludeNode) {
                        Ok(()) => {
                            proof {
                                lemma_emitted_nests(t, child.position(), true);
                                lemma_nesting_concat(before + done, mine);
                                assert(sink.accepted() =~= before + (done + mine));
                            }
                        },
                        Err(e) => {
                            proof {
                                let all = emitted_first(t, id, n as int);
                                lemma_first_prefix(t, id, k + 1, n as int);
                                let rest = all.skip((done + mine).len() as int);
                                assert(all =~= done + mine + rest);
                                lemma_stopped_inside(before, done, mine, rest, sink.accepted());
                            }
                            return Err(e);
                        },
                    }
                },
                None => {},
            }
            k += 1;
        }
        Ok(())
    }

    /// Appends to `writer` the HTML of this node and its descendants, as
    /// `opts` says. It does not fail: the HTML is written into a buffer.
    pub fn serialize_with_options(&self, writer: &mut Vec<u8>, opts: SerializeOpts) -> (r: Result<
        (),
        std::io::Error,
    >)
        ensures
            well_formed(self.nodes()),
            0 <= self.position() < self.nodes().len(),
            r is Ok,
            final(writer)@ == old(writer)@ + html_markup(
                context_name(opts.traversal_scope),
                opts.scripting_enabled,
                emitted(self.nodes(), self.position(), opts.traversal_scope is IncludeNode),
            ),
            valid_utf8(
                html_markup(
                    context_name(opts.traversal_scope),
                    opts.scripting_enabled,
                    emitted(self.nodes(), self.position(), opts.traversal_scope is IncludeNode),
                ),
            ),
    {
        let mut sink = HtmlSink::new(&opts);
        let ghost calls = emitted(
            self.nodes(),
            self.position(),
            opts.traversal_scope is IncludeNode,
        );
        let r = self.serialize_into(&mut sink, &opts.traversal_scope);
        proof {
            assert(Seq::<SinkCallView>::empty() + calls =~= calls);
        }
        let mut bytes = sink.into_bytes();
        writer.append(&mut bytes);
        r
    }

    /// Appends to `writer` the HTML of this node and its descendants, the
    /// node itself covered, with scripting enabled. It does not fail.
    pub fn serialize(&self, writer: &mut Vec<u8>) -> (r: Result<(), std::io::Error>)
        ensures
            well_formed(self.nodes()),
            0 <= self.position() < self.nodes().len(),
            r is Ok,
            final(writer)@ == old(writer)@ + html_markup(
                None,
                true,
                emitted(self.nodes(), self.position(), true),
            ),
            valid_utf8(html_markup(None, true, emitted(self.nodes(), self.position(), true))),
    {
        self.serialize_with_options(
            writer,
            SerializeOpts {
                scripting_enabled: true,
                traversal_scope: TraversalScope::IncludeNode,
                create_missing_parent: false,
            },
        )
    }

    /// The HTML of this node and its descendants, the node itself covered,
    /// as a string: the string whose UTF-8 bytes [`NodeRef::serialize`]
    /// writes into an empty buffer.
    pub fn to_string(&self) -> (r: String)
        ensures
            well_formed(self.nodes()),
            0 <= self.position() < self.nodes().len(),
            encode_utf8(r@) == html_markup(
                None,
                true,
                emitted(self.nodes(), self.position(), true),
            ),
    {
        let mut bytes: Vec<u8> = Vec::new();
        let _ = self.serialize(&mut bytes);
        proof {
            let markup = html_markup(None, true, emitted(self.nodes(), self.position(), true));
            assert(Seq::<u8>::empty() + markup =~= markup);
        }
        match string_from_utf8(bytes) {
            Some(text) => text,
            None => vstd::pervasive::unreached(),
        }
    }

    /// The calls that a walk of this node makes, as values.
    pub fn sink_calls(&self, scope: &TraversalScope) -> (r: Vec<SinkCall>)
        ensures
            well_formed(self.nodes()),
            0 <= self.position() < self.nodes().len(),
            calls_view(r@) == emitted(self.nodes(), self.position(), scope is IncludeNode),
    {
        let mut log = CallLog::new();
        let walked = self.serialize_into(&mut log, scope);
        proof {
            assert(walked is Ok);
            assert(Seq::<SinkCallView>::empty() + emitted(
                self.nodes(),
                self.position(),
                scope is IncludeNode,
            ) =~= emitted(self.nodes(), self.position(), scope is IncludeNode));
        }
        log.into_calls()
    }
}

proof fn lemma_leaf_call(
    before: Seq<SinkCallView>,
    after: Seq<SinkCallView>,
    call: SinkCallView,
    ok: bool,
)
    requires
        ok ==> after == before.push(call),
        !ok ==> after == before,
    ensures
        ok ==> after == before + seq![call],
        !ok ==> stopped_short(before, after, seq![call]),
{
    if ok {
        assert(before.push(call) =~= before + seq![call]);
    } else {
        assert(before =~= before + seq![call].take(0));
    }
}

/// A document and a fragment give the same calls whether they are covered
/// themselves or their children only: the scope is ignored for them.
pub proof fn law_scope_ignored_for_roots(t: TreeView, id: int)
    requires
        well_formed(t),
        0 <= id < t.len(),
        t[id].data is Document || t[id].data is DocumentFragment,
    ensures
        emitted(t, id, true) == emitted(t, id, false),
{
}

/// What the children of the node at `id` give, each covered itself, one
/// child after the other.
pub open spec fn children_emitted(t: TreeView, id: int) -> Seq<SinkCallView> {
    Seq::new(t[id].children.len(), |i: int| emitted(t, t[id].children[i], true)).flatten()
}

/// The calls for the first `n` children are the calls for each of them,
/// joined in order.
proof fn lemma_first_is_join(t: TreeView, id: int, n: int)
    requires
        well_formed(t),
        0 <= id < t.len(),
        0 <= n <= t[id].children.len(),
    ensures
        emitted_first(t, id, n) == Seq::new(
            n as nat,
            |i: int| emitted(t, t[id].children[i], true),
        ).flatten(),
    decreases n,
{
    let parts = Seq::new(n as nat, |i: int| emitted(t, t[id].children[i], true));
    assert(node_ok(t, id));
    if n == 0 {
        assert(parts =~= Seq::<Seq<SinkCallView>>::empty());
    } else {
        lemma_first_is_join(t, id, n - 1);
        let fewer = Seq::new((n - 1) as nat, |i: int| emitted(t, t[id].children[i], true));
        assert(parts =~= fewer.push(emitted(t, t[id].children[n - 1], true)));
        fewer.lemma_flatten_push(emitted(t, t[id].children[n - 1], true));
    }
}

/// An element whose children only are covered gives what its children give,
/// each covered itself, joined in order, and no call for the element.
pub proof fn law_children_only_joins_children(t: TreeView, id: int)
    requires
        well_formed(t),
        0 <= id < t.len(),
        t[id].data is Element,
    ensures
        emitted(t, id, false) == children_emitted(t, id),
{
    lemma_first_is_join(t, id, t[id].children.len() as int);
}

/// A covered element gives its start with its attributes as the sink takes
/// them, then what its children give, then its end.
pub proof fn law_element_wraps_children(t: TreeView, id: int)
    requires
        well_formed(t),
        0 <= id < t.len(),
        t[id].data is Element,
    ensures
        emitted(t, id, true) == seq![
            SinkCallView::StartElem {
                name: t[id].data->Element_name,
                attrs: qualified_pairs(t[id].data->attributes),
            },
        ] + children_emitted(t, id) + seq![SinkCallView::EndElem { name: t[id].data->Element_name }],
{
    lemma_first_is_join(t, id, t[id].children.len() as int);
}

/// Text, a comment, a processing instruction and a document type give no
/// call when their children only are covered.
pub proof fn law_leaf_children_only_is_empty(t: TreeView, id: int)
    requires
        well_formed(t),
        0 <= id < t.len(),
        is_leaf(t[id].data),
    ensures
        emitted(t, id, false) == Seq::<SinkCallView>::empty(),
{
}

/// After the characters of a text node are replaced, the node gives the new
/// characters: nothing of an earlier walk is kept.
pub proof fn law_new_text_is_emitted(t: TreeView, id: int, text: Seq<char>)
    requires
        well_formed(t),
        0 <= id < t.len(),
        t[id].data is Text,
    ensures
        well_formed(with_data(t, id, NodeDataView::Text { text })),
        emitted(with_data(t, id, NodeDataView::Text { text }), id, true) == seq![
            SinkCallView::Text { text },
        ],
{
    crate::tree::lemma_with_data_ok(t, id, NodeDataView::Text { text });
}

/// The node at `id` is the node at `top` or stands below it.
pub open spec fn within(t: TreeView, top: int, id: int) -> bool
    decreases id,
    when well_formed(t) && 0 <= id < t.len()
{
    if id == top {
        true
    } else {
        match t[id].parent {
            Some(p) => {
                proof {
                    assert(node_ok(t, id));
                }
                within(t, top, p)
            },
            None => false,
        }
    }
}

/// What stands below a child stands below its parent.
proof fn lemma_within_parent(t: TreeView, child: int, id: int)
    requires
        well_formed(t),
        0 <= child < t.len(),
        0 <= id < t.len(),
        t[child].parent is Some,
        within(t, child, id),
    ensures
        within(t, t[child].parent->0, id),
    decreases id,
{
    let above = t[child].parent->0;
    assert(node_ok(t, id));
    assert(node_ok(t, child));
    assert(within(t, above, above));
    if id != child {
        lemma_within_parent(t, child, t[id].parent->0);
    }
}

/// Replacing the content of a node changes what another node gives only if
/// the replaced node is that node or stands below it.
pub proof fn law_change_is_seen_from_above_only(
    t: TreeView,
    id: int,
    data: NodeDataView,
    at: int,
    whole: bool,
)
    requires
        well_formed(t),
        well_formed(with_data(t, id, data)),
        0 <= id < t.len(),
        0 <= at < t.len(),
        !within(t, at, id),
    ensures
        emitted(with_data(t, id, data), at, whole) == emitted(t, at, whole),
    decreases t.len() - at, t[at].children.len() + 1,
{
    lemma_outside_first_unchanged(t, id, data, at, t[at].children.len() as int);
}

proof fn lemma_outside_first_unchanged(t: TreeView, id: int, data: NodeDataView, at: int, n: int)
    requires
        well_formed(t),
        well_formed(with_data(t, id, data)),
        0 <= id < t.len(),
        0 <= at < t.len(),
        0 <= n <= t[at].children.len(),
        !within(t, at, id),
    ensures
        emitted_first(with_data(t, id, data), at, n) == emitted_first(t, at, n),
    decreases t.len() - at, n,
{
    if n > 0 {
        assert(node_ok(t, at));
        let child = t[at].children[n - 1];
        if within(t, child, id) {
            lemma_within_parent(t, child, id);
        }
        lemma_outside_first_unchanged(t, id, data, at, n - 1);
        law_change_is_seen_from_above_only(t, id, data, child, true);
    }
}

} // verus!
