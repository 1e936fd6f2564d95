use dom_serialize::attributes::{Attribute, Attributes};
use dom_serialize::html::SerializeOpts;
use dom_serialize::name::{ExpandedName, QualName};
use dom_serialize::serializer::TraversalScope;
use dom_serialize::sink::SinkCall;
use dom_serialize::tree::{Doctype, ElementData, NodeData, NodeId, Tree};

const HTML: &str = "http://www.w3.org/1999/xhtml";

fn html(local: &str) -> QualName {
    QualName::new(None, HTML, local)
}

fn element(local: &str) -> NodeData {
    NodeData::Element(ElementData { name: html(local), attributes: Attributes::new() })
}

fn text(s: &str) -> NodeData {
    NodeData::Text(s.to_string())
}

fn doctype(name: &str) -> NodeData {
    NodeData::Doctype(Doctype {
        name: name.to_string(),
        public_id: String::new(),
        system_id: String::new(),
    })
}

fn calls(tree: &Tree, id: NodeId, scope: TraversalScope) -> Vec<SinkCall> {
    tree.node(id).unwrap().sink_calls(&scope)
}

fn markup(tree: &Tree, id: NodeId, scope: TraversalScope) -> String {
    let mut out = Vec::new();
    let opts = SerializeOpts { scripting_enabled: true, traversal_scope: scope, create_missing_parent: false };
    tree.node(id).unwrap().serialize_with_options(&mut out, opts).unwrap();
    String::from_utf8(out).unwrap()
}

/// A document: `<!DOCTYPE html><html><body><p class="x">a<br>b</p><!--c--></body></html>`.
fn page() -> (Tree, NodeId, NodeId, NodeId) {
    let mut tree = Tree::new();
    let document = tree.create(NodeData::Document);
    tree.append_child(document, doctype("html")).unwrap();
    let root = tree.append_child(document, element("html")).unwrap();
    let body = tree.append_child(root, element("body")).unwrap();
    let mut attributes = Attributes::new();
    attributes.insert(ExpandedName::new("", "class"), Attribute { prefix: None, value: "x".to_string() });
    let p = tree
        .append_child(body, NodeData::Element(ElementData { name: html("p"), attributes }))
        .unwrap();
    tree.append_child(p, text("a")).unwrap();
    tree.append_child(p, element("br")).unwrap();
    tree.append_child(p, text("b")).unwrap();
    tree.append_child(body, NodeData::Comment("c".to_string())).unwrap();
    (tree, document, body, p)
}

#[test]
fn fragment_with_text_and_element() {
    let mut tree = Tree::new();
    let fragment = tree.create(NodeData::DocumentFragment);
    tree.append_child(fragment, text("a")).unwrap();
    let div = tree.append_child(fragment, element("div")).unwrap();
    tree.append_child(div, text("b")).unwrap();
    let node = tree.node(fragment).unwrap();
    assert_eq!(node.to_string(), "a<div>b</div>");
    assert_eq!(markup(&tree, fragment, TraversalScope::IncludeNode), "a<div>b</div>");
    assert_eq!(
        calls(&tree, fragment, TraversalScope::IncludeNode),
        vec![
            SinkCall::Text { text: "a".to_string() },
            SinkCall::StartElem { name: html("div"), attrs: vec![] },
            SinkCall::Text { text: "b".to_string() },
            SinkCall::EndElem { name: html("div") },
        ]
    );
}

#[test]
fn element_with_one_attribute() {
    let mut attributes = Attributes::new();
    attributes.insert(ExpandedName::new("", "class"), Attribute { prefix: None, value: "x".to_string() });
    let mut tree = Tree::new();
    let p = tree.create(NodeData::Element(ElementData { name: html("p"), attributes }));
    assert_eq!(
        calls(&tree, p, TraversalScope::IncludeNode),
        vec![
            SinkCall::StartElem {
                name: html("p"),
                attrs: vec![(QualName::new(None, "", "class"), "x".to_string())],
            },
            SinkCall::EndElem { name: html("p") },
        ]
    );
    assert_eq!(tree.node(p).unwrap().to_string(), "<p class=\"x\"></p>");
}

#[test]
fn attributes_keep_their_order_and_prefix() {
    let mut attributes = Attributes::new();
    attributes.insert(ExpandedName::new("", "id"), Attribute { prefix: None, value: "one".to_string() });
    attributes.insert(
        ExpandedName::new("http://www.w3.org/1999/xlink", "href"),
        Attribute { prefix: Some("xlink".to_string()), value: "#t".to_string() },
    );
    attributes.insert(ExpandedName::new("", "class"), Attribute { prefix: None, value: "x".to_string() });
    attributes.insert(ExpandedName::new("", "id"), Attribute { prefix: None, value: "two".to_string() });
    let mut tree = Tree::new();
    let a = tree.create(NodeData::Element(ElementData { name: html("a"), attributes }));
    assert_eq!(
        calls(&tree, a, TraversalScope::IncludeNode)[0],
        SinkCall::StartElem {
            name: html("a"),
            attrs: vec![
                (QualName::new(None, "", "id"), "two".to_string()),
                (
                    QualName::new(Some("xlink"), "http://www.w3.org/1999/xlink", "href"),
                    "#t".to_string()
                ),
                (QualName::new(None, "", "class"), "x".to_string()),
            ],
        }
    );
    assert_eq!(
        markup(&tree, a, TraversalScope::IncludeNode),
        "<a id=\"two\" xlink:href=\"#t\" class=\"x\"></a>"
    );
}

#[test]
fn doctype_gives_one_call() {
    let mut tree = Tree::new();
    let d = tree.create(doctype("html"));
    assert_eq!(
        calls(&tree, d, TraversalScope::IncludeNode),
        vec![SinkCall::Doctype { name: "html".to_string() }]
    );
    assert_eq!(tree.node(d).unwrap().to_string(), "<!DOCTYPE html>");
}

#[test]
fn scope_is_ignored_for_document_and_fragment() {
    let (tree, document, _, _) = page();
    let whole = calls(&tree, document, TraversalScope::IncludeNode);
    assert_eq!(whole.len(), 12);
    assert_eq!(whole, calls(&tree, document, TraversalScope::ChildrenOnly(None)));
    assert_eq!(whole, calls(&tree, document, TraversalScope::ChildrenOnly(Some(html("div")))));
    let expected = "<!DOCTYPE html><html><body><p class=\"x\">a<br>b</p><!--c--></body></html>";
    assert_eq!(markup(&tree, document, TraversalScope::IncludeNode), expected);
    assert_eq!(markup(&tree, document, TraversalScope::ChildrenOnly(None)), expected);

    let mut other = Tree::new();
    let fragment = other.create(NodeData::DocumentFragment);
    other.append_child(fragment, text("x")).unwrap();
    other.append_child(fragment, element("hr")).unwrap();
    assert_eq!(
        calls(&other, fragment, TraversalScope::IncludeNode),
        calls(&other, fragment, TraversalScope::ChildrenOnly(None))
    );
    assert_eq!(markup(&other, fragment, TraversalScope::IncludeNode), "x<hr>");
    assert_eq!(markup(&other, fragment, TraversalScope::ChildrenOnly(None)), "x<hr>");
}

#[test]
fn children_only_joins_the_children() {
    let (tree, _, body, p) = page();
    for id in [body, p] {
        let node = tree.node(id).unwrap();
        let mut joined_calls = Vec::new();
        let mut joined_markup = String::new();
        for child in node.children() {
            joined_calls.extend(child.sink_calls(&TraversalScope::IncludeNode));
            joined_markup.push_str(&child.to_string());
        }
        assert_eq!(calls(&tree, id, TraversalScope::ChildrenOnly(None)), joined_calls);
        assert_eq!(markup(&tree, id, TraversalScope::ChildrenOnly(None)), joined_markup);
    }
    assert_eq!(markup(&tree, p, TraversalScope::ChildrenOnly(None)), "a<br>b");
    assert_eq!(markup(&tree, body, TraversalScope::ChildrenOnly(None)), "<p class=\"x\">a<br>b</p><!--c-->");
    assert_eq!(
        calls(&tree, p, TraversalScope::ChildrenOnly(None)),
        vec![
            SinkCall::Text { text: "a".to_string() },
            SinkCall::StartElem { name: html("br"), attrs: vec![] },
            SinkCall::EndElem { name: html("br") },
            SinkCall::Text { text: "b".to_string() },
        ]
    );
}

#[test]
fn children_only_of_a_leaf_is_empty() {
    let mut tree = Tree::new();
    let leaves = [
        tree.create(text("a")),
        tree.create(NodeData::Comment("b".to_string())),
        tree.create(NodeData::ProcessingInstruction("t".to_string(), "d".to_string())),
        tree.create(doctype("html")),
    ];
    for leaf in leaves {
        assert_eq!(calls(&tree, leaf, TraversalScope::ChildrenOnly(None)), vec![]);
        assert_eq!(calls(&tree, leaf, TraversalScope::IncludeNode).len(), 1);
        assert_eq!(markup(&tree, leaf, TraversalScope::ChildrenOnly(None)), "");
        assert_eq!(markup(&tree, leaf, TraversalScope::ChildrenOnly(Some(html("p")))), "");
    }
}

#[test]
fn each_leaf_gives_its_own_call() {
    let mut tree = Tree::new();
    let t = tree.create(text("a"));
    let c = tree.create(NodeData::Comment("b".to_string()));
    let pi = tree.create(NodeData::ProcessingInstruction("t".to_string(), "d".to_string()));
    assert_eq!(calls(&tree, t, TraversalScope::IncludeNode), vec![SinkCall::Text { text: "a".to_string() }]);
    assert_eq!(
        calls(&tree, c, TraversalScope::IncludeNode),
        vec![SinkCall::Comment { text: "b".to_string() }]
    );
    assert_eq!(
        calls(&tree, pi, TraversalScope::IncludeNode),
        vec![SinkCall::ProcessingInstruction { target: "t".to_string(), data: "d".to_string() }]
    );
    assert_eq!(markup(&tree, t, TraversalScope::IncludeNode), "a");
    assert_eq!(markup(&tree, c, TraversalScope::IncludeNode), "<!--b-->");
    assert_eq!(markup(&tree, pi, TraversalScope::IncludeNode), "<?t d>");
}

#[test]
fn new_text_is_seen_by_the_next_walk() {
    let mut tree = Tree::new();
    let p = tree.create(element("p"));
    let t = tree.append_child(p, text("old")).unwrap();
    let kept = t;
    assert_eq!(tree.node(t).unwrap().to_string(), "old");
    assert_eq!(tree.node(p).unwrap().to_string(), "<p>old</p>");
    assert!(tree.set_text(t, "new".to_string()));
    assert_eq!(tree.node(kept).unwrap().to_string(), "new");
    assert_eq!(tree.node(p).unwrap().to_string(), "<p>new</p>");
    assert_eq!(
        calls(&tree, kept, TraversalScope::IncludeNode),
        vec![SinkCall::Text { text: "new".to_string() }]
    );
}

#[test]
fn new_children_are_seen_by_the_next_walk() {
    let mut tree = Tree::new();
    let ul = tree.create(element("ul"));
    assert_eq!(tree.node(ul).unwrap().to_string(), "<ul></ul>");
    let li = tree.append_child(ul, element("li")).unwrap();
    assert_eq!(tree.node(ul).unwrap().to_string(), "<ul><li></li></ul>");
    tree.append_child(li, text("1")).unwrap();
    tree.append_child(ul, element("li")).unwrap();
    assert_eq!(tree.node(ul).unwrap().to_string(), "<ul><li>1</li><li></li></ul>");
}

#[test]
fn serialize_appends_to_the_writer() {
    let (tree, _, _, p) = page();
    let mut out = b"before:".to_vec();
    tree.node(p).unwrap().serialize(&mut out).unwrap();
    assert_eq!(out, b"before:<p class=\"x\">a<br>b</p>".to_vec());
    tree.node(p).unwrap().serialize(&mut out).unwrap();
    assert_eq!(out, b"before:<p class=\"x\">a<br>b</p><p class=\"x\">a<br>b</p>".to_vec());
}

#[test]
fn default_options_cover_the_children_only() {
    let opts = SerializeOpts::default();
    assert!(opts.scripting_enabled);
    assert_eq!(opts.traversal_scope, TraversalScope::ChildrenOnly(None));
    assert!(!opts.create_missing_parent);
    let (tree, _, _, p) = page();
    let mut out = Vec::new();
    tree.node(p).unwrap().serialize_with_options(&mut out, opts).unwrap();
    assert_eq!(out, b"a<br>b".to_vec());
}

#[test]
fn deep_and_wide_trees_are_walked_in_order() {
    let mut tree = Tree::new();
    let root = tree.create(element("div"));
    let mut at = root;
    for _ in 0..200 {
        at = tree.append_child(at, element("div")).unwrap();
    }
    for i in 0..300 {
        tree.append_child(at, text(&i.to_string())).unwrap();
    }
    let numbers: String = (0..300).map(|i| i.to_string()).collect();
    let expected = format!("{}{}{}", "<div>".repeat(201), numbers, "</div>".repeat(201));
    assert_eq!(tree.node(root).unwrap().to_string(), expected);
    assert_eq!(markup(&tree, at, TraversalScope::ChildrenOnly(None)), numbers);
    assert_eq!(calls(&tree, root, TraversalScope::IncludeNode).len(), 2 * 201 + 300);
}

#[test]
fn an_empty_tree_has_no_node() {
    let mut tree = Tree::new();
    assert_eq!(tree.len(), 0);
    let mut other = Tree::new();
    let id = other.create(NodeData::Document);
    assert!(tree.node(id).is_none());
    let fragment = tree.create(NodeData::DocumentFragment);
    assert_eq!(calls(&tree, fragment, TraversalScope::IncludeNode), vec![]);
    assert_eq!(markup(&tree, fragment, TraversalScope::IncludeNode), "");
}

#[test]
fn a_change_is_seen_from_above_only() {
    let mut tree = Tree::new();
    let root = tree.create(element("div"));
    let left = tree.append_child(root, element("p")).unwrap();
    let right = tree.append_child(root, element("p")).unwrap();
    let inner = tree.append_child(left, text("l")).unwrap();
    tree.append_child(right, text("r")).unwrap();
    let before = calls(&tree, right, TraversalScope::IncludeNode);
    assert!(tree.set_text(inner, "L".to_string()));
    assert_eq!(calls(&tree, right, TraversalScope::IncludeNode), before);
    assert_eq!(markup(&tree, right, TraversalScope::IncludeNode), "<p>r</p>");
    assert_eq!(markup(&tree, left, TraversalScope::IncludeNode), "<p>L</p>");
    assert_eq!(markup(&tree, root, TraversalScope::IncludeNode), "<div><p>L</p><p>r</p></div>");
}
