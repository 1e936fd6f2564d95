use dom_serialize::attributes::Attributes;
use dom_serialize::name::QualName;
use dom_serialize::serializer::TraversalScope;
use dom_serialize::sink::{BoundedLog, CallLog, SinkCall};
use dom_serialize::tree::{ElementData, NodeData, NodeId, Tree};
use std::io::ErrorKind;

const HTML: &str = "http://www.w3.org/1999/xhtml";

fn html(local: &str) -> QualName {
    QualName::new(None, HTML, local)
}

fn element(local: &str) -> NodeData {
    NodeData::Element(ElementData { name: html(local), attributes: Attributes::new() })
}

fn text(s: &str) -> SinkCall {
    SinkCall::Text { text: s.to_string() }
}

/// `<div>a<p>b</p>c</div>`, which gives seven calls.
fn sample() -> (Tree, NodeId) {
    let mut tree = Tree::new();
    let div = tree.create(element("div"));
    tree.append_child(div, NodeData::Text("a".to_string())).unwrap();
    let p = tree.append_child(div, element("p")).unwrap();
    tree.append_child(p, NodeData::Text("b".to_string())).unwrap();
    tree.append_child(div, NodeData::Text("c".to_string())).unwrap();
    (tree, div)
}

fn all_calls() -> Vec<SinkCall> {
    vec![
        SinkCall::StartElem { name: html("div"), attrs: vec![] },
        text("a"),
        SinkCall::StartElem { name: html("p"), attrs: vec![] },
        text("b"),
        SinkCall::EndElem { name: html("p") },
        text("c"),
        SinkCall::EndElem { name: html("div") },
    ]
}

#[test]
fn walk_with_room_for_all_calls_succeeds() {
    let (tree, div) = sample();
    let mut sink = BoundedLog::new(7);
    let r = tree.node(div).unwrap().serialize_into(&mut sink, &TraversalScope::IncludeNode);
    assert!(r.is_ok());
    assert_eq!(sink.into_calls(), all_calls());
}

#[test]
fn first_failure_ends_the_walk() {
    for room in 0..7 {
        let (tree, div) = sample();
        let mut sink = BoundedLog::new(room);
        let r = tree.node(div).unwrap().serialize_into(&mut sink, &TraversalScope::IncludeNode);
        let e = r.unwrap_err();
        assert_eq!(e.kind(), ErrorKind::StorageFull);
        assert_eq!(sink.into_calls(), all_calls()[..room].to_vec());
    }
}

#[test]
fn children_only_fails_without_calls_for_the_node() {
    let (tree, div) = sample();
    let mut sink = BoundedLog::new(2);
    let r = tree.node(div).unwrap().serialize_into(&mut sink, &TraversalScope::ChildrenOnly(None));
    assert_eq!(r.unwrap_err().kind(), ErrorKind::StorageFull);
    assert_eq!(
        sink.into_calls(),
        vec![text("a"), SinkCall::StartElem { name: html("p"), attrs: vec![] }]
    );
}

#[test]
fn nothing_to_emit_never_fails() {
    let mut tree = Tree::new();
    let leaf = tree.create(NodeData::Text("a".to_string()));
    let mut sink = BoundedLog::new(0);
    let r = tree.node(leaf).unwrap().serialize_into(&mut sink, &TraversalScope::ChildrenOnly(None));
    assert!(r.is_ok());
    assert_eq!(sink.into_calls(), vec![]);
}

#[test]
fn walk_adds_to_the_calls_already_accepted() {
    let (tree, div) = sample();
    let mut log = CallLog::new();
    let node = tree.node(div).unwrap();
    node.serialize_into(&mut log, &TraversalScope::ChildrenOnly(None)).unwrap();
    node.serialize_into(&mut log, &TraversalScope::IncludeNode).unwrap();
    assert_eq!(log.len(), 12);
    let calls = log.into_calls();
    assert_eq!(calls[..5], all_calls()[1..6]);
    assert_eq!(calls[5..], all_calls()[..]);
}
