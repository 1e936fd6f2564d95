use dom_serialize::attributes::{Attribute, Attributes};
use dom_serialize::html::{HtmlSink, SerializeOpts};
use dom_serialize::name::{ExpandedName, QualName};
use dom_serialize::serializer::TraversalScope;
use dom_serialize::sink::Sink;
use dom_serialize::tree::{ElementData, NodeData, NodeId, Tree};

const HTML: &str = "http://www.w3.org/1999/xhtml";

fn html(local: &str) -> QualName {
    QualName::new(None, HTML, local)
}

fn element(local: &str) -> NodeData {
    NodeData::Element(ElementData { name: html(local), attributes: Attributes::new() })
}

fn with_text(local: &str, content: &str) -> (Tree, NodeId) {
    let mut tree = Tree::new();
    let e = tree.create(element(local));
    tree.append_child(e, NodeData::Text(content.to_string())).unwrap();
    (tree, e)
}

fn write(tree: &Tree, id: NodeId, scope: TraversalScope, scripting_enabled: bool) -> String {
    let mut out = Vec::new();
    let opts = SerializeOpts { scripting_enabled, traversal_scope: scope, create_missing_parent: false };
    tree.node(id).unwrap().serialize_with_options(&mut out, opts).unwrap();
    String::from_utf8(out).unwrap()
}

#[test]
fn text_is_escaped() {
    let (tree, p) = with_text("p", "a<b & \"c\" > d\u{a0}e");
    assert_eq!(
        tree.node(p).unwrap().to_string(),
        "<p>a&lt;b &amp; \"c\" &gt; d&nbsp;e</p>"
    );
}

#[test]
fn text_in_script_is_written_as_it_is() {
    let (tree, script) = with_text("script", "if (a < b && c) {}");
    assert_eq!(
        tree.node(script).unwrap().to_string(),
        "<script>if (a < b && c) {}</script>"
    );
}

#[test]
fn the_context_decides_how_the_first_text_is_written() {
    let (tree, script) = with_text("script", "a<b");
    assert_eq!(write(&tree, script, TraversalScope::ChildrenOnly(Some(html("script"))), true), "a<b");
    assert_eq!(write(&tree, script, TraversalScope::ChildrenOnly(None), true), "a&lt;b");
    assert_eq!(write(&tree, script, TraversalScope::ChildrenOnly(Some(html("p"))), true), "a&lt;b");
}

#[test]
fn scripting_decides_how_text_in_noscript_is_written() {
    let (tree, noscript) = with_text("noscript", "a<b");
    assert_eq!(write(&tree, noscript, TraversalScope::IncludeNode, true), "<noscript>a<b</noscript>");
    assert_eq!(
        write(&tree, noscript, TraversalScope::IncludeNode, false),
        "<noscript>a&lt;b</noscript>"
    );
}

#[test]
fn attribute_values_are_escaped() {
    let mut attributes = Attributes::new();
    attributes.insert(
        ExpandedName::new("", "title"),
        Attribute { prefix: None, value: "a \"b\" & <c>".to_string() },
    );
    let mut tree = Tree::new();
    let p = tree.create(NodeData::Element(ElementData { name: html("p"), attributes }));
    assert_eq!(
        tree.node(p).unwrap().to_string(),
        "<p title=\"a &quot;b&quot; &amp; &lt;c&gt;\"></p>"
    );
}

#[test]
fn a_void_element_has_no_end_tag_and_no_content() {
    let mut tree = Tree::new();
    let div = tree.create(element("div"));
    let br = tree.append_child(div, element("br")).unwrap();
    let b = tree.append_child(br, element("b")).unwrap();
    tree.append_child(b, NodeData::Comment("in".to_string())).unwrap();
    tree.append_child(div, element("i")).unwrap();
    assert_eq!(tree.node(div).unwrap().to_string(), "<div><br><!--in--><i></i></div>");
    assert_eq!(tree.node(br).unwrap().to_string(), "<br><!--in-->");
}

#[test]
fn non_ascii_text_is_kept() {
    let (tree, p) = with_text("p", "gr\u{fc}\u{df}e \u{4e16}\u{754c} \u{1f600}");
    assert_eq!(
        tree.node(p).unwrap().to_string(),
        "<p>gr\u{fc}\u{df}e \u{4e16}\u{754c} \u{1f600}</p>"
    );
}

#[test]
fn comment_doctype_and_instruction_are_spelled_out() {
    let mut sink = HtmlSink::new(&SerializeOpts::default());
    sink.write_doctype("html").unwrap();
    sink.write_comment(" note ").unwrap();
    sink.write_processing_instruction("xml-stylesheet", "href=\"a.css\"").unwrap();
    assert_eq!(
        String::from_utf8(sink.into_bytes()).unwrap(),
        "<!DOCTYPE html><!-- note --><?xml-stylesheet href=\"a.css\">"
    );
}

#[test]
fn start_and_end_are_spelled_out() {
    let mut sink = HtmlSink::new(&SerializeOpts::default());
    let attrs = vec![(QualName::new(None, "", "lang"), "en")];
    sink.start_elem(&html("span"), &attrs).unwrap();
    sink.write_text("x").unwrap();
    sink.end_elem(&html("span")).unwrap();
    assert_eq!(String::from_utf8(sink.into_bytes()).unwrap(), "<span lang=\"en\">x</span>");
}

#[test]
fn a_new_sink_holds_nothing() {
    let sink = HtmlSink::new(&SerializeOpts::default());
    assert_eq!(sink.into_bytes(), Vec::<u8>::new());
}

#[test]
fn made_up_parent_changes_nothing_for_a_walk() {
    let (tree, p) = with_text("p", "a");
    let mut out = Vec::new();
    let opts = SerializeOpts {
        scripting_enabled: true,
        traversal_scope: TraversalScope::IncludeNode,
        create_missing_parent: true,
    };
    tree.node(p).unwrap().serialize_with_options(&mut out, opts).unwrap();
    assert_eq!(out, b"<p>a</p>".to_vec());
}

#[test]
fn what_stands_in_a_void_element_has_no_tags() {
    let mut sink = HtmlSink::new(&SerializeOpts::default());
    sink.start_elem(&html("img"), &vec![]).unwrap();
    sink.start_elem(&html("b"), &vec![]).unwrap();
    sink.write_text("t").unwrap();
    sink.end_elem(&html("b")).unwrap();
    sink.end_elem(&html("img")).unwrap();
    sink.start_elem(&QualName::new(None, "http://www.w3.org/2000/svg", "br"), &vec![]).unwrap();
    sink.end_elem(&QualName::new(None, "http://www.w3.org/2000/svg", "br")).unwrap();
    assert_eq!(String::from_utf8(sink.into_bytes()).unwrap(), "<img>t<br></br>");
}

#[test]
fn every_void_element_is_left_open() {
    let void = [
        "area", "base", "basefont", "bgsound", "br", "col", "embed", "frame", "hr", "img", "input",
        "keygen", "link", "meta", "param", "source", "track", "wbr",
    ];
    for local in void {
        let mut tree = Tree::new();
        let e = tree.create(element(local));
        assert_eq!(tree.node(e).unwrap().to_string(), format!("<{}>", local));
    }
    for local in ["div", "p", "span", "script", "image"] {
        let mut tree = Tree::new();
        let e = tree.create(element(local));
        assert_eq!(tree.node(e).unwrap().to_string(), format!("<{0}></{0}>", local));
    }
}

#[test]
fn only_html_elements_give_their_name_to_text() {
    let mut tree = Tree::new();
    let foreign = tree.create(NodeData::Element(ElementData {
        name: QualName::new(None, "http://www.w3.org/2000/svg", "script"),
        attributes: Attributes::new(),
    }));
    tree.append_child(foreign, NodeData::Text("a<b".to_string())).unwrap();
    assert_eq!(tree.node(foreign).unwrap().to_string(), "<script>a&lt;b</script>");
}

#[test]
fn the_string_holds_the_bytes_of_serialize() {
    let (tree, p) = with_text("p", "a<b \u{e9}\u{a0}\u{4e16}");
    let node = tree.node(p).unwrap();
    let mut bytes = Vec::new();
    assert!(node.serialize(&mut bytes).is_ok());
    assert_eq!(node.to_string().into_bytes(), bytes);
    assert_eq!(node.to_string(), node.to_string());
}
