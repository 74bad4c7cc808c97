use webparse::dom::format::node_format;
use webparse::dom::tree::node_tree;
use webparse::dom::{AttrMap, ElementData, Node};
use webparse::html::Parser;

fn parsed(source: &str) -> Node {
    Parser::parse(String::from(source)).unwrap()
}

fn element(node: Node) -> ElementData {
    match node {
        Node::Element(data) => data,
        other => panic!("not an element: {:?}", other),
    }
}

fn tags(found: &[ElementData]) -> Vec<String> {
    found.iter().map(|e| e.tag_name.clone()).collect()
}

/// Tag names and attributes of every element, and every text and comment,
/// in document order.
fn content(node: &Node, out: &mut Vec<String>) {
    match node {
        Node::Text(text) => out.push(format!("text:{}", text)),
        Node::Comment(text) => out.push(format!("comment:{}", text)),
        Node::Element(data) => {
            let mut attributes: Vec<String> = (0..data.attributes.len())
                .map(|i| format!("{}={}", data.attributes.key_at(i), data.attributes.value_at(i)))
                .collect();
            attributes.sort();
            out.push(format!("<{} {:?}>", data.tag_name, attributes));
            for child in &data.children {
                content(child, out);
            }
            out.push(format!("</{}>", data.tag_name));
        }
    }
}

fn content_of(node: &Node) -> Vec<String> {
    let mut out = Vec::new();
    content(node, &mut out);
    out
}

#[test]
fn format_of_a_text() {
    assert_eq!(node_format(&Node::Text(String::from("hello"))), "hello\n");
}

#[test]
fn format_of_a_comment() {
    assert_eq!(node_format(&Node::Comment(String::from("note"))), "<!--note-->\n");
}

#[test]
fn format_of_an_element_indents_by_depth() {
    let root = parsed("<a x='1' y=\"2\"><b><c/></b>text<!--n--></a>");
    assert_eq!(
        node_format(&root),
        "<a x=\"1\" y=\"2\">\n    <b>\n        <c>\n        </c>\n    </b>\n    text\n    <!--n-->\n</a>\n"
    );
}

#[test]
fn format_of_an_empty_element() {
    let data = ElementData {
        tag_name: String::from("p"),
        is_paired: true,
        attributes: AttrMap::new(),
        children: Vec::new(),
    };
    assert_eq!(node_format(&Node::Element(data)), "<p>\n</p>\n");
}

#[test]
fn tree_of_each_kind() {
    assert_eq!(node_tree(&Node::Text(String::from("hello"))), "\"hello\"\n");
    assert_eq!(node_tree(&Node::Comment(String::from("note"))), "//note\n");
}

#[test]
fn tree_of_an_element_indents_by_depth() {
    let root = parsed("<a x='1'><b><c/></b>text<!--n--></a>");
    assert_eq!(node_tree(&root), "a\n  b\n    c\n  \"text\"\n  //n\n");
}

#[test]
fn clone_copies_the_whole_tree() {
    let root = parsed("<a x='1'><b>t</b><!--c--></a>");
    let copy = root.clone();
    assert_eq!(node_format(&copy), node_format(&root));
    assert_eq!(content_of(&copy), content_of(&root));
}

#[test]
fn attr_map_insert_get_and_order() {
    let mut map = AttrMap::new();
    assert_eq!(map.len(), 0);
    assert_eq!(map.get("a"), None);
    map.insert(String::from("a"), String::from("1"));
    map.insert(String::from("b"), String::from("2"));
    map.insert(String::from("a"), String::from("3"));
    assert_eq!(map.len(), 2);
    assert_eq!(map.get("a"), Some(&String::from("3")));
    assert_eq!(map.get("b"), Some(&String::from("2")));
    assert_eq!(map.get("c"), None);
    assert_eq!(map.key_at(0), "a");
    assert_eq!(map.key_at(1), "b");
    assert_eq!(map.value_at(0), "3");
    let copy = map.clone();
    assert_eq!(copy.len(), 2);
    assert_eq!(copy.get("a"), Some(&String::from("3")));
}

#[test]
fn attr_map_tells_keys_of_equal_length_apart() {
    let mut map = AttrMap::new();
    map.insert(String::from("ab"), String::from("1"));
    map.insert(String::from("ac"), String::from("2"));
    map.insert(String::from("a"), String::from("3"));
    assert_eq!(map.len(), 3);
    assert_eq!(map.get("ab"), Some(&String::from("1")));
    assert_eq!(map.get("ac"), Some(&String::from("2")));
    assert_eq!(map.get("a"), Some(&String::from("3")));
    assert_eq!(map.get("abc"), None);
}

#[test]
fn elements_by_tag_name_in_document_order() {
    let root = element(parsed("<r><p id='1'/><d><p id='2'></p></d><p id='3'/></r>"));
    let found = root.get_elements_by_tag_name("p");
    assert_eq!(tags(&found), vec!["p", "p", "p"]);
    let ids: Vec<&String> = found.iter().map(|e| e.attributes.get("id").unwrap()).collect();
    assert_eq!(ids, vec!["1", "2", "3"]);
}

#[test]
fn elements_by_tag_name_does_not_search_inside_a_match() {
    let root = element(parsed("<r><p id='out'><p id='in'/></p></r>"));
    let found = root.get_elements_by_tag_name("p");
    assert_eq!(found.len(), 1);
    assert_eq!(found[0].attributes.get("id"), Some(&String::from("out")));
    assert_eq!(found[0].children.len(), 1);
}

#[test]
fn elements_by_tag_name_finds_the_root_itself() {
    let root = element(parsed("<p><p/></p>"));
    let found = root.get_elements_by_tag_name("p");
    assert_eq!(found.len(), 1);
    assert!(found[0].is_paired);
}

#[test]
fn elements_by_tag_name_finds_nothing() {
    let root = element(parsed("<r>p<!--p--><q/></r>"));
    assert!(root.get_elements_by_tag_name("p").is_empty());
    assert!(root.get_elements_by_tag_name("").is_empty());
}

#[test]
fn round_trip_of_elements_and_comments() {
    let sources = [
        "<a/>",
        "<a></a>",
        "<!--note-->",
        "<a x='1' y=\"two words\"><b/><!--c--><d k='v'><e/></d></a>",
        "<a/><b/>",
        "",
    ];
    for source in sources {
        let tree = parsed(source);
        let again = parsed(&node_format(&tree));
        assert_eq!(content_of(&again), content_of(&tree), "{}", source);
    }
}

#[test]
fn round_trip_adds_the_line_end_to_a_text() {
    let tree = parsed("<p>hi</p>");
    let again = parsed(&node_format(&tree));
    assert_eq!(content_of(&tree), vec!["<p []>", "text:hi", "</p>"]);
    assert_eq!(content_of(&again), vec!["<p []>", "text:hi\n", "</p>"]);
}

#[test]
fn sample_document() {
    let source = "
<html>
<head>
<title>I am the title</title>
</head>
<body>
<!--I am the comment-->
<h1 key=\"value\" key2=\"value\">I am the heading.</h1>
<p>I am the paragraph.</p>
<br/>
</body>
<script>I am the script</script>
<style>p.class {
    propery: value;
    another-property: 10px;
}

p2.class{propery: value;another-property: 10px;}
</style>
</html>";
    let root = element(parsed(source));
    assert_eq!(root.tag_name, "html");
    assert_eq!(root.children.len(), 4);
    let styles = root.get_elements_by_tag_name("style");
    assert_eq!(styles.len(), 1);
    let text = match &styles[0].children[0] {
        Node::Text(text) => text.clone(),
        other => panic!("not a text: {:?}", other),
    };
    let sheet = webparse::css::Parser::parse(text).unwrap();
    assert_eq!(sheet.rules.len(), 2);
    assert_eq!(
        node_tree(&Node::Element(root)).lines().take(4).collect::<Vec<_>>(),
        vec!["html", "  head", "    title", "      \"I am the title\""]
    );
}
