use webparse::dom::{ElementData, Node};
use webparse::html::Parser;
use webparse::parser;
use webparse::parser::ParseError;

fn at(source: &str) -> Parser {
    Parser { parser: parser::Parser::new(String::from(source)) }
}

fn element(node: Node) -> ElementData {
    match node {
        Node::Element(data) => data,
        other => panic!("not an element: {:?}", other),
    }
}

fn text_of(node: &Node) -> &str {
    match node {
        Node::Text(text) => text,
        other => panic!("not a text: {:?}", other),
    }
}

fn error_of(source: &str) -> ParseError {
    match Parser::parse(String::from(source)) {
        Err(e) => e,
        Ok(node) => panic!("parsed: {:?}", node),
    }
}

#[test]
fn parse() {
    let mut pars = Parser::parse(String::from("<tag attrib=\"value\">bla</tag>"));
    let _ = &mut pars;
}

#[test]
fn parse_gives_the_paired_element() {
    let root = element(Parser::parse(String::from("<tag attrib=\"value\">bla</tag>")).unwrap());
    assert_eq!(root.tag_name, "tag");
    assert!(root.is_paired);
    assert_eq!(root.attributes.len(), 1);
    assert_eq!(root.attributes.get("attrib"), Some(&String::from("value")));
    assert_eq!(root.children.len(), 1);
    assert_eq!(text_of(&root.children[0]), "bla");
}

#[test]
fn paired_element_attributes_regardless_of_whitespace() {
    let tight = element(Parser::parse(String::from("<a x=\"1\" y='2'></a>")).unwrap());
    let loose =
        element(Parser::parse(String::from("<a \n  x=\"1\"\n\n   y='2'  \n></a>")).unwrap());
    for root in [tight, loose] {
        assert_eq!(root.tag_name, "a");
        assert!(root.is_paired);
        assert_eq!(root.attributes.len(), 2);
        assert_eq!(root.attributes.get("x"), Some(&String::from("1")));
        assert_eq!(root.attributes.get("y"), Some(&String::from("2")));
        assert_eq!(root.attributes.get("z"), None);
        assert!(root.children.is_empty());
    }
}

#[test]
fn attributes_need_no_whitespace_between_them() {
    let root = element(Parser::parse(String::from("<a x=\"1\"y=\"2\"/>")).unwrap());
    assert_eq!(root.attributes.len(), 2);
    assert_eq!(root.attributes.get("x"), Some(&String::from("1")));
    assert_eq!(root.attributes.get("y"), Some(&String::from("2")));
}

#[test]
fn attribute_that_comes_again_keeps_its_last_value_and_first_place() {
    let root = element(Parser::parse(String::from("<a x=\"1\" y=\"2\" x=\"3\"/>")).unwrap());
    assert_eq!(root.attributes.len(), 2);
    assert_eq!(root.attributes.get("x"), Some(&String::from("3")));
    assert_eq!(root.attributes.key_at(0), "x");
    assert_eq!(root.attributes.value_at(0), "3");
    assert_eq!(root.attributes.key_at(1), "y");
    assert_eq!(root.attributes.value_at(1), "2");
}

#[test]
fn attribute_value_keeps_the_other_quote_and_whitespace() {
    let root = element(Parser::parse(String::from("<a x='say \"hi\" ' y=\"it's\"/>")).unwrap());
    assert_eq!(root.attributes.get("x"), Some(&String::from("say \"hi\" ")));
    assert_eq!(root.attributes.get("y"), Some(&String::from("it's")));
}

#[test]
fn attribute_value_may_be_empty() {
    let root = element(Parser::parse(String::from("<a x=\"\"/>")).unwrap());
    assert_eq!(root.attributes.get("x"), Some(&String::new()));
}

#[test]
fn self_closing_element_is_unpaired_and_childless() {
    let root = element(Parser::parse(String::from("<br/>")).unwrap());
    assert_eq!(root.tag_name, "br");
    assert!(!root.is_paired);
    assert!(root.children.is_empty());
    assert_eq!(root.attributes.len(), 0);
}

#[test]
fn self_closing_element_with_attributes() {
    let root = element(Parser::parse(String::from("<img src=\"a.png\" />")).unwrap());
    assert_eq!(root.tag_name, "img");
    assert!(!root.is_paired);
    assert!(root.children.is_empty());
    assert_eq!(root.attributes.get("src"), Some(&String::from("a.png")));
}

#[test]
fn comment_extraction() {
    match Parser::parse(String::from("<!--hi-->")).unwrap() {
        Node::Comment(text) => assert_eq!(text, "hi"),
        other => panic!("not a comment: {:?}", other),
    }
}

#[test]
fn empty_comment() {
    match Parser::parse(String::from("<!---->")).unwrap() {
        Node::Comment(text) => assert_eq!(text, ""),
        other => panic!("not a comment: {:?}", other),
    }
}

#[test]
fn comment_with_a_hyphen_inside_fails() {
    assert_eq!(error_of("<!--a-b-->"), ParseError::UnexpectedToken);
    assert_eq!(error_of("<!--a->"), ParseError::UnexpectedToken);
}

#[test]
fn comment_that_does_not_end_fails() {
    assert_eq!(error_of("<!--abc"), ParseError::EndOfInput);
    assert_eq!(error_of("<!--abc--"), ParseError::EndOfInput);
}

#[test]
fn tag_mismatch() {
    assert_eq!(error_of("<a></b>"), ParseError::TagMismatch);
    assert_eq!(error_of("<a>text</ab>"), ParseError::TagMismatch);
    assert_eq!(error_of("<ab></a>"), ParseError::TagMismatch);
    assert_eq!(error_of("<a><b></a></b>"), ParseError::TagMismatch);
}

#[test]
fn tag_name_is_lower_case_letters_and_digits() {
    let root = element(Parser::parse(String::from("<h1></h1>")).unwrap());
    assert_eq!(root.tag_name, "h1");
    // An upper-case letter ends the name, and cannot start an attribute.
    assert_eq!(error_of("<Div></Div>"), ParseError::UnexpectedToken);
}

#[test]
fn element_without_a_name() {
    let root = element(Parser::parse(String::from("<></>")).unwrap());
    assert_eq!(root.tag_name, "");
    assert!(root.is_paired);
}

#[test]
fn unclosed_element_is_end_of_input() {
    assert_eq!(error_of("<a>"), ParseError::EndOfInput);
    assert_eq!(error_of("<a>text"), ParseError::EndOfInput);
    assert_eq!(error_of("<a"), ParseError::EndOfInput);
    assert_eq!(error_of("<"), ParseError::EndOfInput);
    assert_eq!(error_of("<a></a"), ParseError::EndOfInput);
    assert_eq!(error_of("<a/"), ParseError::EndOfInput);
    assert_eq!(error_of("<a x"), ParseError::EndOfInput);
    assert_eq!(error_of("<a x="), ParseError::EndOfInput);
    assert_eq!(error_of("<a x=\"1"), ParseError::EndOfInput);
}

#[test]
fn unexpected_tokens() {
    assert_eq!(error_of("<a x>"), ParseError::UnexpectedToken);
    assert_eq!(error_of("<a x=1>"), ParseError::UnexpectedToken);
    assert_eq!(error_of("<a/x"), ParseError::UnexpectedToken);
    assert_eq!(error_of("<a></a x>"), ParseError::UnexpectedToken);
    assert_eq!(error_of("<a\t></a>"), ParseError::UnexpectedToken);
}

#[test]
fn nested_elements_and_text() {
    let root = element(
        Parser::parse(String::from("<ul>\n  <li>one</li>\n  <li>two <b>bold</b></li>\n</ul>"))
            .unwrap(),
    );
    assert_eq!(root.tag_name, "ul");
    assert_eq!(root.children.len(), 2);
    let first = match &root.children[0] {
        Node::Element(data) => data,
        other => panic!("not an element: {:?}", other),
    };
    assert_eq!(first.tag_name, "li");
    assert_eq!(first.children.len(), 1);
    assert_eq!(text_of(&first.children[0]), "one");
    let second = match &root.children[1] {
        Node::Element(data) => data,
        other => panic!("not an element: {:?}", other),
    };
    assert_eq!(second.children.len(), 2);
    assert_eq!(text_of(&second.children[0]), "two ");
    match &second.children[1] {
        Node::Element(bold) => {
            assert_eq!(bold.tag_name, "b");
            assert_eq!(text_of(&bold.children[0]), "bold");
        }
        other => panic!("not an element: {:?}", other),
    }
}

#[test]
fn text_keeps_inner_and_trailing_whitespace() {
    let root = element(Parser::parse(String::from("<p>  a  b \n</p>")).unwrap());
    assert_eq!(root.children.len(), 1);
    assert_eq!(text_of(&root.children[0]), "a  b \n");
}

#[test]
fn sole_text_is_returned_itself() {
    match Parser::parse(String::from("  just text")).unwrap() {
        Node::Text(text) => assert_eq!(text, "just text"),
        other => panic!("not a text: {:?}", other),
    }
}

#[test]
fn several_top_nodes_get_a_wrapper_without_a_name() {
    let root = element(Parser::parse(String::from("<a></a>text<!--c--><b/>")).unwrap());
    assert_eq!(root.tag_name, "");
    assert!(root.is_paired);
    assert_eq!(root.attributes.len(), 0);
    assert_eq!(root.children.len(), 4);
    assert!(matches!(&root.children[0], Node::Element(e) if e.tag_name == "a" && e.is_paired));
    assert_eq!(text_of(&root.children[1]), "text");
    assert!(matches!(&root.children[2], Node::Comment(c) if c == "c"));
    assert!(matches!(&root.children[3], Node::Element(e) if e.tag_name == "b" && !e.is_paired));
}

#[test]
fn empty_text_gets_an_empty_wrapper() {
    for source in ["", "  \n "] {
        let root = element(Parser::parse(String::from(source)).unwrap());
        assert_eq!(root.tag_name, "");
        assert!(root.is_paired);
        assert!(root.children.is_empty());
    }
}

#[test]
fn top_level_stops_at_a_closing_tag() {
    match Parser::parse(String::from("a</b>")).unwrap() {
        Node::Text(text) => assert_eq!(text, "a"),
        other => panic!("not a text: {:?}", other),
    }
}

#[test]
fn parse_tag_name_reads_the_run() {
    let mut pars = at("div1 x");
    assert_eq!(pars.parse_tag_name(), "div1");
    assert_eq!(pars.parser.pos, 4);
    assert_eq!(pars.parse_tag_name(), "");
    assert_eq!(pars.parser.pos, 4);
}

#[test]
fn parse_text_at_a_tag_is_empty() {
    let mut pars = at("<a>");
    match pars.parse_text() {
        Node::Text(text) => assert_eq!(text, ""),
        other => panic!("not a text: {:?}", other),
    }
    assert_eq!(pars.parser.pos, 0);
}

#[test]
fn parse_text_runs_to_the_next_tag_or_the_end() {
    let mut pars = at("a > b<c");
    assert_eq!(text_of(&pars.parse_text()), "a > b");
    assert_eq!(pars.parser.pos, 5);
    let mut last = at("to the end");
    assert_eq!(text_of(&last.parse_text()), "to the end");
    assert!(last.parser.eof());
}

#[test]
fn parse_comment_starts_behind_the_bracket() {
    let mut pars = at("!--note-->rest");
    match pars.parse_comment().unwrap() {
        Node::Comment(text) => assert_eq!(text, "note"),
        other => panic!("not a comment: {:?}", other),
    }
    assert_eq!(pars.parser.pos, 10);
    let mut bad = at("!-x");
    assert_eq!(bad.parse_comment().unwrap_err(), ParseError::UnexpectedToken);
    let mut short = at("!-");
    assert_eq!(short.parse_comment().unwrap_err(), ParseError::EndOfInput);
}

#[test]
fn parse_element_needs_a_bracket() {
    let mut pars = at("a>");
    assert_eq!(pars.parse_element().unwrap_err(), ParseError::UnexpectedToken);
    let mut none = at("");
    assert_eq!(none.parse_element().unwrap_err(), ParseError::EndOfInput);
}

#[test]
fn parse_element_leaves_what_follows() {
    let mut pars = at("<a><b/></a><c/>");
    let first = element(pars.parse_element().unwrap());
    assert_eq!(first.tag_name, "a");
    assert_eq!(first.children.len(), 1);
    assert_eq!(pars.parser.pos, 11);
    let second = element(pars.parse_element().unwrap());
    assert_eq!(second.tag_name, "c");
    assert!(pars.parser.eof());
}

#[test]
fn parse_node_dispatches_on_the_bracket() {
    let mut pars = at("x<y/>");
    assert_eq!(text_of(&pars.parse_node().unwrap()), "x");
    assert!(matches!(pars.parse_node().unwrap(), Node::Element(e) if e.tag_name == "y"));
    assert_eq!(pars.parse_node().unwrap_err(), ParseError::EndOfInput);
}

#[test]
fn wide_characters_in_text_and_attributes() {
    let root = element(Parser::parse(String::from("<p t='żółć'>日本語 – ok</p>")).unwrap());
    assert_eq!(root.attributes.get("t"), Some(&String::from("żółć")));
    assert_eq!(text_of(&root.children[0]), "日本語 – ok");
}

#[test]
fn deep_nesting() {
    let mut source = String::new();
    for _ in 0..200 {
        source.push_str("<d>");
    }
    source.push_str("x");
    for _ in 0..200 {
        source.push_str("</d>");
    }
    let mut node = Parser::parse(source).unwrap();
    let mut depth = 0;
    loop {
        match node {
            Node::Element(mut data) => {
                assert_eq!(data.tag_name, "d");
                assert_eq!(data.children.len(), 1);
                depth += 1;
                node = data.children.remove(0);
            }
            Node::Text(text) => {
                assert_eq!(text, "x");
                break;
            }
            other => panic!("unexpected: {:?}", other),
        }
    }
    assert_eq!(depth, 200);
}
