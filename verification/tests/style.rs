use webparse::css::Parser;
use webparse::parser;
use webparse::parser::ParseError;
use webparse::stylesheet::{Color, Rule, Selector, Stylesheet, Unit, Value};

fn at(source: &str) -> Parser {
    Parser { parser: parser::Parser::new(String::from(source)) }
}

fn sheet(source: &str) -> Stylesheet {
    Parser::parse(String::from(source)).unwrap()
}

fn error_of(source: &str) -> ParseError {
    match Parser::parse(String::from(source)) {
        Err(e) => e,
        Ok(sheet) => panic!("parsed: {:?}", sheet),
    }
}

fn only_rule(source: &str) -> Rule {
    let mut sheet = sheet(source);
    assert_eq!(sheet.rules.len(), 1);
    sheet.rules.remove(0)
}

fn selector(tag: Option<&str>, id: Option<&str>, class: &[&str]) -> Selector {
    Selector {
        tag_name: tag.map(String::from),
        id: id.map(String::from),
        class: class.iter().map(|c| String::from(*c)).collect(),
    }
}

fn length(magnitude: &str, unit: Unit) -> Value {
    Value::Length(String::from(magnitude), unit)
}

fn magnitude(value: &Value) -> f32 {
    match value {
        Value::Length(numeral, _) => numeral.parse::<f32>().unwrap(),
        other => panic!("not a length: {:?}", other),
    }
}

#[test]
fn parse_selector() {
    let mut pars = Parser {
        parser: parser::Parser { input: String::from("p.class"), pos: 0 },
    };

    pars.parse_selector();
}

#[test]
fn parse_selectors() {
    let mut pars = Parser {
        parser: parser::Parser { input: String::from("p.class p.another-class {"), pos: 0 },
    };

    pars.parse_selector();
}

#[test]
fn parse_selector_reads_tag_and_class() {
    let mut pars = at("p.class");
    assert_eq!(pars.parse_selector(), selector(Some("p"), None, &["class"]));
    assert!(pars.parser.eof());
}

#[test]
fn parse_selector_stops_at_whitespace() {
    let mut pars = at("p.class p.another-class {");
    assert_eq!(pars.parse_selector(), selector(Some("p"), None, &["class"]));
    assert_eq!(pars.parser.pos, 7);
    pars.parser.consume_whitespace();
    assert_eq!(pars.parse_selector(), selector(Some("p"), None, &["another-class"]));
    assert_eq!(pars.parser.pos, 23);
}

#[test]
fn parse_selector_parts_in_any_order() {
    let mut pars = at(".a#main*div.b.a{");
    assert_eq!(pars.parse_selector(), selector(Some("div"), Some("main"), &["a", "b", "a"]));
    assert_eq!(pars.parser.next_char(), Ok('{'));
}

#[test]
fn parse_selector_last_id_and_tag_win() {
    let mut pars = at("#one#two");
    assert_eq!(pars.parse_selector(), selector(None, Some("two"), &[]));
    let mut tags = at("a*b");
    assert_eq!(tags.parse_selector(), selector(Some("b"), None, &[]));
}

#[test]
fn parse_selector_universal_adds_nothing() {
    let mut pars = at("*");
    assert_eq!(pars.parse_selector(), selector(None, None, &[]));
    assert!(pars.parser.eof());
}

#[test]
fn parse_selector_may_be_empty() {
    let mut pars = at("{x}");
    assert_eq!(pars.parse_selector(), selector(None, None, &[]));
    assert_eq!(pars.parser.pos, 0);
    let mut digit = at("1a");
    assert_eq!(digit.parse_selector(), selector(None, None, &[]));
    assert_eq!(digit.parser.pos, 0);
}

#[test]
fn parse_selector_empty_names() {
    let mut pars = at("#.{");
    assert_eq!(pars.parse_selector(), selector(None, Some(""), &[""]));
}

#[test]
fn parse_identifier_reads_letters_digits_hyphen_underscore() {
    let mut pars = at("My-id_9.x");
    assert_eq!(pars.parse_identifier(), "My-id_9");
    assert_eq!(pars.parser.next_char(), Ok('.'));
    assert_eq!(pars.parse_identifier(), "");
}

#[test]
fn is_valid_identifier_char_excludes_digits() {
    let pars = at("");
    for c in ['a', 'z', 'A', 'Z', '-', '_', 'm'] {
        assert!(pars.is_valid_identifier_char(c));
    }
    for c in ['0', '9', '.', '#', '*', ' ', '{', 'é'] {
        assert!(!pars.is_valid_identifier_char(c));
    }
}

#[test]
fn specificity_counts_id_classes_tag() {
    assert_eq!(selector(None, None, &[]).specificity(), (0, 0, 0));
    assert_eq!(selector(Some("p"), None, &[]).specificity(), (0, 0, 1));
    assert_eq!(selector(None, Some("x"), &[]).specificity(), (1, 0, 0));
    assert_eq!(selector(None, None, &["a", "b", "a"]).specificity(), (0, 3, 0));
    assert_eq!(selector(Some("p"), Some("x"), &["a"]).specificity(), (1, 1, 1));
}

#[test]
fn selector_specificity_ordering() {
    let rule = only_rule("tag, .class, #id, .a.b {x: 1px;}");
    assert_eq!(
        rule.selectors,
        vec![
            selector(None, Some("id"), &[]),
            selector(None, None, &["a", "b"]),
            selector(None, None, &["class"]),
            selector(Some("tag"), None, &[]),
        ]
    );
}

#[test]
fn selectors_of_equal_specificity_keep_their_order() {
    let mut pars = at("b, .x, a, .y, c, #i, .z {");
    let selectors = pars.parse_selectors().unwrap();
    assert_eq!(
        selectors,
        vec![
            selector(None, Some("i"), &[]),
            selector(None, None, &["x"]),
            selector(None, None, &["y"]),
            selector(None, None, &["z"]),
            selector(Some("b"), None, &[]),
            selector(Some("a"), None, &[]),
            selector(Some("c"), None, &[]),
        ]
    );
    assert_eq!(pars.parser.next_char(), Ok('{'));
}

#[test]
fn selectors_are_sorted_by_falling_specificity() {
    let mut pars = at("a, a.b, #i.c.d, .e.f.g, #j, p#k, * {");
    let selectors = pars.parse_selectors().unwrap();
    let keys: Vec<(usize, usize, usize)> = selectors.iter().map(|s| s.specificity()).collect();
    assert_eq!(
        keys,
        vec![(1, 2, 0), (1, 0, 1), (1, 0, 0), (0, 3, 0), (0, 1, 1), (0, 0, 1), (0, 0, 0)]
    );
}

#[test]
fn parse_selectors_failures() {
    assert_eq!(at("a, b").parse_selectors().unwrap_err(), ParseError::EndOfInput);
    assert_eq!(at("").parse_selectors().unwrap_err(), ParseError::EndOfInput);
    assert_eq!(at("a b {").parse_selectors().unwrap_err(), ParseError::UnexpectedToken);
    assert_eq!(at("a > b {").parse_selectors().unwrap_err(), ParseError::UnexpectedToken);
}

#[test]
fn parse_selectors_with_empty_selectors() {
    let mut pars = at(" , {");
    let selectors = pars.parse_selectors().unwrap();
    assert_eq!(selectors, vec![selector(None, None, &[]), selector(None, None, &[])]);
}

#[test]
fn declaration_overwrite() {
    let rule = only_rule("a{x:1px;x:2px;}");
    assert_eq!(rule.declarations.len(), 1);
    assert_eq!(rule.declarations.get("x"), Some(&length("2", Unit::Px)));
    assert_eq!(magnitude(rule.declarations.get("x").unwrap()), 2.0);
}

#[test]
fn declarations_keep_the_order_of_first_writing() {
    let rule = only_rule("a{x:1px;y:red;x:2em;z:#000000;}");
    assert_eq!(rule.declarations.len(), 3);
    assert_eq!(rule.declarations.key_at(0), "x");
    assert_eq!(rule.declarations.value_at(0), &length("2", Unit::Em));
    assert_eq!(rule.declarations.key_at(1), "y");
    assert_eq!(rule.declarations.value_at(1), &Value::Keyword(String::from("red")));
    assert_eq!(rule.declarations.key_at(2), "z");
    assert_eq!(rule.declarations.get("w"), None);
}

#[test]
fn value_dispatch() {
    let ten = at("10px").parse_value().unwrap();
    assert_eq!(ten, length("10", Unit::Px));
    assert_eq!(magnitude(&ten), 10.0);
    assert_eq!(
        at("#00bfff").parse_value().unwrap(),
        Value::Color(Color { r: 0, g: 191, b: 255, a: 255 })
    );
    assert_eq!(at("bold").parse_value().unwrap(), Value::Keyword(String::from("bold")));
}

#[test]
fn parse_value_failures() {
    assert_eq!(at("").parse_value().unwrap_err(), ParseError::EndOfInput);
    assert_eq!(at("Bold").parse_value().unwrap_err(), ParseError::UnexpectedToken);
    assert_eq!(at("-1px").parse_value().unwrap_err(), ParseError::UnexpectedToken);
    assert_eq!(at(".5px").parse_value().unwrap_err(), ParseError::UnexpectedToken);
    assert_eq!(at(" 1px").parse_value().unwrap_err(), ParseError::UnexpectedToken);
}

#[test]
fn parse_keyword_reads_lower_case_letters() {
    let mut pars = at("sans-serif");
    assert_eq!(pars.parse_keyword(), Value::Keyword(String::from("sans")));
    assert_eq!(pars.parser.next_char(), Ok('-'));
    let mut none = at("X");
    assert_eq!(none.parse_keyword(), Value::Keyword(String::new()));
}

#[test]
fn every_unit() {
    let cases = [
        ("1px", Unit::Px),
        ("1pt", Unit::Pt),
        ("1%", Unit::Percent),
        ("1wh", Unit::Wh),
        ("1vh", Unit::Vh),
        ("1em", Unit::Em),
        ("1rem", Unit::Rem),
    ];
    for (source, unit) in cases {
        let mut pars = at(source);
        assert_eq!(pars.parse_length().unwrap(), length("1", unit));
        assert!(pars.parser.eof());
    }
}

#[test]
fn length_magnitudes() {
    let cases = [
        ("0px", 0.0f32),
        ("12.5em", 12.5),
        ("100%", 100.0),
        ("3.pt", 3.0),
        ("0.25rem", 0.25),
        ("007px", 7.0),
        ("16777216px", 16777216.0),
    ];
    for (source, expected) in cases {
        let value = at(source).parse_length().unwrap();
        assert_eq!(magnitude(&value), expected);
    }
    assert_eq!(at("12.5em;").parse_length().unwrap(), length("12.5", Unit::Em));
}

#[test]
fn length_stops_behind_the_unit() {
    let mut pars = at("10px;");
    assert_eq!(pars.parse_length().unwrap(), length("10", Unit::Px));
    assert_eq!(pars.parser.pos, 4);
}

#[test]
fn malformed_lengths() {
    for source in ["1.2.3px", "1..px", "1", "1;", "1p", "1pxx", "1PX", "1x%", "1%%", "1 px"] {
        assert_eq!(at(source).parse_value().unwrap_err(), ParseError::MalformedValue, "{}", source);
    }
    for source in ["px", ".px", "..", ""] {
        assert_eq!(at(source).parse_length().unwrap_err(), ParseError::MalformedValue, "{}", source);
    }
}

#[test]
fn length_with_a_leading_point() {
    assert_eq!(at(".5px").parse_length().unwrap(), length(".5", Unit::Px));
    assert_eq!(magnitude(&at(".5px").parse_length().unwrap()), 0.5);
}

#[test]
fn colors() {
    let cases = [
        ("#000000", (0, 0, 0)),
        ("#ffffff", (255, 255, 255)),
        ("#FFFFFF", (255, 255, 255)),
        ("#0a0B0c", (10, 11, 12)),
        ("#123456", (0x12, 0x34, 0x56)),
        ("#fedcba", (0xfe, 0xdc, 0xba)),
        ("#9AbCdE", (0x9a, 0xbc, 0xde)),
    ];
    for (source, (r, g, b)) in cases {
        let mut pars = at(source);
        assert_eq!(pars.parse_color().unwrap(), Value::Color(Color { r, g, b, a: 255 }));
        assert!(pars.parser.eof());
    }
}

#[test]
fn color_consumes_exactly_six_digits() {
    let mut pars = at("#00bfff00;");
    assert_eq!(
        pars.parse_color().unwrap(),
        Value::Color(Color { r: 0, g: 191, b: 255, a: 255 })
    );
    assert_eq!(pars.parser.pos, 7);
    assert_eq!(error_of("a{c:#00bfff00;}"), ParseError::UnexpectedToken);
}

#[test]
fn short_hex_color_is_malformed() {
    for source in ["#", "#0", "#00b", "#00bf", "#00bff", "#00bff;", "#00bffg", "#12 456", "#g00000"] {
        assert_eq!(at(source).parse_value().unwrap_err(), ParseError::MalformedValue, "{}", source);
    }
    assert_eq!(error_of("a{c:#fff;}"), ParseError::MalformedValue);
}

#[test]
fn parse_color_at_the_end_is_end_of_input() {
    assert_eq!(at("").parse_color().unwrap_err(), ParseError::EndOfInput);
}

#[test]
fn parse_declaration_reads_one() {
    let mut pars = at("margin-top:   10px;next");
    let (property, value) = pars.parse_declaration().unwrap();
    assert_eq!(property, "margin-top");
    assert_eq!(value, length("10", Unit::Px));
    assert_eq!(pars.parser.pos, 19);
}

#[test]
fn parse_declaration_failures() {
    assert_eq!(at("x").parse_declaration().unwrap_err(), ParseError::EndOfInput);
    assert_eq!(at("x 1px;").parse_declaration().unwrap_err(), ParseError::UnexpectedToken);
    assert_eq!(at("X:1px;").parse_declaration().unwrap_err(), ParseError::UnexpectedToken);
    assert_eq!(at("x:").parse_declaration().unwrap_err(), ParseError::EndOfInput);
    assert_eq!(at("x:1px").parse_declaration().unwrap_err(), ParseError::EndOfInput);
    assert_eq!(at("x:1px }").parse_declaration().unwrap_err(), ParseError::UnexpectedToken);
    assert_eq!(at("x:\t1px;").parse_declaration().unwrap_err(), ParseError::UnexpectedToken);
    assert_eq!(at("x:1qx;").parse_declaration().unwrap_err(), ParseError::MalformedValue);
}

#[test]
fn parse_declaration_with_an_empty_property() {
    let (property, value) = at(":red;").parse_declaration().unwrap();
    assert_eq!(property, "");
    assert_eq!(value, Value::Keyword(String::from("red")));
}

#[test]
fn parse_declarations_ends_at_brace_or_semicolon() {
    let mut pars = at("{a:b;}x");
    let block = pars.parse_declarations().unwrap();
    assert_eq!(block.len(), 1);
    assert_eq!(pars.parser.pos, 6);
    let mut stray = at("{a:b;;c:d;}");
    let cut = stray.parse_declarations().unwrap();
    assert_eq!(cut.len(), 1);
    assert_eq!(stray.parser.pos, 6);
    let mut empty = at("{ \n }");
    assert_eq!(empty.parse_declarations().unwrap().len(), 0);
    assert!(empty.parser.eof());
}

#[test]
fn parse_declarations_failures() {
    assert_eq!(at("").parse_declarations().unwrap_err(), ParseError::EndOfInput);
    assert_eq!(at("a:b;}").parse_declarations().unwrap_err(), ParseError::UnexpectedToken);
    assert_eq!(at("{").parse_declarations().unwrap_err(), ParseError::EndOfInput);
    assert_eq!(at("{a:b; ").parse_declarations().unwrap_err(), ParseError::EndOfInput);
    assert_eq!(at("{a:b}").parse_declarations().unwrap_err(), ParseError::UnexpectedToken);
}

#[test]
fn parse_rule_reads_selectors_and_block() {
    let mut pars = at("h1, #top { color: #ff0000; }rest");
    let rule = pars.parse_rule().unwrap();
    assert_eq!(
        rule.selectors,
        vec![selector(None, Some("top"), &[]), selector(Some("h1"), None, &[])]
    );
    assert_eq!(
        rule.declarations.get("color"),
        Some(&Value::Color(Color { r: 255, g: 0, b: 0, a: 255 }))
    );
    assert_eq!(pars.parser.pos, 28);
}

#[test]
fn empty_style_sheet() {
    let sheet = sheet("");
    assert!(sheet.rules.is_empty());
}

#[test]
fn parse_stylesheet_on_a_consumed_cursor_is_empty() {
    let mut pars = Parser { parser: parser::Parser { input: String::from("a{}"), pos: 3 } };
    assert!(pars.parse_stylesheet().unwrap().rules.is_empty());
}

#[test]
fn whitespace_alone_is_not_a_style_sheet() {
    assert_eq!(error_of(" "), ParseError::EndOfInput);
    assert_eq!(error_of("\n"), ParseError::EndOfInput);
}

#[test]
fn rules_in_source_order() {
    let sheet = sheet(
        "p.class {\n    propery: value;\n    another-property: 10px;\n}\n\np2.class{propery: value;another-property: 10px;}\n",
    );
    assert_eq!(sheet.rules.len(), 2);
    assert_eq!(sheet.rules[0].selectors, vec![selector(Some("p"), None, &["class"])]);
    assert_eq!(sheet.rules[1].selectors, vec![selector(Some("p2"), None, &["class"])]);
    for rule in &sheet.rules {
        assert_eq!(rule.declarations.len(), 2);
        assert_eq!(rule.declarations.get("propery"), Some(&Value::Keyword(String::from("value"))));
        assert_eq!(rule.declarations.get("another-property"), Some(&length("10", Unit::Px)));
    }
}

#[test]
fn style_sheet_failures() {
    assert_eq!(error_of("a"), ParseError::EndOfInput);
    assert_eq!(error_of("a{"), ParseError::EndOfInput);
    assert_eq!(error_of("a}"), ParseError::UnexpectedToken);
    assert_eq!(error_of("a{x:1px;} b"), ParseError::EndOfInput);
    assert_eq!(error_of("a{x:?;}"), ParseError::UnexpectedToken);
    assert_eq!(error_of("a{x:1.1.1px;}"), ParseError::MalformedValue);
    assert_eq!(error_of("a{x:#12345;}"), ParseError::MalformedValue);
    assert_eq!(error_of("a{x:1furlong;}"), ParseError::MalformedValue);
}
