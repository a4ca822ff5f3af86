use blockflow::css::{Selector, Unit, Value};
use blockflow::css_parser::sort_selectors;
use blockflow::dom::{Node, NodeType};
use blockflow::layout::{layout_tree, Dimensions};
use blockflow::parser::{parse_css, parse_html, valid_identifier_char, CharClass, ParseError, Parser};
use blockflow::style::style_tree;

fn tag(node: &Node) -> &str {
    match &node.node_type {
        NodeType::Element(e) => e.tag_name.as_str(),
        NodeType::Text(_) => "#text",
    }
}

fn text_of(node: &Node) -> &str {
    match &node.node_type {
        NodeType::Text(s) => s.as_str(),
        NodeType::Element(_) => panic!("expected text"),
    }
}

fn attr<'a>(node: &'a Node, name: &str) -> Option<&'a String> {
    match &node.node_type {
        NodeType::Element(e) => e.get_attribute(name),
        NodeType::Text(_) => None,
    }
}

fn names(selectors: &[Selector]) -> Vec<(Option<String>, Option<String>, Vec<String>)> {
    selectors
        .iter()
        .map(|s| match s {
            Selector::Simple(s) => (s.tag_name.clone(), s.id.clone(), s.class.clone()),
        })
        .collect()
}

#[test]
fn identifier_characters() {
    for c in ['a', 'z', 'A', 'Z', '0', '9', '-', '_'] {
        assert!(valid_identifier_char(c));
    }
    for c in [' ', '.', '#', '{', 'é', '`', '@', '[', '/', ':'] {
        assert!(!valid_identifier_char(c));
    }
}

#[test]
fn character_classes() {
    assert!(CharClass::Whitespace.test(' '));
    assert!(CharClass::Whitespace.test('\n'));
    assert!(CharClass::Whitespace.test('\t'));
    assert!(CharClass::Whitespace.test('\u{a0}'));
    assert!(CharClass::Whitespace.test('\u{3000}'));
    assert!(!CharClass::Whitespace.test('a'));
    assert!(!CharClass::Whitespace.test('\u{200b}'));
    assert!(CharClass::Name.test('q'));
    assert!(!CharClass::Name.test('-'));
    assert!(CharClass::Text.test('>'));
    assert!(!CharClass::Text.test('<'));
    assert!(CharClass::Until('"').test('\''));
    assert!(!CharClass::Until('"').test('"'));
    assert!(CharClass::Number.test('.'));
    assert!(CharClass::Number.test('7'));
    assert!(!CharClass::Number.test('p'));
    assert!(CharClass::Digit.test('0'));
    assert!(!CharClass::Digit.test('.'));
}

#[test]
fn reader_steps_through_text() {
    let mut p = Parser::new("ab  <c");
    assert_eq!(p.pos, 0);
    assert!(!p.eof());
    assert_eq!(p.next_char(), Ok('a'));
    assert!(p.starts_with("ab"));
    assert!(p.starts_with(""));
    assert!(!p.starts_with("b"));
    assert!(!p.starts_with("ab  <c!"));
    assert_eq!(p.consume_char(), Ok('a'));
    assert_eq!(p.consume_while(CharClass::Name), "b");
    p.consume_whitespace();
    assert_eq!(p.pos, 4);
    assert_eq!(p.consume_while(CharClass::Name), "");
    assert_eq!(p.expect('x'), Err(ParseError));
    assert_eq!(p.consume_char(), Ok('c'));
    assert!(p.eof());
    assert_eq!(p.next_char(), Err(ParseError));
    assert_eq!(p.consume_char(), Err(ParseError));
    assert!(!p.starts_with("c"));
    assert_eq!(p.consume_while(CharClass::Text), "");
}

#[test]
fn reader_counts_characters_not_bytes() {
    let mut p = Parser::new("héé<");
    assert_eq!(p.consume_while(CharClass::Text), "héé");
    assert_eq!(p.pos, 3);
    assert_eq!(p.next_char(), Ok('<'));
}

#[test]
fn html_single_root_is_returned() {
    let root = parse_html("<div id=\"main\" class='a b'>Hello <em>world</em>!</div>".to_string()).unwrap();
    assert_eq!(tag(&root), "div");
    assert_eq!(attr(&root, "id"), Some(&"main".to_string()));
    assert_eq!(attr(&root, "class"), Some(&"a b".to_string()));
    assert_eq!(root.children.len(), 3);
    assert_eq!(text_of(&root.children[0]), "Hello ");
    assert_eq!(tag(&root.children[1]), "em");
    assert_eq!(text_of(&root.children[1].children[0]), "world");
    assert_eq!(text_of(&root.children[2]), "!");
}

#[test]
fn html_several_roots_get_a_wrapper() {
    let root = parse_html(" <p></p> text <p></p> ".to_string()).unwrap();
    assert_eq!(tag(&root), "html");
    assert_eq!(attr(&root, "id"), None);
    assert_eq!(root.children.len(), 3);
    assert_eq!(tag(&root.children[0]), "p");
    assert_eq!(text_of(&root.children[1]), "text ");
    let empty = parse_html("   ".to_string()).unwrap();
    assert_eq!(tag(&empty), "html");
    assert!(empty.children.is_empty());
    let only_text = parse_html("hello".to_string()).unwrap();
    assert_eq!(text_of(&only_text), "hello");
}

#[test]
fn html_stops_before_a_stray_closing_tag() {
    let root = parse_html("<a></a></b>".to_string()).unwrap();
    assert_eq!(tag(&root), "a");
}

#[test]
fn html_later_attribute_replaces_earlier() {
    let root = parse_html("<a x=\"1\"  y='2' x=\"3\" ></a>".to_string()).unwrap();
    assert_eq!(attr(&root, "x"), Some(&"3".to_string()));
    assert_eq!(attr(&root, "y"), Some(&"2".to_string()));
}

#[test]
fn html_malformed_is_an_error() {
    for source in [
        "<div>",
        "<div></span>",
        "<div",
        "<div id=main></div>",
        "<div id=\"main></div>",
        "<div id></div>",
        "<div></div",
        "<div><p></div>",
        "<div>text",
        "<div></",
    ] {
        assert_eq!(parse_html(source.to_string()).err(), Some(ParseError), "{}", source);
    }
}

#[test]
fn css_rules_and_values() {
    let sheet = parse_css(
        "h1, h2 { margin: auto; color: #cc0000; }\n div.note#x { width: 12.5px; padding: 20PX; } * { display: block; }"
            .to_string(),
    )
    .unwrap();
    assert_eq!(sheet.rules.len(), 3);
    let first = &sheet.rules[0];
    assert_eq!(
        names(&first.selectors),
        vec![
            (Some("h1".to_string()), None, vec![]),
            (Some("h2".to_string()), None, vec![]),
        ]
    );
    assert_eq!(first.declarations.len(), 2);
    assert_eq!(first.declarations[0].name, "margin");
    assert_eq!(first.declarations[0].value, Value::Keyword("auto".to_string()));
    assert_eq!(first.declarations[1].name, "color");
    assert_eq!(first.declarations[1].value, Value::Color(204, 0, 0, 255));
    let second = &sheet.rules[1];
    assert_eq!(
        names(&second.selectors),
        vec![(Some("div".to_string()), Some("x".to_string()), vec!["note".to_string()])]
    );
    assert_eq!(second.declarations[0].value, Value::Length(12500, Unit::Px));
    assert_eq!(second.declarations[1].value, Value::Length(20000, Unit::Px));
    let third = &sheet.rules[2];
    assert_eq!(names(&third.selectors), vec![(None, None, vec![])]);
    assert_eq!(third.declarations[0].value, Value::Keyword("block".to_string()));
}

#[test]
fn css_empty_sheet() {
    assert!(parse_css("".to_string()).unwrap().rules.is_empty());
    assert!(parse_css(" \n\t ".to_string()).unwrap().rules.is_empty());
    let sheet = parse_css("a{}".to_string()).unwrap();
    assert_eq!(sheet.rules.len(), 1);
    assert!(sheet.rules[0].declarations.is_empty());
}

#[test]
fn css_selectors_come_out_by_specificity() {
    let sheet = parse_css("p, .a, #i, div, .b.c, em#j, .d {}".to_string()).unwrap();
    assert_eq!(
        names(&sheet.rules[0].selectors),
        vec![
            (Some("em".to_string()), Some("j".to_string()), vec![]),
            (None, Some("i".to_string()), vec![]),
            (None, None, vec!["b".to_string(), "c".to_string()]),
            (None, None, vec!["a".to_string()]),
            (None, None, vec!["d".to_string()]),
            (Some("p".to_string()), None, vec![]),
            (Some("div".to_string()), None, vec![]),
        ]
    );
}

#[test]
fn sort_selectors_is_stable() {
    let simple = |tag: Option<&str>, id: Option<&str>| {
        Selector::Simple(blockflow::css::SimpleSelector {
            tag_name: tag.map(|s| s.to_string()),
            id: id.map(|s| s.to_string()),
            class: vec![],
        })
    };
    let sorted = sort_selectors(vec![
        simple(Some("a"), None),
        simple(None, Some("x")),
        simple(Some("b"), None),
        simple(None, Some("y")),
    ]);
    assert_eq!(
        names(&sorted),
        vec![
            (None, Some("x".to_string()), vec![]),
            (None, Some("y".to_string()), vec![]),
            (Some("a".to_string()), None, vec![]),
            (Some("b".to_string()), None, vec![]),
        ]
    );
    assert!(sort_selectors(vec![]).is_empty());
}

#[test]
fn css_later_id_or_tag_in_one_selector_replaces_earlier() {
    let sheet = parse_css("a#x*b#y.c {}".to_string()).unwrap();
    assert_eq!(
        names(&sheet.rules[0].selectors),
        vec![(Some("b".to_string()), Some("y".to_string()), vec!["c".to_string()])]
    );
}

#[test]
fn css_numbers_are_thousandths() {
    let value = |text: &str| {
        let mut p = Parser::new(text);
        p.parse_value()
    };
    assert_eq!(value("0px"), Ok(Value::Length(0, Unit::Px)));
    assert_eq!(value("1px"), Ok(Value::Length(1000, Unit::Px)));
    assert_eq!(value("007px"), Ok(Value::Length(7000, Unit::Px)));
    assert_eq!(value("1.px"), Ok(Value::Length(1000, Unit::Px)));
    assert_eq!(value("1.5px"), Ok(Value::Length(1500, Unit::Px)));
    assert_eq!(value("1.05Px"), Ok(Value::Length(1050, Unit::Px)));
    assert_eq!(value("1.234px"), Ok(Value::Length(1234, Unit::Px)));
    assert_eq!(value("1.2349px"), Ok(Value::Length(1234, Unit::Px)));
    assert_eq!(value("9223372036854775.807px"), Ok(Value::Length(i64::MAX, Unit::Px)));
    assert_eq!(value("9223372036854775.808px"), Err(ParseError));
    assert_eq!(value("9223372036854776px"), Err(ParseError));
    assert_eq!(value("99999999999999999999999999999999999999999999px"), Err(ParseError));
    assert_eq!(value("1.2.3px"), Err(ParseError));
    assert_eq!(value("1..px"), Err(ParseError));
    assert_eq!(value("1em"), Err(ParseError));
    assert_eq!(value("1"), Err(ParseError));
    assert_eq!(value("1 px"), Err(ParseError));
    assert_eq!(value("1pxx"), Err(ParseError));
    assert_eq!(value(""), Err(ParseError));
}

#[test]
fn css_colors_and_keywords() {
    let value = |text: &str| {
        let mut p = Parser::new(text);
        p.parse_value()
    };
    assert_eq!(value("#000000"), Ok(Value::Color(0, 0, 0, 255)));
    assert_eq!(value("#ffFF10;"), Ok(Value::Color(255, 255, 16, 255)));
    assert_eq!(value("#aBcDeF"), Ok(Value::Color(0xab, 0xcd, 0xef, 255)));
    assert_eq!(value("#fff"), Err(ParseError));
    assert_eq!(value("#ggffff"), Err(ParseError));
    assert_eq!(value("#+fffff"), Err(ParseError));
    assert_eq!(value("auto;"), Ok(Value::Keyword("auto".to_string())));
    assert_eq!(value(";"), Ok(Value::Keyword("".to_string())));
    let mut p = Parser::new("1c");
    assert_eq!(p.parse_hex_pair(), Ok(28));
    assert_eq!(p.pos, 2);
}

#[test]
fn css_malformed_is_an_error() {
    for source in [
        "a",
        "a {",
        "a { color: red }",
        "a { color red; }",
        "a { color: red;",
        "a b {}",
        "a, {",
        "a { width: 10em; }",
        "a { width: 1.2.3px; }",
        "a { color: #12; }",
        "{} }",
        "a {} b",
    ] {
        assert_eq!(parse_css(source.to_string()).err(), Some(ParseError), "{}", source);
    }
}

#[test]
fn parsed_document_is_laid_out() {
    let doc = parse_html(
        "<div id=\"root\"><div class=\"box\"></div><p>text</p><div class=\"box wide\"></div></div>"
            .to_string(),
    )
    .unwrap();
    let sheet = parse_css(
        "div { display: block; } .box { height: 10px; margin-left: auto; margin-right: auto; width: 100px; } .box.wide { width: 300.5px; } p { display: none; }"
            .to_string(),
    )
    .unwrap();
    let styled = style_tree(&doc, &sheet);
    let root = layout_tree(
        &styled,
        Dimensions { width: 800_000, ..Dimensions::default() },
    )
    .unwrap();
    assert_eq!(root.children.len(), 2);
    assert_eq!(root.dimensions.width, 800_000);
    assert_eq!(root.dimensions.height, 20_000);
    assert_eq!(root.children[0].dimensions.margin.left, 350_000);
    assert_eq!(root.children[0].dimensions.x, 350_000);
    assert_eq!(root.children[1].dimensions.width, 300_500);
    assert_eq!(root.children[1].dimensions.margin.left, 249_750);
    assert_eq!(root.children[1].dimensions.y, 10_000);
}

#[test]
fn element_needs_an_opening_tag() {
    let mut p = Parser::new("text<a></a>");
    assert_eq!(p.parse_element().err(), Some(ParseError));
    let mut p = Parser::new("");
    assert_eq!(p.parse_element().err(), Some(ParseError));
    let mut p = Parser::new("<a>text</a>rest");
    let node = p.parse_element().unwrap();
    assert_eq!(tag(&node), "a");
    assert_eq!(p.pos, 11);
    let mut p = Parser::new("text<a></a>");
    let node = p.parse_node().unwrap();
    assert_eq!(text_of(&node), "text");
    assert_eq!(p.pos, 4);
}

#[test]
fn attribute_values_are_quoted() {
    let mut p = Parser::new("name='it\"s' rest");
    assert_eq!(p.parse_attr(), Ok(("name".to_string(), "it\"s".to_string())));
    assert_eq!(p.pos, 11);
    let mut p = Parser::new("\"\"");
    assert_eq!(p.parse_attr_value(), Ok("".to_string()));
    let mut p = Parser::new("'open");
    assert_eq!(p.parse_attr_value(), Err(ParseError));
    let mut p = Parser::new("bare");
    assert_eq!(p.parse_attr_value(), Err(ParseError));
    let mut p = Parser::new("tag9-x");
    assert_eq!(p.parse_tag_name(), "tag9");
    let mut p = Parser::new("tag9-x y");
    assert_eq!(p.parse_identifier(), "tag9-x");
}

#[test]
fn declaration_parts_may_be_spaced() {
    let mut p = Parser::new("margin-left \n:\t 5px  ;x");
    let d = p.parse_declaration().unwrap();
    assert_eq!(d.name, "margin-left");
    assert_eq!(d.value, Value::Length(5000, Unit::Px));
    assert_eq!(p.next_char(), Ok('x'));
    let mut p = Parser::new("{ a: b; c: #010203; }");
    let all = p.parse_declarations().unwrap();
    assert_eq!(all.len(), 2);
    assert_eq!(all[1].value, Value::Color(1, 2, 3, 255));
    assert!(p.eof());
    let mut p = Parser::new("px");
    assert_eq!(p.parse_unit(), Ok(Unit::Px));
    let mut p = Parser::new("pt");
    assert_eq!(p.parse_unit(), Err(ParseError));
}
