use blockflow::css::{
    is_ranked_below, Declaration, Rule, Selector, SimpleSelector, Stylesheet, Unit, Value,
};
use blockflow::dom::{add_name, contains_name, elem, text, AttrMap, ElementData, Node, NodeType};
use blockflow::strmap::StrMap;
use blockflow::style::{
    cascade_sort, match_rule, matches_simple_selector, matching_rules, specified_values,
    style_tree, Display, MatchedRule, StyledNode,
};

fn simple(tag: Option<&str>, id: Option<&str>, classes: &[&str]) -> SimpleSelector {
    SimpleSelector {
        tag_name: tag.map(|s| s.to_string()),
        id: id.map(|s| s.to_string()),
        class: classes.iter().map(|s| s.to_string()).collect(),
    }
}

fn selector(tag: Option<&str>, id: Option<&str>, classes: &[&str]) -> Selector {
    Selector::Simple(simple(tag, id, classes))
}

fn keyword(word: &str) -> Value {
    Value::Keyword(word.to_string())
}

fn decl(name: &str, value: Value) -> Declaration {
    Declaration { name: name.to_string(), value }
}

fn rule(selectors: Vec<Selector>, declarations: Vec<Declaration>) -> Rule {
    Rule { selectors, declarations }
}

fn attrs(pairs: &[(&str, &str)]) -> AttrMap {
    let mut map = StrMap::new();
    for (k, v) in pairs {
        map.insert(k.to_string(), v.to_string());
    }
    map
}

fn element(tag: &str, pairs: &[(&str, &str)]) -> ElementData {
    ElementData { tag_name: tag.to_string(), attributes: attrs(pairs) }
}

fn count_nodes(node: &Node) -> usize {
    1 + node.children.iter().map(count_nodes).sum::<usize>()
}

fn count_styled(node: &StyledNode) -> usize {
    1 + node.children.iter().map(count_styled).sum::<usize>()
}

#[test]
fn specificity_counts_id_classes_and_tag() {
    assert_eq!(selector(Some("div"), Some("x"), &["a", "b"]).specificity(), (1, 2, 1));
    assert_eq!(selector(None, None, &[]).specificity(), (0, 0, 0));
    assert_eq!(selector(Some("p"), None, &[]).specificity(), (0, 0, 1));
    assert_eq!(selector(None, None, &["b", "c"]).specificity(), (0, 2, 0));
}

#[test]
fn id_outranks_classes_outrank_tag() {
    let id = selector(None, Some("a"), &[]).specificity();
    let classes = selector(None, None, &["b", "c"]).specificity();
    let tag = selector(Some("tag"), None, &[]).specificity();
    assert!(is_ranked_below(classes, id));
    assert!(is_ranked_below(tag, classes));
    assert!(is_ranked_below(tag, id));
    assert!(!is_ranked_below(id, classes));
    assert!(!is_ranked_below(id, id));
}

#[test]
fn map_insert_replaces_value_of_same_key() {
    let mut map: StrMap<String> = StrMap::new();
    assert_eq!(map.get("a"), None);
    map.insert("a".to_string(), "1".to_string());
    map.insert("b".to_string(), "2".to_string());
    map.insert("a".to_string(), "3".to_string());
    assert_eq!(map.get("a"), Some(&"3".to_string()));
    assert_eq!(map.get("b"), Some(&"2".to_string()));
    assert_eq!(map.get("c"), None);
}

#[test]
fn text_node_has_no_children() {
    let node = text("hello".to_string());
    assert!(node.children.is_empty());
    match node.node_type {
        NodeType::Text(s) => assert_eq!(s, "hello"),
        NodeType::Element(_) => panic!("expected text"),
    }
}

#[test]
fn elem_keeps_name_attributes_and_children() {
    let node = elem(
        "div".to_string(),
        attrs(&[("id", "main")]),
        vec![text("a".to_string()), text("b".to_string())],
    );
    assert_eq!(node.children.len(), 2);
    match &node.node_type {
        NodeType::Element(e) => {
            assert_eq!(e.tag_name, "div");
            assert_eq!(e.get_attribute("id"), Some(&"main".to_string()));
            assert_eq!(e.id(), Some(&"main".to_string()));
            assert_eq!(e.get_attribute("class"), None);
        },
        NodeType::Text(_) => panic!("expected element"),
    }
}

#[test]
fn classes_are_the_words_of_the_attribute() {
    assert_eq!(element("p", &[("class", "a b")]).classes(), vec!["a".to_string(), "b".to_string()]);
    assert_eq!(element("p", &[("class", "note")]).classes(), vec!["note".to_string()]);
    assert_eq!(
        element("p", &[("class", "  a  b ")]).classes(),
        vec!["a".to_string(), "b".to_string()]
    );
    assert_eq!(
        element("p", &[("class", "a\tb\nc\u{a0}d")]).classes(),
        vec!["a".to_string(), "b".to_string(), "c".to_string(), "d".to_string()]
    );
    assert!(element("p", &[("class", "")]).classes().is_empty());
    assert!(element("p", &[("class", "   ")]).classes().is_empty());
    assert!(element("p", &[]).classes().is_empty());
}

#[test]
fn classes_hold_each_name_once() {
    assert_eq!(element("p", &[("class", "a b a")]).classes(), vec!["a".to_string(), "b".to_string()]);
    assert_eq!(element("p", &[("class", "a b a")]).classes().len(), 2);
    assert_eq!(element("p", &[("class", "x  x\tx")]).classes(), vec!["x".to_string()]);
    assert_eq!(
        element("p", &[("class", "b a b c a c")]).classes(),
        vec!["b".to_string(), "a".to_string(), "c".to_string()]
    );
    assert_eq!(
        element("p", &[("class", "ab a b ab")]).classes(),
        vec!["ab".to_string(), "a".to_string(), "b".to_string()]
    );
    assert!(element("p", &[("id", "a")]).classes().is_empty());
}

#[test]
fn names_are_added_once() {
    let mut names: Vec<String> = Vec::new();
    assert!(!contains_name(&names, &"a".to_string()));
    add_name(&mut names, "a".to_string());
    add_name(&mut names, "b".to_string());
    add_name(&mut names, "a".to_string());
    assert_eq!(names, vec!["a".to_string(), "b".to_string()]);
    assert!(contains_name(&names, &"b".to_string()));
    assert!(!contains_name(&names, &"c".to_string()));
    assert!(!contains_name(&names, &"".to_string()));
}

#[test]
fn repeated_class_matches_like_a_single_one() {
    let e = element("p", &[("class", "a b a")]);
    assert!(blockflow::style::matches(&e, &selector(None, None, &["a"])));
    assert!(blockflow::style::matches(&e, &selector(None, None, &["a", "a", "b"])));
    assert!(!blockflow::style::matches(&e, &selector(None, None, &["a", "c"])));
}

#[test]
fn class_selector_matches_a_word_of_the_attribute() {
    let e = element("p", &[("class", "left\tbig  red")]);
    assert!(blockflow::style::matches(&e, &selector(None, None, &["big"])));
    assert!(blockflow::style::matches(&e, &selector(None, None, &["red", "left"])));
    assert!(!blockflow::style::matches(&e, &selector(None, None, &["bi"])));
    assert!(!blockflow::style::matches(&e, &selector(None, None, &[""])));
    assert!(!blockflow::style::matches(&e, &selector(None, None, &["big  red"])));
}

#[test]
fn universal_selector_matches_everything() {
    let e = element("div", &[]);
    assert!(blockflow::style::matches(&e, &selector(None, None, &[])));
    assert!(matches_simple_selector(&element("p", &[("id", "x")]), &simple(None, None, &[])));
}

#[test]
fn selector_constraints_must_all_hold() {
    let e = element("div", &[("id", "main"), ("class", "a b c")]);
    assert!(blockflow::style::matches(&e, &selector(Some("div"), None, &[])));
    assert!(!blockflow::style::matches(&e, &selector(Some("p"), None, &[])));
    assert!(blockflow::style::matches(&e, &selector(None, Some("main"), &[])));
    assert!(!blockflow::style::matches(&e, &selector(None, Some("other"), &[])));
    assert!(blockflow::style::matches(&e, &selector(None, None, &["a", "c"])));
    assert!(!blockflow::style::matches(&e, &selector(None, None, &["a", "d"])));
    assert!(blockflow::style::matches(&e, &selector(Some("div"), Some("main"), &["b"])));
    assert!(!blockflow::style::matches(&e, &selector(Some("div"), Some("main"), &["z"])));
    assert!(!blockflow::style::matches(&element("div", &[]), &selector(None, Some("main"), &[])));
    assert!(!blockflow::style::matches(&element("div", &[]), &selector(None, None, &["a"])));
}

#[test]
fn rule_takes_rank_of_first_matching_selector() {
    let e = element("div", &[("id", "x")]);
    let r = rule(
        vec![selector(Some("p"), None, &[]), selector(Some("div"), None, &[]), selector(None, Some("x"), &[])],
        vec![],
    );
    assert_eq!(match_rule(&e, &r), Some((0, 0, 1)));
    let none = rule(vec![selector(Some("p"), None, &[])], vec![]);
    assert_eq!(match_rule(&e, &none), None);
    assert_eq!(match_rule(&e, &rule(vec![], vec![])), None);
}

#[test]
fn matching_rules_come_in_stylesheet_order() {
    let e = element("div", &[("id", "x")]);
    let sheet = Stylesheet {
        rules: vec![
            rule(vec![selector(None, Some("x"), &[])], vec![]),
            rule(vec![selector(Some("p"), None, &[])], vec![]),
            rule(vec![selector(Some("div"), None, &[])], vec![]),
        ],
    };
    assert_eq!(
        matching_rules(&e, &sheet),
        vec![
            MatchedRule { specificity: (1, 0, 0), rule: 0 },
            MatchedRule { specificity: (0, 0, 1), rule: 2 },
        ]
    );
}

#[test]
fn cascade_sort_is_stable_and_ascending() {
    let given = vec![
        MatchedRule { specificity: (1, 0, 0), rule: 0 },
        MatchedRule { specificity: (0, 0, 1), rule: 1 },
        MatchedRule { specificity: (0, 1, 0), rule: 2 },
        MatchedRule { specificity: (0, 0, 1), rule: 3 },
        MatchedRule { specificity: (1, 0, 0), rule: 4 },
    ];
    assert_eq!(
        cascade_sort(given),
        vec![
            MatchedRule { specificity: (0, 0, 1), rule: 1 },
            MatchedRule { specificity: (0, 0, 1), rule: 3 },
            MatchedRule { specificity: (0, 1, 0), rule: 2 },
            MatchedRule { specificity: (1, 0, 0), rule: 0 },
            MatchedRule { specificity: (1, 0, 0), rule: 4 },
        ]
    );
    assert_eq!(cascade_sort(vec![]), vec![]);
}

#[test]
fn id_rule_beats_tag_rule_in_either_order() {
    let e = element("div", &[("id", "x")]);
    let tag_rule = || rule(vec![selector(Some("div"), None, &[])], vec![decl("color", keyword("red"))]);
    let id_rule = || rule(vec![selector(None, Some("x"), &[])], vec![decl("color", keyword("blue"))]);
    let first = Stylesheet { rules: vec![tag_rule(), id_rule()] };
    let second = Stylesheet { rules: vec![id_rule(), tag_rule()] };
    assert_eq!(specified_values(&e, &first).get("color"), Some(&keyword("blue")));
    assert_eq!(specified_values(&e, &second).get("color"), Some(&keyword("blue")));
}

#[test]
fn later_rule_of_equal_rank_wins() {
    let e = element("div", &[]);
    let sheet = Stylesheet {
        rules: vec![
            rule(
                vec![selector(Some("div"), None, &[])],
                vec![decl("color", keyword("red")), decl("margin", Value::Length(1000, Unit::Px))],
            ),
            rule(vec![selector(Some("div"), None, &[])], vec![decl("color", keyword("green"))]),
        ],
    };
    let values = specified_values(&e, &sheet);
    assert_eq!(values.get("color"), Some(&keyword("green")));
    assert_eq!(values.get("margin"), Some(&Value::Length(1000, Unit::Px)));
}

#[test]
fn later_declaration_in_one_rule_wins() {
    let e = element("div", &[]);
    let sheet = Stylesheet {
        rules: vec![rule(
            vec![selector(None, None, &[])],
            vec![decl("color", keyword("red")), decl("color", Value::Color(1, 2, 3, 255))],
        )],
    };
    assert_eq!(specified_values(&e, &sheet).get("color"), Some(&Value::Color(1, 2, 3, 255)));
}

#[test]
fn rank_comes_from_first_matching_selector_not_the_best() {
    // The element matches both selectors of the first rule; the tag
    // selector stands first, so the rule applies at tag rank and the class
    // rule outranks it.
    let e = element("div", &[("id", "x"), ("class", "c")]);
    let sheet = Stylesheet {
        rules: vec![
            rule(
                vec![selector(Some("div"), None, &[]), selector(None, Some("x"), &[])],
                vec![decl("color", keyword("red"))],
            ),
            rule(vec![selector(None, None, &["c"])], vec![decl("color", keyword("blue"))]),
        ],
    };
    assert_eq!(specified_values(&e, &sheet).get("color"), Some(&keyword("blue")));
}

#[test]
fn unmatched_element_has_no_properties() {
    let e = element("span", &[]);
    let sheet = Stylesheet {
        rules: vec![rule(vec![selector(Some("div"), None, &[])], vec![decl("color", keyword("red"))])],
    };
    assert_eq!(specified_values(&e, &sheet).get("color"), None);
}

#[test]
fn styled_tree_has_shape_of_document() {
    let doc = elem(
        "html".to_string(),
        attrs(&[]),
        vec![
            elem(
                "div".to_string(),
                attrs(&[("class", "a")]),
                vec![text("one".to_string()), elem("p".to_string(), attrs(&[]), vec![])],
            ),
            text("two".to_string()),
            elem("div".to_string(), attrs(&[]), vec![]),
        ],
    );
    let sheet = Stylesheet {
        rules: vec![rule(vec![selector(Some("div"), None, &[])], vec![decl("display", keyword("block"))])],
    };
    let styled = style_tree(&doc, &sheet);
    assert_eq!(count_styled(&styled), count_nodes(&doc));
    assert_eq!(count_styled(&styled), 6);
    assert_eq!(styled.children.len(), 3);
    assert_eq!(styled.children[0].children.len(), 2);
    assert!(std::ptr::eq(styled.node, &doc));
    assert!(std::ptr::eq(styled.children[0].node, &doc.children[0]));
    assert!(std::ptr::eq(styled.children[0].children[1].node, &doc.children[0].children[1]));
    assert_eq!(styled.children[0].display(), Display::Block);
    assert_eq!(styled.children[2].display(), Display::Block);
    // Text gets no properties.
    assert_eq!(styled.children[1].value("display"), None);
    assert_eq!(styled.children[1].display(), Display::Inline);
    assert_eq!(styled.display(), Display::Inline);
}

#[test]
fn display_defaults_to_inline() {
    let doc = elem("a".to_string(), attrs(&[]), vec![]);
    let with = |v: Value| Stylesheet { rules: vec![rule(vec![selector(None, None, &[])], vec![decl("display", v)])] };
    let block = with(keyword("block"));
    assert_eq!(style_tree(&doc, &block).display(), Display::Block);
    let none = with(keyword("none"));
    assert_eq!(style_tree(&doc, &none).display(), Display::DisplayNone);
    let other = with(keyword("table"));
    assert_eq!(style_tree(&doc, &other).display(), Display::Inline);
    let length = with(Value::Length(1000, Unit::Px));
    assert_eq!(style_tree(&doc, &length).display(), Display::Inline);
    let upper = with(keyword("Block"));
    assert_eq!(style_tree(&doc, &upper).display(), Display::Inline);
    let empty = Stylesheet { rules: vec![] };
    assert_eq!(style_tree(&doc, &empty).display(), Display::Inline);
}

#[test]
fn lookup_prefers_name_then_fallback_then_default() {
    let doc = elem("a".to_string(), attrs(&[]), vec![]);
    let default = Value::Length(0, Unit::Px);
    let both = Stylesheet {
        rules: vec![rule(
            vec![selector(None, None, &[])],
            vec![
                decl("margin", Value::Length(1000, Unit::Px)),
                decl("margin-left", Value::Length(2000, Unit::Px)),
            ],
        )],
    };
    let styled = style_tree(&doc, &both);
    assert_eq!(styled.lookup("margin-left", "margin", &default), Value::Length(2000, Unit::Px));
    assert_eq!(styled.lookup("margin-right", "margin", &default), Value::Length(1000, Unit::Px));
    assert_eq!(styled.lookup("padding-left", "padding", &default), Value::Length(0, Unit::Px));
    assert_eq!(styled.value("margin"), Some(Value::Length(1000, Unit::Px)));
    assert_eq!(styled.value("padding"), None);
}

#[test]
fn to_px_is_zero_for_what_is_no_length() {
    assert_eq!(Value::Length(12500, Unit::Px).to_px(), 12500);
    assert_eq!(Value::Length(-3, Unit::Px).to_px(), -3);
    assert_eq!(keyword("auto").to_px(), 0);
    assert_eq!(Value::Color(1, 2, 3, 4).to_px(), 0);
    assert!(keyword("auto").is_keyword("auto"));
    assert!(!keyword("auto").is_keyword("none"));
    assert!(!Value::Length(0, Unit::Px).is_keyword("auto"));
    assert_eq!(keyword("auto").clone(), keyword("auto"));
}
