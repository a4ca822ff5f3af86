use blockflow::css::{Declaration, Rule, Selector, SimpleSelector, Stylesheet, Unit, Value};
use blockflow::dom::{elem, text, AttrMap, Node};
use blockflow::layout::{
    build_layout_tree, layout_tree, BoxType, Dimensions, EdgeSizes, LayoutBox, LayoutError,
};
use blockflow::strmap::StrMap;
use blockflow::style::style_tree;

const PX: i64 = 1000;

fn px(n: i64) -> Value {
    Value::Length(n * PX, Unit::Px)
}

fn keyword(word: &str) -> Value {
    Value::Keyword(word.to_string())
}

fn decl(name: &str, value: Value) -> Declaration {
    Declaration { name: name.to_string(), value }
}

fn by_id(id: &str, declarations: Vec<Declaration>) -> Rule {
    Rule {
        selectors: vec![Selector::Simple(SimpleSelector {
            tag_name: None,
            id: Some(id.to_string()),
            class: vec![],
        })],
        declarations,
    }
}

fn by_tag(tag: &str, declarations: Vec<Declaration>) -> Rule {
    Rule {
        selectors: vec![Selector::Simple(SimpleSelector {
            tag_name: Some(tag.to_string()),
            id: None,
            class: vec![],
        })],
        declarations,
    }
}

fn node(tag: &str, id: &str, children: Vec<Node>) -> Node {
    let mut attrs: AttrMap = StrMap::new();
    attrs.insert("id".to_string(), id.to_string());
    elem(tag.to_string(), attrs, children)
}

fn viewport() -> Dimensions {
    Dimensions { x: 0, y: 0, width: 800 * PX, height: 0, ..Dimensions::default() }
}

fn block() -> Declaration {
    decl("display", keyword("block"))
}

fn geometry(b: &LayoutBox) -> Vec<Dimensions> {
    let mut all = vec![b.dimensions];
    for child in &b.children {
        all.extend(geometry(child));
    }
    all
}

fn kind(b: &LayoutBox) -> &'static str {
    match b.box_type {
        BoxType::BlockNode(_) => "block",
        BoxType::InlineNode(_) => "inline",
        BoxType::AnonymousBlock => "anonymous",
    }
}

fn single(declarations: Vec<Declaration>, containing: Dimensions) -> Result<Dimensions, LayoutError> {
    let doc = node("div", "root", vec![]);
    let sheet = Stylesheet { rules: vec![by_id("root", declarations)] };
    let styled = style_tree(&doc, &sheet);
    layout_tree(&styled, containing).map(|b| b.dimensions)
}

#[test]
fn default_dimensions_are_zero() {
    let d = Dimensions::default();
    assert_eq!(
        d,
        Dimensions {
            x: 0,
            y: 0,
            width: 0,
            height: 0,
            padding: EdgeSizes { left: 0, right: 0, top: 0, bottom: 0 },
            border: EdgeSizes::default(),
            margin: EdgeSizes::default(),
        }
    );
}

#[test]
fn auto_width_fills_container() {
    let d = single(vec![block()], viewport()).unwrap();
    assert_eq!(d.width, 800 * PX);
    assert_eq!(d.margin.left, 0);
    assert_eq!(d.margin.right, 0);
    assert_eq!(d.x, 0);
    assert_eq!(d.y, 0);
    assert_eq!(d.height, 0);
}

#[test]
fn explicit_auto_width_fills_container() {
    let d = single(vec![block(), decl("width", keyword("auto"))], viewport()).unwrap();
    assert_eq!(d.width, 800 * PX);
}

#[test]
fn auto_margins_center_a_fixed_width() {
    let d = single(
        vec![
            block(),
            decl("width", px(100)),
            decl("margin-left", keyword("auto")),
            decl("margin-right", keyword("auto")),
        ],
        viewport(),
    )
    .unwrap();
    assert_eq!(d.width, 100 * PX);
    assert_eq!(d.margin.left, 350 * PX);
    assert_eq!(d.margin.right, 350 * PX);
    assert_eq!(d.x, 350 * PX);
}

#[test]
fn auto_margins_split_odd_space_downwards() {
    let d = single(
        vec![
            block(),
            decl("width", Value::Length(100, Unit::Px)),
            decl("margin", keyword("auto")),
        ],
        Dimensions { width: 205, ..Dimensions::default() },
    )
    .unwrap();
    assert_eq!(d.margin.left, 52);
    assert_eq!(d.margin.right, 52);
}

#[test]
fn one_auto_margin_takes_free_space() {
    let left = single(
        vec![block(), decl("width", px(100)), decl("margin-left", keyword("auto")), decl("margin-right", px(50))],
        viewport(),
    )
    .unwrap();
    assert_eq!(left.margin.left, 650 * PX);
    assert_eq!(left.margin.right, 50 * PX);
    let right = single(
        vec![block(), decl("width", px(100)), decl("margin-right", keyword("auto")), decl("margin-left", px(50))],
        viewport(),
    )
    .unwrap();
    assert_eq!(right.margin.left, 50 * PX);
    assert_eq!(right.margin.right, 650 * PX);
}

#[test]
fn overconstrained_box_gives_way_on_right_margin() {
    let d = single(
        vec![
            block(),
            decl("width", px(100)),
            decl("margin-left", px(10)),
            decl("margin-right", px(20)),
            decl("padding", px(5)),
            decl("border-width", px(1)),
        ],
        viewport(),
    )
    .unwrap();
    assert_eq!(d.width, 100 * PX);
    assert_eq!(d.margin.left, 10 * PX);
    // 800 - (10 + 20 + 1 + 1 + 5 + 5 + 100) = 658 more on the right.
    assert_eq!(d.margin.right, 678 * PX);
    assert_eq!(d.padding, EdgeSizes { left: 5 * PX, right: 5 * PX, top: 5 * PX, bottom: 5 * PX });
    assert_eq!(d.border, EdgeSizes { left: PX, right: PX, top: PX, bottom: PX });
    assert_eq!(d.x, 16 * PX);
    assert_eq!(d.y, 6 * PX);
}

#[test]
fn too_wide_box_treats_auto_margins_as_zero() {
    let d = single(
        vec![block(), decl("width", px(900)), decl("margin", keyword("auto"))],
        viewport(),
    )
    .unwrap();
    assert_eq!(d.width, 900 * PX);
    assert_eq!(d.margin.left, 0);
    assert_eq!(d.margin.right, -100 * PX);
}

#[test]
fn auto_width_never_goes_negative() {
    let d = single(
        vec![block(), decl("margin-left", px(500)), decl("margin-right", px(400))],
        viewport(),
    )
    .unwrap();
    assert_eq!(d.width, 0);
    assert_eq!(d.margin.left, 500 * PX);
    assert_eq!(d.margin.right, 300 * PX);
}

#[test]
fn auto_width_zeroes_auto_margins() {
    let d = single(vec![block(), decl("margin", keyword("auto")), decl("padding-left", px(30))], viewport())
        .unwrap();
    assert_eq!(d.margin.left, 0);
    assert_eq!(d.margin.right, 0);
    assert_eq!(d.width, 770 * PX);
    assert_eq!(d.x, 30 * PX);
}

#[test]
fn longhand_beats_shorthand_for_edges() {
    let d = single(
        vec![
            block(),
            decl("margin", px(10)),
            decl("margin-top", px(3)),
            decl("padding", px(2)),
            decl("padding-bottom", px(7)),
            decl("border-width", px(1)),
            decl("border-top-width", px(4)),
        ],
        Dimensions { x: 5 * PX, y: 6 * PX, width: 800 * PX, height: 100 * PX, ..Dimensions::default() },
    )
    .unwrap();
    assert_eq!(d.margin.top, 3 * PX);
    assert_eq!(d.margin.bottom, 10 * PX);
    assert_eq!(d.padding.top, 2 * PX);
    assert_eq!(d.padding.bottom, 7 * PX);
    assert_eq!(d.border.top, 4 * PX);
    assert_eq!(d.border.bottom, PX);
    assert_eq!(d.x, (5 + 10 + 1 + 2) * PX);
    assert_eq!(d.y, (6 + 100 + 3 + 4 + 2) * PX);
}

#[test]
fn edges_of_containing_block_are_ignored() {
    let plain = single(vec![block(), decl("width", px(10))], viewport()).unwrap();
    let edged = single(
        vec![block(), decl("width", px(10))],
        Dimensions {
            padding: EdgeSizes { left: 9, right: 9, top: 9, bottom: 9 },
            border: EdgeSizes { left: 8, right: 8, top: 8, bottom: 8 },
            margin: EdgeSizes { left: 7, right: 7, top: 7, bottom: 7 },
            ..viewport()
        },
    )
    .unwrap();
    assert_eq!(plain, edged);
}

#[test]
fn siblings_stack_by_height() {
    let doc = node(
        "div",
        "root",
        vec![node("div", "a", vec![]), node("div", "b", vec![]), node("div", "c", vec![])],
    );
    let sheet = Stylesheet {
        rules: vec![
            by_tag("div", vec![block()]),
            by_id("a", vec![decl("height", px(10))]),
            by_id("b", vec![decl("height", px(20))]),
            by_id("c", vec![decl("height", px(30))]),
        ],
    };
    let styled = style_tree(&doc, &sheet);
    let root = layout_tree(&styled, viewport()).unwrap();
    assert_eq!(root.children.len(), 3);
    assert_eq!(root.children[0].dimensions.y, 0);
    assert_eq!(root.children[1].dimensions.y, 10 * PX);
    assert_eq!(root.children[2].dimensions.y, 30 * PX);
    assert_eq!(root.dimensions.height, 60 * PX);
    assert_eq!(root.children[2].dimensions.width, 800 * PX);
}

#[test]
fn stacking_counts_padding_twice_and_leaves_out_border_and_margin() {
    let doc = node("div", "root", vec![node("div", "a", vec![]), node("div", "b", vec![])]);
    let sheet = Stylesheet {
        rules: vec![
            by_tag("div", vec![block()]),
            by_id(
                "a",
                vec![
                    decl("height", px(10)),
                    decl("padding-top", px(1)),
                    decl("padding-bottom", px(2)),
                    decl("border-width", px(100)),
                    decl("margin", px(1000)),
                ],
            ),
            by_id("b", vec![decl("height", px(5))]),
        ],
    };
    let styled = style_tree(&doc, &sheet);
    let root = layout_tree(&styled, viewport()).unwrap();
    // 10 + 2 * (1 + 2) = 16 for the first child.
    assert_eq!(root.children[1].dimensions.y, 16 * PX);
    assert_eq!(root.dimensions.height, 21 * PX);
}

#[test]
fn explicit_height_replaces_height_of_children() {
    let doc = node("div", "root", vec![node("div", "a", vec![])]);
    let sheet = Stylesheet {
        rules: vec![
            by_tag("div", vec![block()]),
            by_id("root", vec![decl("height", px(7))]),
            by_id("a", vec![decl("height", px(50))]),
        ],
    };
    let styled = style_tree(&doc, &sheet);
    let root = layout_tree(&styled, viewport()).unwrap();
    assert_eq!(root.dimensions.height, 7 * PX);
    assert_eq!(root.children[0].dimensions.height, 50 * PX);
    let auto = Stylesheet {
        rules: vec![
            by_tag("div", vec![block()]),
            by_id("root", vec![decl("height", keyword("auto"))]),
            by_id("a", vec![decl("height", px(50))]),
        ],
    };
    let styled = style_tree(&doc, &auto);
    assert_eq!(layout_tree(&styled, viewport()).unwrap().dimensions.height, 50 * PX);
}

#[test]
fn children_are_laid_out_inside_the_parent() {
    let doc = node("div", "root", vec![node("div", "a", vec![node("div", "b", vec![])])]);
    let sheet = Stylesheet {
        rules: vec![
            by_tag("div", vec![block()]),
            by_id("root", vec![decl("padding", px(10))]),
            by_id("a", vec![decl("margin-left", px(5)), decl("width", px(100))]),
            by_id("b", vec![decl("height", px(4))]),
        ],
    };
    let styled = style_tree(&doc, &sheet);
    let root = layout_tree(&styled, viewport()).unwrap();
    assert_eq!(root.dimensions.x, 10 * PX);
    assert_eq!(root.dimensions.y, 10 * PX);
    assert_eq!(root.dimensions.width, 780 * PX);
    let a = &root.children[0];
    assert_eq!(a.dimensions.x, 15 * PX);
    assert_eq!(a.dimensions.y, 10 * PX);
    assert_eq!(a.dimensions.width, 100 * PX);
    assert_eq!(a.dimensions.height, 4 * PX);
    let b = &a.children[0];
    assert_eq!(b.dimensions.x, 15 * PX);
    assert_eq!(b.dimensions.width, 100 * PX);
    assert_eq!(root.dimensions.height, 4 * PX);
}

#[test]
fn root_with_display_none_fails() {
    let doc = node("div", "root", vec![node("div", "a", vec![])]);
    let sheet = Stylesheet { rules: vec![by_id("root", vec![decl("display", keyword("none"))])] };
    let styled = style_tree(&doc, &sheet);
    assert_eq!(layout_tree(&styled, viewport()).err(), Some(LayoutError::RootDisplayNone));
    assert_eq!(build_layout_tree(&styled).err(), Some(LayoutError::RootDisplayNone));
}

#[test]
fn display_none_subtrees_are_left_out() {
    let doc = node(
        "div",
        "root",
        vec![
            node("div", "a", vec![]),
            node("div", "gone", vec![node("div", "b", vec![])]),
            node("div", "c", vec![]),
        ],
    );
    let sheet = Stylesheet {
        rules: vec![by_tag("div", vec![block()]), by_id("gone", vec![decl("display", keyword("none"))])],
    };
    let styled = style_tree(&doc, &sheet);
    let root = build_layout_tree(&styled).unwrap();
    assert_eq!(root.children.len(), 2);
    assert!(std::ptr::eq(root.children[1].get_style_node().unwrap(), &styled.children[2]));
    assert_eq!(geometry(&root).len(), 3);
}

#[test]
fn inline_runs_share_one_anonymous_box() {
    let doc = node(
        "div",
        "root",
        vec![
            text("a".to_string()),
            node("span", "s", vec![]),
            node("div", "d", vec![]),
            text("b".to_string()),
            node("p", "gone", vec![]),
            text("c".to_string()),
        ],
    );
    let sheet = Stylesheet {
        rules: vec![by_tag("div", vec![block()]), by_id("gone", vec![decl("display", keyword("none"))])],
    };
    let styled = style_tree(&doc, &sheet);
    let root = build_layout_tree(&styled).unwrap();
    let kinds: Vec<&str> = root.children.iter().map(kind).collect();
    assert_eq!(kinds, vec!["anonymous", "block", "anonymous"]);
    assert_eq!(root.children[0].children.len(), 2);
    assert_eq!(kind(&root.children[0].children[0]), "inline");
    assert_eq!(root.children[2].children.len(), 2);
    assert_eq!(root.children[0].get_style_node().err(), Some(LayoutError::NoStyleNode));
    assert_eq!(root.children[0].dimensions, Dimensions::default());
}

#[test]
fn inline_parent_takes_children_directly() {
    let doc = node("span", "root", vec![text("a".to_string()), node("div", "d", vec![])]);
    let sheet = Stylesheet { rules: vec![by_tag("div", vec![block()])] };
    let styled = style_tree(&doc, &sheet);
    let root = layout_tree(&styled, viewport()).unwrap();
    assert_eq!(kind(&root), "inline");
    let kinds: Vec<&str> = root.children.iter().map(kind).collect();
    assert_eq!(kinds, vec!["inline", "block"]);
    // Inline boxes are not laid out, nor is anything below them.
    assert!(geometry(&root).iter().all(|d| *d == Dimensions::default()));
}

#[test]
fn anonymous_and_inline_boxes_keep_zero_geometry() {
    let doc = node("div", "root", vec![text("a".to_string()), node("div", "d", vec![])]);
    let sheet = Stylesheet {
        rules: vec![by_tag("div", vec![block()]), by_id("d", vec![decl("height", px(3))])],
    };
    let styled = style_tree(&doc, &sheet);
    let root = layout_tree(&styled, viewport()).unwrap();
    assert_eq!(root.children[0].dimensions, Dimensions::default());
    assert_eq!(root.children[0].children[0].dimensions, Dimensions::default());
    assert_eq!(root.children[1].dimensions.y, 0);
    assert_eq!(root.dimensions.height, 3 * PX);
}

#[test]
fn layout_twice_gives_same_geometry() {
    let doc = node(
        "div",
        "root",
        vec![
            node("div", "a", vec![text("x".to_string())]),
            text("y".to_string()),
            node("div", "b", vec![node("div", "c", vec![])]),
        ],
    );
    let sheet = Stylesheet {
        rules: vec![
            by_tag("div", vec![block(), decl("padding", px(3))]),
            by_id("a", vec![decl("height", px(10)), decl("margin", keyword("auto")), decl("width", px(200))]),
            by_id("c", vec![decl("height", px(8))]),
        ],
    };
    let first_style = style_tree(&doc, &sheet);
    let first = layout_tree(&first_style, viewport()).unwrap();
    let second_style = style_tree(&doc, &sheet);
    let second = layout_tree(&second_style, viewport()).unwrap();
    assert_eq!(geometry(&first), geometry(&second));
    assert_eq!(geometry(&first).len(), 8);
}

#[test]
fn sizes_out_of_range_are_an_error() {
    let wide = single(
        vec![block(), decl("margin-left", Value::Length(i64::MIN, Unit::Px))],
        Dimensions { width: i64::MAX, ..Dimensions::default() },
    );
    assert_eq!(wide.err(), Some(LayoutError::OutOfRange));
    let low = single(
        vec![block()],
        Dimensions { y: i64::MAX, height: 1, ..Dimensions::default() },
    );
    assert_eq!(low.err(), Some(LayoutError::OutOfRange));
    let doc = node("div", "root", vec![node("div", "a", vec![]), node("div", "b", vec![])]);
    let sheet = Stylesheet {
        rules: vec![
            by_tag("div", vec![block()]),
            by_id("a", vec![decl("height", Value::Length(i64::MAX, Unit::Px))]),
            by_id("b", vec![decl("height", Value::Length(1, Unit::Px))]),
        ],
    };
    let styled = style_tree(&doc, &sheet);
    assert_eq!(layout_tree(&styled, viewport()).err(), Some(LayoutError::OutOfRange));
}

#[test]
fn margin_box_height_counts_padding_twice() {
    let d = Dimensions {
        height: 10,
        padding: EdgeSizes { left: 100, right: 100, top: 1, bottom: 2 },
        border: EdgeSizes { left: 100, right: 100, top: 100, bottom: 100 },
        margin: EdgeSizes { left: 100, right: 100, top: 100, bottom: 100 },
        ..Dimensions::default()
    };
    assert_eq!(d.margin_box_height(), 16);
}

#[test]
fn width_out_of_range_leaves_geometry_as_it_was() {
    let doc = node("div", "root", vec![]);
    let sheet = Stylesheet {
        rules: vec![by_id(
            "root",
            vec![block(), decl("padding", px(3)), decl("margin-left", Value::Length(i64::MIN, Unit::Px))],
        )],
    };
    let styled = style_tree(&doc, &sheet);
    let mut root = build_layout_tree(&styled).unwrap();
    let containing = Dimensions { width: i64::MAX, ..Dimensions::default() };
    assert_eq!(root.calculate_block_width(containing), Err(LayoutError::OutOfRange));
    assert_eq!(root.dimensions, Dimensions::default());
    assert_eq!(root.calculate_block_width(viewport()), Err(LayoutError::OutOfRange));
    assert_eq!(root.dimensions, Dimensions::default());
}

#[test]
fn position_out_of_range_leaves_geometry_as_it_was() {
    let doc = node("div", "root", vec![]);
    let sheet = Stylesheet {
        rules: vec![by_id("root", vec![block(), decl("margin", px(4)), decl("padding-top", px(2))])],
    };
    let styled = style_tree(&doc, &sheet);
    let mut root = build_layout_tree(&styled).unwrap();
    assert_eq!(root.calculate_block_width(viewport()), Ok(()));
    let sized = root.dimensions;
    assert_eq!(sized.width, 792 * PX);
    let low = Dimensions { y: i64::MAX, ..viewport() };
    assert_eq!(root.calculate_block_position(low), Err(LayoutError::OutOfRange));
    assert_eq!(root.dimensions, sized);
    let right = Dimensions { x: i64::MAX, ..viewport() };
    assert_eq!(root.calculate_block_position(right), Err(LayoutError::OutOfRange));
    assert_eq!(root.dimensions, sized);
    assert_eq!(root.calculate_block_position(viewport()), Ok(()));
    assert_eq!(root.dimensions.y, 6 * PX);
    assert_eq!(root.dimensions.x, 4 * PX);
}

#[test]
fn anonymous_box_has_no_width_or_position_of_its_own() {
    let doc = node("div", "root", vec![text("a".to_string())]);
    let sheet = Stylesheet { rules: vec![by_tag("div", vec![block()])] };
    let styled = style_tree(&doc, &sheet);
    let mut root = build_layout_tree(&styled).unwrap();
    let anonymous = &mut root.children[0];
    assert_eq!(anonymous.calculate_block_width(viewport()), Err(LayoutError::NoStyleNode));
    assert_eq!(anonymous.calculate_block_position(viewport()), Err(LayoutError::NoStyleNode));
    assert_eq!(anonymous.calculate_block_height(), Err(LayoutError::NoStyleNode));
    assert_eq!(anonymous.dimensions, Dimensions::default());
}

#[test]
fn failed_layout_keeps_the_boxes() {
    let doc = node(
        "div",
        "root",
        vec![node("div", "a", vec![text("x".to_string())]), node("div", "b", vec![])],
    );
    let sheet = Stylesheet {
        rules: vec![
            by_tag("div", vec![block()]),
            by_id("a", vec![decl("height", px(1))]),
            by_id("b", vec![decl("margin-top", Value::Length(i64::MAX, Unit::Px))]),
        ],
    };
    let styled = style_tree(&doc, &sheet);
    let mut root = build_layout_tree(&styled).unwrap();
    assert_eq!(root.layout(viewport()), Err(LayoutError::OutOfRange));
    assert_eq!(kind(&root), "block");
    let kinds: Vec<&str> = root.children.iter().map(kind).collect();
    assert_eq!(kinds, vec!["block", "block"]);
    assert_eq!(root.children[0].children.len(), 1);
    assert_eq!(kind(&root.children[0].children[0]), "anonymous");
    assert_eq!(geometry(&root).len(), 5);
    let mut again = build_layout_tree(&styled).unwrap();
    assert_eq!(again.layout_block(viewport()), Err(LayoutError::OutOfRange));
    let mut third = build_layout_tree(&styled).unwrap();
    assert_eq!(third.calculate_block_width(viewport()), Ok(()));
    assert_eq!(third.layout_block_children(), Err(LayoutError::OutOfRange));
    assert_eq!(third.children.len(), 2);
}
