//! What block layout guarantees: how the horizontal sizes of a box add up,
//! and that laying out the same document again gives the same geometry.

use crate::css::{Stylesheet, ValueView};
use crate::dom::Node;
use crate::layout::{
    built, built_children, children_laid_out, edge, given_total, is_auto, laid_out,
    lemma_same_shape_itself, positioned, same_shape, stacking_height, used_width, width_of,
    width_resolved, with_inline, BoxModel, BoxType, Dimensions,
};
use crate::style::{Display, StyledNode};
use vstd::prelude::*;

verus! {

/// The sum of the borders and paddings at the left and the right of a box.
pub open spec fn horizontal_edges(values: Map<Seq<char>, ValueView>) -> int {
    edge(values, "border-left-width"@, "border-width"@).px() + edge(
        values,
        "border-right-width"@,
        "border-width"@,
    ).px() + edge(values, "padding-left"@, "padding"@).px() + edge(
        values,
        "padding-right"@,
        "padding"@,
    ).px()
}

/// A box of width `auto` fills its containing block. Where the margins,
/// borders and paddings given leave room, the width takes all of it, and
/// with none of them given the width is that of the containing block.
pub proof fn lemma_auto_width_fills(values: Map<Seq<char>, ValueView>, containing_width: int)
    requires
        is_auto(width_of(values)),
        given_total(values) <= containing_width,
    ensures
        used_width(values, containing_width).width == containing_width - given_total(values),
        used_width(values, containing_width).margin_left == edge(
            values,
            "margin-left"@,
            "margin"@,
        ).px(),
        used_width(values, containing_width).margin_right == edge(
            values,
            "margin-right"@,
            "margin"@,
        ).px(),
        given_total(values) == 0 ==> used_width(values, containing_width).width
            == containing_width,
{
}

/// A box of given width between two `auto` margins is centred: where it
/// is not wider than its containing block, each margin is half of the room
/// that the width, the borders and the paddings leave.
pub proof fn lemma_auto_margins_center(values: Map<Seq<char>, ValueView>, containing_width: int)
    requires
        !is_auto(width_of(values)),
        is_auto(edge(values, "margin-left"@, "margin"@)),
        is_auto(edge(values, "margin-right"@, "margin"@)),
        given_total(values) <= containing_width,
    ensures
        used_width(values, containing_width).width == width_of(values).px(),
        used_width(values, containing_width).margin_left == (containing_width - width_of(
            values,
        ).px() - horizontal_edges(values)) / 2,
        used_width(values, containing_width).margin_right == used_width(
            values,
            containing_width,
        ).margin_left,
{
}

/// The horizontal sizes that a box uses add up to the width of its
/// containing block: margins, borders, paddings and width together. The one
/// exception is a centred box with an odd amount of room, whose two margins
/// are a unit short of it together.
pub proof fn lemma_used_width_adds_up(values: Map<Seq<char>, ValueView>, containing_width: int)
    ensures
        ({
            let used = used_width(values, containing_width);
            let sum = used.margin_left + used.margin_right + used.width + horizontal_edges(values);
            let centred = !is_auto(width_of(values)) && is_auto(
                edge(values, "margin-left"@, "margin"@),
            ) && is_auto(edge(values, "margin-right"@, "margin"@)) && given_total(values)
                <= containing_width;
            if centred && (containing_width - given_total(values)) % 2 == 1 {
                sum == containing_width - 1
            } else {
                sum == containing_width
            }
        }),
{
}

/// The used width of a box is never negative where the width is `auto`.
pub proof fn lemma_auto_width_not_negative(values: Map<Seq<char>, ValueView>, containing_width: int)
    requires
        is_auto(width_of(values)),
    ensures
        used_width(values, containing_width).width >= 0,
{
}

/// Whether two styled trees have the same shape and, node for node, the
/// same resolved properties.
pub open spec fn same_style(a: &StyledNode, b: &StyledNode) -> bool
    decreases a,
{
    &&& a.values() == b.values()
    &&& a.children@.len() == b.children@.len()
    &&& forall|i: int|
        0 <= i < a.children@.len() ==> same_style(
            #[trigger] &a.children@[i],
            &b.children@[i],
        )
}

/// Whether two boxes stand for nodes of the same properties, or are both
/// anonymous.
pub open spec fn same_kind(a: BoxType, b: BoxType) -> bool {
    match (a, b) {
        (BoxType::BlockNode(s), BoxType::BlockNode(t)) => s.values() == t.values(),
        (BoxType::InlineNode(s), BoxType::InlineNode(t)) => s.values() == t.values(),
        (BoxType::AnonymousBlock, BoxType::AnonymousBlock) => true,
        _ => false,
    }
}

/// Whether two box trees have the same shape and, box for box, the same
/// kind and the same geometry.
pub open spec fn same_boxes(a: BoxModel, b: BoxModel) -> bool
    decreases a,
{
    &&& a.dimensions == b.dimensions
    &&& same_kind(a.box_type, b.box_type)
    &&& same_box_lists(a.children, b.children)
}

/// Whether two lists of box trees are alike, tree for tree.
pub open spec fn same_box_lists(a: Seq<BoxModel>, b: Seq<BoxModel>) -> bool
    decreases a,
{
    &&& a.len() == b.len()
    &&& forall|i: int| 0 <= i < a.len() ==> same_boxes(#[trigger] a[i], b[i])
}

/// Two stylings of one document under one stylesheet are alike.
pub proof fn lemma_styles_same(a: &StyledNode, b: &StyledNode, root: &Node, stylesheet: &Stylesheet)
    requires
        a.styles(root, stylesheet),
        b.styles(root, stylesheet),
    ensures
        same_style(a, b),
    decreases a,
{
    assert forall|i: int| 0 <= i < a.children@.len() implies same_style(
        #[trigger] &a.children@[i],
        &b.children@[i],
    ) by {
        lemma_styles_same(&a.children@[i], &b.children@[i], &root.children@[i], stylesheet);
    }
}

/// Styled trees that are alike give box trees that are alike.
pub proof fn lemma_built_same<'a, 'b>(a: &'a StyledNode<'a>, b: &'b StyledNode<'b>)
    requires
        same_style(a, b),
    ensures
        same_boxes(built(a), built(b)),
    decreases a, a.children@.len() + 1,
{
    lemma_built_children_same(a, b, a.children@.len() as int);
}

/// Styled trees that are alike give the same child boxes, up to any child.
pub proof fn lemma_built_children_same<'a, 'b>(
    a: &'a StyledNode<'a>,
    b: &'b StyledNode<'b>,
    upto: int,
)
    requires
        same_style(a, b),
        0 <= upto <= a.children@.len(),
    ensures
        same_box_lists(built_children(a, upto), built_children(b, upto)),
    decreases a, upto,
{
    if upto > 0 {
        lemma_built_children_same(a, b, upto - 1);
        let before_a = built_children(a, upto - 1);
        let before_b = built_children(b, upto - 1);
        let child_a = &a.children@[upto - 1];
        let child_b = &b.children@[upto - 1];
        assert(same_style(child_a, child_b));
        lemma_built_same(child_a, child_b);
        let made_a = built(child_a);
        let made_b = built(child_b);
        if child_a.display_spec() == Display::Inline && a.display_spec() == Display::Block {
            lemma_with_inline_same(before_a, before_b, made_a, made_b);
        }
    }
}

/// Adding like inline boxes to like lists of boxes gives like lists.
pub proof fn lemma_with_inline_same(a: Seq<BoxModel>, b: Seq<BoxModel>, x: BoxModel, y: BoxModel)
    requires
        same_box_lists(a, b),
        same_boxes(x, y),
    ensures
        same_box_lists(with_inline(a, x), with_inline(b, y)),
{
    if a.len() > 0 {
        assert(same_boxes(a[a.len() - 1], b[b.len() - 1]));
    }
    if a.len() > 0 && a.last().box_type is AnonymousBlock {
        let last_a = a.last();
        let last_b = b.last();
        assert(same_box_lists(last_a.children, last_b.children));
        assert(same_box_lists(last_a.children.push(x), last_b.children.push(y)));
    } else {
        assert(same_box_lists(seq![x], seq![y]));
    }
}

/// Whether two outcomes of a layout are alike: both fail, or both give
/// box trees that are alike.
pub open spec fn same_outcome(a: Option<BoxModel>, b: Option<BoxModel>) -> bool {
    match (a, b) {
        (Some(x), Some(y)) => same_boxes(x, y),
        (None, None) => true,
        _ => false,
    }
}

/// Box trees that are alike are laid out alike in one containing block.
pub proof fn lemma_laid_out_same(a: BoxModel, b: BoxModel, containing_block: Dimensions)
    requires
        same_boxes(a, b),
    ensures
        same_outcome(laid_out(a, containing_block), laid_out(b, containing_block)),
    decreases a, 0int,
{
    match a.box_type {
        BoxType::BlockNode(style) => {
            let values = style.values();
            match width_resolved(a.dimensions, values, containing_block) {
                None => {},
                Some(sized) => match positioned(sized, values, containing_block) {
                    None => {},
                    Some(placed) => {
                        lemma_children_laid_out_same(
                            a.children,
                            b.children,
                            placed,
                            a.children.len() as int,
                        );
                    },
                },
            }
        },
        _ => {},
    }
}

/// Lists of box trees that are alike are laid out alike inside one box.
pub proof fn lemma_children_laid_out_same(
    a: Seq<BoxModel>,
    b: Seq<BoxModel>,
    d: Dimensions,
    upto: int,
)
    requires
        same_box_lists(a, b),
        0 <= upto <= a.len(),
    ensures
        match (children_laid_out(a, d, upto), children_laid_out(b, d, upto)) {
            (Some((x, dx)), Some((y, dy))) => same_box_lists(x, y) && dx == dy,
            (None, None) => true,
            _ => false,
        },
    decreases a, upto,
{
    if upto > 0 {
        lemma_children_laid_out_same(a, b, d, upto - 1);
        match children_laid_out(a, d, upto - 1) {
            None => {},
            Some((done, so_far)) => {
                assert(same_boxes(a[upto - 1], b[upto - 1]));
                lemma_laid_out_same(a[upto - 1], b[upto - 1], so_far);
            },
        }
    }
}

/// Laying out a document again gives the same geometry. Two stylings of
/// one document under one stylesheet, laid out in one containing block,
/// either both fail or give box trees of the same shape with, box for box,
/// the same kind and the same geometry.
pub proof fn lemma_layout_repeatable<'a, 'b>(
    first: &'a StyledNode<'a>,
    second: &'b StyledNode<'b>,
    root: &Node,
    stylesheet: &Stylesheet,
    containing_block: Dimensions,
)
    requires
        first.styles(root, stylesheet),
        second.styles(root, stylesheet),
    ensures
        first.display_spec() == second.display_spec(),
        same_outcome(
            laid_out(built(first), containing_block),
            laid_out(built(second), containing_block),
        ),
{
    lemma_styles_same(first, second, root, stylesheet);
    lemma_built_same(first, second);
    lemma_laid_out_same(built(first), built(second), containing_block);
}

/// Layout changes geometry only: a box tree that is laid out keeps its
/// boxes, what they stand for and their order.
pub proof fn lemma_layout_keeps_shape(b: BoxModel, containing_block: Dimensions)
    ensures
        laid_out(b, containing_block) matches Some(out) ==> same_shape(b, out),
        !(b.box_type is BlockNode) ==> laid_out(b, containing_block) == Some(b),
    decreases b, 0int,
{
    match b.box_type {
        BoxType::BlockNode(style) => {
            let values = style.values();
            match width_resolved(b.dimensions, values, containing_block) {
                None => {},
                Some(sized) => match positioned(sized, values, containing_block) {
                    None => {},
                    Some(placed) => {
                        lemma_children_keep_shape(b.children, placed, b.children.len() as int);
                    },
                },
            }
        },
        _ => {
            lemma_same_shape_itself(b);
        },
    }
}

/// Children that are laid out keep their number, their order and their
/// shapes.
pub proof fn lemma_children_keep_shape(kids: Seq<BoxModel>, d: Dimensions, upto: int)
    requires
        0 <= upto <= kids.len(),
    ensures
        children_laid_out(kids, d, upto) matches Some((done, _)) ==> done.len() == upto
            && forall|i: int| 0 <= i < upto ==> same_shape(#[trigger] kids[i], done[i]),
    decreases kids, upto,
{
    if upto > 0 {
        lemma_children_keep_shape(kids, d, upto - 1);
        match children_laid_out(kids, d, upto - 1) {
            None => {},
            Some((done, so_far)) => {
                lemma_layout_keeps_shape(kids[upto - 1], so_far);
            },
        }
    }
}

/// The number of nodes of a styled tree that take part in layout: the
/// node itself and, of its first `upto` children, those that do not have
/// display none, each with the nodes below it counted in the same way.
pub open spec fn visible_below(node: &StyledNode, upto: int) -> int
    decreases node, upto,
{
    if upto <= 0 || upto > node.children@.len() {
        0
    } else {
        let child = &node.children@[upto - 1];
        visible_below(node, upto - 1) + if child.display_spec() == Display::DisplayNone {
            0
        } else {
            1 + visible_below(child, child.children@.len() as int)
        }
    }
}

/// The number of boxes in a box tree that stand for a node.
pub open spec fn node_boxes(b: BoxModel) -> int
    decreases b, b.children.len() + 1,
{
    (if b.box_type is AnonymousBlock { 0int } else { 1int }) + node_boxes_in(b.children, b.children.len() as int)
}

/// The number of boxes that stand for a node in the first `upto` trees of a list.
pub open spec fn node_boxes_in(boxes: Seq<BoxModel>, upto: int) -> int
    decreases boxes, upto,
{
    if upto <= 0 || upto > boxes.len() {
        0
    } else {
        node_boxes_in(boxes, upto - 1) + node_boxes(boxes[upto - 1])
    }
}

/// The count over the first entries of a list depends on those entries only.
proof fn lemma_node_boxes_prefix(a: Seq<BoxModel>, b: Seq<BoxModel>, upto: int)
    requires
        0 <= upto <= a.len(),
        upto <= b.len(),
        forall|i: int| 0 <= i < upto ==> a[i] == b[i],
    ensures
        node_boxes_in(a, upto) == node_boxes_in(b, upto),
    decreases upto,
{
    if upto > 0 {
        lemma_node_boxes_prefix(a, b, upto - 1);
    }
}

/// One more inline box under a block box is that many more node boxes.
proof fn lemma_with_inline_count(boxes: Seq<BoxModel>, child: BoxModel)
    ensures
        node_boxes_in(with_inline(boxes, child), with_inline(boxes, child).len() as int)
            == node_boxes_in(boxes, boxes.len() as int) + node_boxes(child),
{
    let now = with_inline(boxes, child);
    let n = boxes.len() as int;
    if boxes.len() > 0 && boxes.last().box_type is AnonymousBlock {
        let last = boxes.last();
        let grown = now[n - 1];
        let m = last.children.len() as int;
        lemma_node_boxes_prefix(now, boxes, n - 1);
        lemma_node_boxes_prefix(grown.children, last.children, m);
        assert(grown.children[m] == child);
        assert(grown.children.len() == m + 1);
        assert(node_boxes_in(grown.children, m + 1) == node_boxes_in(grown.children, m)
            + node_boxes(child));
        assert(node_boxes(grown) == node_boxes_in(grown.children, m + 1));
        assert(node_boxes(last) == node_boxes_in(last.children, m));
        assert(node_boxes_in(now, n) == node_boxes_in(now, n - 1) + node_boxes(grown));
        assert(node_boxes_in(boxes, n) == node_boxes_in(boxes, n - 1) + node_boxes(last));
    } else {
        lemma_node_boxes_prefix(now, boxes, n);
        let made = now[n];
        assert(made.children =~= seq![child]);
        assert(made.children[0] == child);
        assert(node_boxes_in(made.children, 0) == 0);
        assert(node_boxes_in(made.children, 1) == node_boxes_in(made.children, 0) + node_boxes(
            child,
        ));
        assert(node_boxes(made) == node_boxes_in(made.children, 1));
        assert(node_boxes_in(now, n + 1) == node_boxes_in(now, n) + node_boxes(made));
    }
}

/// The box tree leaves out exactly what has display none: it has one box
/// for the node and one for each node below it that is not under a node
/// with display none, besides its anonymous boxes.
pub proof fn lemma_built_counts_visible<'a>(node: &'a StyledNode<'a>)
    ensures
        node_boxes(built(node)) == 1 + visible_below(node, node.children@.len() as int),
    decreases node, node.children@.len() + 1,
{
    lemma_built_children_count(node, node.children@.len() as int);
}

/// The child boxes of the first `upto` children hold one box for each
/// node among and below them that takes part in layout.
pub proof fn lemma_built_children_count<'a>(node: &'a StyledNode<'a>, upto: int)
    requires
        0 <= upto <= node.children@.len(),
    ensures
        node_boxes_in(built_children(node, upto), built_children(node, upto).len() as int)
            == visible_below(node, upto),
    decreases node, upto,
{
    if upto > 0 {
        lemma_built_children_count(node, upto - 1);
        let before = built_children(node, upto - 1);
        let child = &node.children@[upto - 1];
        let now = built_children(node, upto);
        match child.display_spec() {
            Display::DisplayNone => {},
            Display::Block => {
                lemma_built_counts_visible(child);
                lemma_node_boxes_prefix(now, before, before.len() as int);
            },
            Display::Inline => {
                lemma_built_counts_visible(child);
                if node.display_spec() == Display::Block {
                    lemma_with_inline_count(before, built(child));
                } else {
                    lemma_node_boxes_prefix(now, before, before.len() as int);
                }
            },
        }
    }
}

/// Whether the child boxes of a block box are grouped as they should be:
/// each is a block box or an anonymous box, an anonymous box holds inline
/// boxes only and at least one, and no two anonymous boxes stand side by
/// side.
pub open spec fn inline_runs_grouped(boxes: Seq<BoxModel>) -> bool {
    &&& forall|i: int|
        0 <= i < boxes.len() ==> (#[trigger] boxes[i]).box_type is BlockNode || boxes[i].box_type is AnonymousBlock
    &&& forall|i: int|
        0 <= i < boxes.len() && (#[trigger] boxes[i]).box_type is AnonymousBlock
            ==> boxes[i].children.len() > 0 && forall|j: int|
            0 <= j < boxes[i].children.len() ==> (#[trigger] boxes[i].children[j]).box_type is InlineNode
    &&& forall|i: int|
        0 <= i < boxes.len() - 1 ==> !((#[trigger] boxes[i]).box_type is AnonymousBlock && boxes[i
            + 1].box_type is AnonymousBlock)
}

/// Under a block box every run of inline-level children shares one
/// anonymous box, and the block-level children stand between these.
pub proof fn lemma_inline_runs_grouped<'a>(node: &'a StyledNode<'a>, upto: int)
    requires
        node.display_spec() == Display::Block,
        0 <= upto <= node.children@.len(),
    ensures
        inline_runs_grouped(built_children(node, upto)),
    decreases upto,
{
    if upto > 0 {
        lemma_inline_runs_grouped(node, upto - 1);
        let before = built_children(node, upto - 1);
        let child = &node.children@[upto - 1];
        let made = built(child);
        let now = built_children(node, upto);
        match child.display_spec() {
            Display::DisplayNone => {},
            Display::Block => {
                assert(made.box_type is BlockNode);
                assert forall|i: int| 0 <= i < now.len() - 1 implies !((#[trigger] now[i]).box_type is AnonymousBlock
                    && now[i + 1].box_type is AnonymousBlock) by {
                    if i + 1 < before.len() {
                        assert(now[i] == before[i] && now[i + 1] == before[i + 1]);
                    }
                }
            },
            Display::Inline => {
                assert(made.box_type is InlineNode);
                if before.len() > 0 && before.last().box_type is AnonymousBlock {
                    let last = before.last();
                    assert forall|i: int| 0 <= i < now.len() - 1 implies !((#[trigger] now[i]).box_type is AnonymousBlock
                        && now[i + 1].box_type is AnonymousBlock) by {
                        if i + 1 < before.len() - 1 {
                            assert(now[i] == before[i] && now[i + 1] == before[i + 1]);
                        } else {
                            assert(now[i] == before[i]);
                            assert(before[i + 1].box_type is AnonymousBlock);
                        }
                    }
                    assert forall|i: int|
                        0 <= i < now.len() && (#[trigger] now[i]).box_type is AnonymousBlock implies now[i].children.len()
                        > 0 && forall|j: int|
                        0 <= j < now[i].children.len() ==> (#[trigger] now[i].children[j]).box_type is InlineNode by {
                        if i < before.len() - 1 {
                            assert(now[i] == before[i]);
                        } else {
                            assert forall|j: int| 0 <= j < now[i].children.len() implies (#[trigger] now[i].children[j]).box_type is InlineNode by {
                                if j < last.children.len() {
                                    assert(now[i].children[j] == last.children[j]);
                                }
                            }
                        }
                    }
                } else {
                    let anonymous = now[now.len() - 1];
                    assert(anonymous.children =~= seq![made]);
                    assert forall|i: int| 0 <= i < now.len() - 1 implies !((#[trigger] now[i]).box_type is AnonymousBlock
                        && now[i + 1].box_type is AnonymousBlock) by {
                        if i + 1 < before.len() {
                            assert(now[i] == before[i] && now[i + 1] == before[i + 1]);
                        } else {
                            assert(now[i] == before[i]);
                        }
                    }
                }
            },
        }
    }
}

/// The sum of the stacking heights of the first `upto` boxes of a list.
pub open spec fn stacked_height(boxes: Seq<BoxModel>, upto: int) -> int
    decreases upto,
{
    if upto <= 0 || upto > boxes.len() {
        0
    } else {
        stacked_height(boxes, upto - 1) + stacking_height(boxes[upto - 1].dimensions)
    }
}

/// The sum over the first boxes of a list depends on those boxes only.
proof fn lemma_stacked_height_prefix(a: Seq<BoxModel>, b: Seq<BoxModel>, upto: int)
    requires
        0 <= upto <= a.len(),
        upto <= b.len(),
        forall|i: int| 0 <= i < upto ==> a[i] == b[i],
    ensures
        stacked_height(a, upto) == stacked_height(b, upto),
    decreases upto,
{
    if upto > 0 {
        lemma_stacked_height_prefix(a, b, upto - 1);
    }
}

/// The geometry `d` with the stacking heights of the first `upto` boxes of
/// `done` added to its height.
pub open spec fn grown_by(d: Dimensions, done: Seq<BoxModel>, upto: int) -> Dimensions {
    Dimensions { height: (d.height + stacked_height(done, upto)) as i64, ..d }
}

/// Children stack. Where the children of a box are laid out, each child is
/// laid out against the geometry of the box with its height grown by the
/// stacking heights of the children before it, and the box ends with its
/// height grown by those of all of them. Nothing else of the geometry of the
/// box changes.
pub proof fn lemma_children_stack(kids: Seq<BoxModel>, d: Dimensions, upto: int)
    requires
        0 <= upto <= kids.len(),
    ensures
        children_laid_out(kids, d, upto) matches Some((done, grown)) ==> {
            &&& done.len() == upto
            &&& grown == grown_by(d, done, upto)
            &&& grown.height == d.height + stacked_height(done, upto)
            &&& forall|i: int|
                0 <= i < upto ==> {
                    &&& laid_out(#[trigger] kids[i], grown_by(d, done, i)) == Some(done[i])
                    &&& grown_by(d, done, i).height == d.height + stacked_height(done, i)
                }
        },
    decreases upto,
{
    if upto > 0 {
        lemma_children_stack(kids, d, upto - 1);
        match children_laid_out(kids, d, upto - 1) {
            None => {},
            Some((before, so_far)) => {
                match laid_out(kids[upto - 1], so_far) {
                    None => {},
                    Some(kid) => {
                        let height = so_far.height + stacking_height(kid.dimensions);
                        if i64::MIN <= height <= i64::MAX {
                            let done = before.push(kid);
                            assert forall|i: int| 0 <= i <= upto - 1 implies stacked_height(done, i)
                                == stacked_height(before, i) by {
                                lemma_stacked_height_prefix(done, before, i);
                            }
                            assert(stacked_height(done, upto) == stacked_height(done, upto - 1)
                                + stacking_height(kid.dimensions));
                            assert forall|i: int| 0 <= i < upto implies {
                                &&& laid_out(#[trigger] kids[i], grown_by(d, done, i)) == Some(
                                    done[i],
                                )
                                &&& grown_by(d, done, i).height == d.height + stacked_height(
                                    done,
                                    i,
                                )
                            } by {
                                if i < upto - 1 {
                                    assert(done[i] == before[i]);
                                    assert(grown_by(d, done, i) == grown_by(d, before, i));
                                } else {
                                    assert(grown_by(d, done, i) == so_far);
                                }
                            }
                        }
                    },
                }
            },
        }
    }
}

/// Where a block box comes to stand. A block box that is laid out has the
/// used width for its properties; its content area begins to the right of
/// the left edge of the containing block by its left margin, border and
/// padding, and below the top of the containing block by the height that
/// the containing block has so far and by its top margin, border and
/// padding.
pub proof fn lemma_block_position(b: BoxModel, containing_block: Dimensions)
    requires
        b.box_type is BlockNode,
    ensures
        laid_out(b, containing_block) matches Some(out) ==> {
            let values = b.box_type->BlockNode_0.values();
            let d = out.dimensions;
            &&& d.width == used_width(values, containing_block.width as int).width
            &&& d.margin.left == used_width(values, containing_block.width as int).margin_left
            &&& d.margin.right == used_width(values, containing_block.width as int).margin_right
            &&& d.x == containing_block.x + d.margin.left + d.border.left + d.padding.left
            &&& d.y == containing_block.y + containing_block.height + d.margin.top + d.border.top
                + d.padding.top
        },
{
    let values = b.box_type->BlockNode_0.values();
    match width_resolved(b.dimensions, values, containing_block) {
        None => {},
        Some(sized) => match positioned(sized, values, containing_block) {
            None => {},
            Some(placed) => {
                lemma_children_stack(b.children, placed, b.children.len() as int);
            },
        },
    }
}

/// Block children stand one below the other. Where the children of a box
/// are laid out, a child that is a block box has its content area below the
/// top of the box by the height that the box had before, by the stacking
/// heights of the children before it, and by its own top margin, border and
/// padding.
pub proof fn lemma_block_children_stack(kids: Seq<BoxModel>, d: Dimensions, at: int)
    requires
        0 <= at < kids.len(),
        kids[at].box_type is BlockNode,
    ensures
        children_laid_out(kids, d, kids.len() as int) matches Some((done, _)) ==> done.len()
            == kids.len() && done[at].dimensions.y == d.y + d.height + stacked_height(done, at)
            + done[at].dimensions.margin.top + done[at].dimensions.border.top
            + done[at].dimensions.padding.top,
{
    lemma_children_stack(kids, d, kids.len() as int);
    match children_laid_out(kids, d, kids.len() as int) {
        None => {},
        Some((done, _)) => {
            assert(laid_out(kids[at], grown_by(d, done, at)) == Some(done[at]));
            lemma_block_position(kids[at], grown_by(d, done, at));
        },
    }
}

} // verus!
