//! Block layout: the tree of boxes for a styled tree, and the geometry of
//! each block box inside its containing block.
//!
//! All sizes are whole numbers of layout units.

use crate::css::{Unit, Value, ValueView};
use crate::style::{lookup_of, Display, StyledNode};
use vstd::prelude::*;

verus! {

/// The sizes of the four edges of a box.
#[derive(Debug, Clone, Copy, PartialEq, Eq, Structural)]
pub struct EdgeSizes {
    pub left: i64,
    pub right: i64,
    pub top: i64,
    pub bottom: i64,
}

/// The geometry of a box: its content area and the edges around it.
#[derive(Debug, Clone, Copy, PartialEq, Eq, Structural)]
pub struct Dimensions {
    /// The left edge of the content area, from the document origin.
    pub x: i64,
    /// The top edge of the content area, from the document origin.
    pub y: i64,
    /// The width of the content area.
    pub width: i64,
    /// The height of the content area.
    pub height: i64,
    pub padding: EdgeSizes,
    pub border: EdgeSizes,
    pub margin: EdgeSizes,
}

/// A box of the layout tree.
#[derive(Debug)]
pub struct LayoutBox<'a> {
    pub dimensions: Dimensions,
    pub box_type: BoxType<'a>,
    pub children: Vec<LayoutBox<'a>>,
}

/// What a box stands for: a block-level node, an inline-level node, or a
/// generated container for a run of inline-level boxes.
#[derive(Debug, Clone, Copy)]
pub enum BoxType<'a> {
    BlockNode(&'a StyledNode<'a>),
    InlineNode(&'a StyledNode<'a>),
    AnonymousBlock,
}

/// Why a layout could not be made.
#[derive(Debug, Clone, Copy, PartialEq, Eq, Structural)]
pub enum LayoutError {
    /// The root of the styled tree has `display: none`.
    RootDisplayNone,
    /// The style node of an anonymous box was asked for.
    NoStyleNode,
    /// A position or size does not fit the range of a coordinate.
    OutOfRange,
}

/// A layout tree as a value: each box with its geometry, what it stands
/// for, and its children in order.
pub struct BoxModel<'a> {
    pub dimensions: Dimensions,
    pub box_type: BoxType<'a>,
    pub children: Seq<BoxModel<'a>>,
}

impl EdgeSizes {
    /// Edges without size.
    pub open spec fn zero() -> EdgeSizes {
        EdgeSizes { left: 0, right: 0, top: 0, bottom: 0 }
    }
}

impl Default for EdgeSizes {
    fn default() -> (res: EdgeSizes)
        ensures
            res == EdgeSizes::zero(),
    {
        EdgeSizes { left: 0, right: 0, top: 0, bottom: 0 }
    }
}

impl Dimensions {
    /// The geometry of a box that has not been laid out: all zero.
    pub open spec fn zero() -> Dimensions {
        Dimensions {
            x: 0,
            y: 0,
            width: 0,
            height: 0,
            padding: EdgeSizes::zero(),
            border: EdgeSizes::zero(),
            margin: EdgeSizes::zero(),
        }
    }
}

impl Default for Dimensions {
    fn default() -> (res: Dimensions)
        ensures
            res == Dimensions::zero(),
    {
        Dimensions {
            x: 0,
            y: 0,
            width: 0,
            height: 0,
            padding: EdgeSizes::default(),
            border: EdgeSizes::default(),
            margin: EdgeSizes::default(),
        }
    }
}

impl<'a> LayoutBox<'a> {
    /// The box as a value, with its children as values.
    pub open spec fn model(self) -> BoxModel<'a>
        decreases self,
    {
        BoxModel {
            dimensions: self.dimensions,
            box_type: self.box_type,
            children: Seq::new(
                self.children@.len(),
                |i: int|
                    if 0 <= i < self.children@.len() {
                        self.children@[i].model()
                    } else {
                        arbitrary()
                    },
            ),
        }
    }
}

impl<'a> View for LayoutBox<'a> {
    type V = BoxModel<'a>;

    open spec fn view(&self) -> BoxModel<'a> {
        self.model()
    }
}

/// The views of a list of boxes.
pub open spec fn models_of<'a>(boxes: Seq<LayoutBox<'a>>) -> Seq<BoxModel<'a>> {
    Seq::new(boxes.len(), |i: int| boxes[i]@)
}

/// A box as a value holds the geometry and the type of the box, and its
/// children as values.
pub proof fn lemma_view<'a>(b: LayoutBox<'a>)
    ensures
        b@.dimensions == b.dimensions,
        b@.box_type == b.box_type,
        b@.children == models_of(b.children@),
{
    assert(b@.children.len() == b.children@.len());
    assert forall|i: int| 0 <= i < b.children@.len() implies b@.children[i] == b.children@[i]@ by {}
    assert(b@.children =~= models_of(b.children@));
}

/// A box that has not been laid out: no geometry yet.
pub open spec fn fresh<'a>(box_type: BoxType<'a>, children: Seq<BoxModel<'a>>) -> BoxModel<'a> {
    BoxModel { dimensions: Dimensions::zero(), box_type, children }
}

/// The boxes `boxes` after an inline-level box was added under a block
/// box: it joins the anonymous box at the end, and where the last box is
/// none, or there is no box yet, a new anonymous box is made for it.
pub open spec fn with_inline<'a>(boxes: Seq<BoxModel<'a>>, child: BoxModel<'a>) -> Seq<
    BoxModel<'a>,
> {
    if boxes.len() > 0 && boxes.last().box_type is AnonymousBlock {
        boxes.update(
            boxes.len() - 1,
            BoxModel {
                dimensions: boxes.last().dimensions,
                box_type: boxes.last().box_type,
                children: boxes.last().children.push(child),
            },
        )
    } else {
        boxes.push(fresh(BoxType::AnonymousBlock, seq![child]))
    }
}

/// The box tree for a styled node, before any geometry is computed. The
/// node becomes a block box if its display is block and an inline box
/// otherwise; its children follow as `built_children` says.
pub open spec fn built<'a>(node: &'a StyledNode<'a>) -> BoxModel<'a>
    decreases node, node.children@.len() + 1,
{
    fresh(
        if node.display_spec() == Display::Block {
            BoxType::BlockNode(node)
        } else {
            BoxType::InlineNode(node)
        },
        built_children(node, node.children@.len() as int),
    )
}

/// The child boxes that the first `upto` children of `node` give. A child
/// with display none gives nothing, with all below it. A block child gives
/// its box. An inline child gives its box too, which under a block parent
/// goes into an anonymous box shared with the inline children next to it.
pub open spec fn built_children<'a>(node: &'a StyledNode<'a>, upto: int) -> Seq<BoxModel<'a>>
    decreases node, upto,
{
    if upto <= 0 || upto > node.children@.len() {
        Seq::empty()
    } else {
        let before = built_children(node, upto - 1);
        let child = &node.children@[upto - 1];
        match child.display_spec() {
            Display::DisplayNone => before,
            Display::Block => before.push(built(child)),
            Display::Inline => if node.display_spec() == Display::Block {
                with_inline(before, built(child))
            } else {
                before.push(built(child))
            },
        }
    }
}

/// Whether a size fits the range of a coordinate.
pub open spec fn fits(x: int) -> bool {
    i64::MIN <= x <= i64::MAX
}

/// Whether a value is the keyword `auto`.
pub open spec fn is_auto(value: ValueView) -> bool {
    value.is_keyword("auto"@)
}

/// The value of an edge property: that of `name`, else that of the
/// shorthand, else a length of zero.
pub open spec fn edge(values: Map<Seq<char>, ValueView>, name: Seq<char>, shorthand: Seq<char>) -> ValueView {
    lookup_of(values, name, shorthand, ValueView::Length(0))
}

/// The value of `width`, which is `auto` where the property is absent.
pub open spec fn width_of(values: Map<Seq<char>, ValueView>) -> ValueView {
    if values.contains_key("width"@) {
        values["width"@]
    } else {
        ValueView::Keyword("auto"@)
    }
}

/// The sum of the horizontal sizes as they are given, each `auto` and each
/// value that is no length counting as zero.
pub open spec fn given_total(values: Map<Seq<char>, ValueView>) -> int {
    edge(values, "margin-left"@, "margin"@).px() + edge(values, "margin-right"@, "margin"@).px()
        + edge(values, "border-left-width"@, "border-width"@).px() + edge(
        values,
        "border-right-width"@,
        "border-width"@,
    ).px() + edge(values, "padding-left"@, "padding"@).px() + edge(
        values,
        "padding-right"@,
        "padding"@,
    ).px() + width_of(values).px()
}

/// The content width and the two horizontal margins that a block box uses.
pub struct UsedWidth {
    pub width: int,
    pub margin_left: int,
    pub margin_right: int,
}

/// The width and horizontal margins of a block box with the properties
/// `values` in a containing block of the width `containing_width`.
///
/// The free space is the containing width less the sum of the sizes as
/// given. A width of `auto` takes the free space, or is zero where the
/// free space is negative, which then goes to the right margin; `auto`
/// margins are zero beside it. With the width given, an `auto` margin takes
/// the free space, two of them half of it each, and with no `auto` at all
/// the free space is added to the right margin. Where the width is given
/// and the sizes together are wider than the containing block, `auto`
/// margins count as zero.
pub open spec fn used_width(values: Map<Seq<char>, ValueView>, containing_width: int) -> UsedWidth {
    let width = width_of(values);
    let margin_left = edge(values, "margin-left"@, "margin"@);
    let margin_right = edge(values, "margin-right"@, "margin"@);
    let total = given_total(values);
    let too_wide = !is_auto(width) && total > containing_width;
    let left_auto = is_auto(margin_left) && !too_wide;
    let right_auto = is_auto(margin_right) && !too_wide;
    let underflow = containing_width - total;
    if is_auto(width) {
        if underflow >= 0 {
            UsedWidth {
                width: underflow,
                margin_left: margin_left.px(),
                margin_right: margin_right.px(),
            }
        } else {
            UsedWidth {
                width: 0,
                margin_left: margin_left.px(),
                margin_right: margin_right.px() + underflow,
            }
        }
    } else if left_auto && right_auto {
        UsedWidth { width: width.px(), margin_left: underflow / 2, margin_right: underflow / 2 }
    } else if left_auto {
        UsedWidth { width: width.px(), margin_left: underflow, margin_right: margin_right.px() }
    } else if right_auto {
        UsedWidth { width: width.px(), margin_left: margin_left.px(), margin_right: underflow }
    } else {
        UsedWidth {
            width: width.px(),
            margin_left: margin_left.px(),
            margin_right: margin_right.px() + underflow,
        }
    }
}

/// The geometry `d` with the width and the horizontal edges that the
/// properties `values` give in the containing block `containing_block`, or
/// `None` where one of them does not fit.
pub open spec fn width_resolved(
    d: Dimensions,
    values: Map<Seq<char>, ValueView>,
    containing_block: Dimensions,
) -> Option<Dimensions> {
    let used = used_width(values, containing_block.width as int);
    if fits(used.width) && fits(used.margin_left) && fits(used.margin_right) {
        Some(
            Dimensions {
                width: used.width as i64,
                padding: EdgeSizes {
                    left: edge(values, "padding-left"@, "padding"@).px() as i64,
                    right: edge(values, "padding-right"@, "padding"@).px() as i64,
                    ..d.padding
                },
                border: EdgeSizes {
                    left: edge(values, "border-left-width"@, "border-width"@).px() as i64,
                    right: edge(values, "border-right-width"@, "border-width"@).px() as i64,
                    ..d.border
                },
                margin: EdgeSizes {
                    left: used.margin_left as i64,
                    right: used.margin_right as i64,
                    ..d.margin
                },
                ..d
            },
        )
    } else {
        None
    }
}

/// The geometry `d` with the vertical edges that the properties `values`
/// give and with its content area placed in the containing block: to the
/// right of the left edges, and below what the containing block holds so
/// far. `None` where a coordinate does not fit.
pub open spec fn positioned(
    d: Dimensions,
    values: Map<Seq<char>, ValueView>,
    containing_block: Dimensions,
) -> Option<Dimensions> {
    let margin_top = edge(values, "margin-top"@, "margin"@).px();
    let border_top = edge(values, "border-top-width"@, "border-width"@).px();
    let padding_top = edge(values, "padding-top"@, "padding"@).px();
    let x = containing_block.x + d.margin.left + d.border.left + d.padding.left;
    let y = containing_block.y + containing_block.height + margin_top + border_top + padding_top;
    if fits(x) && fits(y) {
        Some(
            Dimensions {
                x: x as i64,
                y: y as i64,
                padding: EdgeSizes {
                    top: padding_top as i64,
                    bottom: edge(values, "padding-bottom"@, "padding"@).px() as i64,
                    ..d.padding
                },
                border: EdgeSizes {
                    top: border_top as i64,
                    bottom: edge(values, "border-bottom-width"@, "border-width"@).px() as i64,
                    ..d.border
                },
                margin: EdgeSizes {
                    top: margin_top as i64,
                    bottom: edge(values, "margin-bottom"@, "margin"@).px() as i64,
                    ..d.margin
                },
                ..d
            },
        )
    } else {
        None
    }
}

/// The geometry `d` with the height that the properties give, where
/// `height` is a length, and `d` as it is otherwise.
pub open spec fn height_resolved(d: Dimensions, values: Map<Seq<char>, ValueView>) -> Dimensions {
    if values.contains_key("height"@) {
        match values["height"@] {
            ValueView::Length(h) => Dimensions { height: h, ..d },
            _ => d,
        }
    } else {
        d
    }
}

/// By how much a laid-out box moves what follows it downwards: its content
/// height and twice its vertical padding.
pub open spec fn stacking_height(d: Dimensions) -> int {
    d.height + d.padding.top + d.padding.bottom + d.padding.top + d.padding.bottom
}

/// The box `b` laid out in the containing block `containing_block`, or
/// `None` where some coordinate in it does not fit. A block box gets its
/// width and horizontal edges, then its position, then its children are
/// laid out inside it one below the other, and at last its height. An
/// inline or anonymous box is left as it is.
pub open spec fn laid_out<'a>(b: BoxModel<'a>, containing_block: Dimensions) -> Option<BoxModel<'a>>
    decreases b, 0int,
{
    match b.box_type {
        BoxType::BlockNode(style) => {
            let values = style.values();
            match width_resolved(b.dimensions, values, containing_block) {
                None => None,
                Some(sized) => match positioned(sized, values, containing_block) {
                    None => None,
                    Some(placed) => match children_laid_out(
                        b.children,
                        placed,
                        b.children.len() as int,
                    ) {
                        None => None,
                        Some((children, grown)) => Some(
                            BoxModel {
                                dimensions: height_resolved(grown, values),
                                box_type: b.box_type,
                                children,
                            },
                        ),
                    },
                },
            }
        },
        _ => Some(b),
    }
}

/// The first `upto` of the boxes `kids` laid out in turn inside a box of
/// the geometry `d`, together with that geometry as it has grown: each
/// child is laid out against the geometry as the children before it left
/// it, and then adds its stacking height to the height. `None` where a
/// coordinate does not fit.
pub open spec fn children_laid_out<'a>(kids: Seq<BoxModel<'a>>, d: Dimensions, upto: int) -> Option<
    (Seq<BoxModel<'a>>, Dimensions),
>
    decreases kids, upto,
{
    if upto <= 0 || upto > kids.len() {
        Some((Seq::empty(), d))
    } else {
        match children_laid_out(kids, d, upto - 1) {
            None => None,
            Some((done, so_far)) => match laid_out(kids[upto - 1], so_far) {
                None => None,
                Some(kid) => {
                    let height = so_far.height + stacking_height(kid.dimensions);
                    if fits(height) {
                        Some((done.push(kid), Dimensions { height: height as i64, ..so_far }))
                    } else {
                        None
                    }
                },
            },
        }
    }
}

/// Whether two box trees have the same shape and, box for box, stand for
/// the same thing, whatever their geometry.
pub open spec fn same_shape(a: BoxModel, b: BoxModel) -> bool
    decreases a,
{
    &&& a.box_type == b.box_type
    &&& a.children.len() == b.children.len()
    &&& forall|i: int| 0 <= i < a.children.len() ==> same_shape(#[trigger] a.children[i], b.children[i])
}

/// A box tree has its own shape.
pub proof fn lemma_same_shape_itself(a: BoxModel)
    ensures
        same_shape(a, a),
    decreases a,
{
    assert forall|i: int| 0 <= i < a.children.len() implies same_shape(
        #[trigger] a.children[i],
        a.children[i],
    ) by {
        lemma_same_shape_itself(a.children[i]);
    }
}

/// Boxes of one type whose children have the same shapes, child for
/// child, have the same shape.
proof fn lemma_shape_from_children<'a>(a: LayoutBox<'a>, b: LayoutBox<'a>)
    requires
        a.box_type == b.box_type,
        a.children@.len() == b.children@.len(),
        forall|j: int|
            0 <= j < a.children@.len() ==> same_shape(a.children@[j]@, #[trigger] b.children@[j]@),
    ensures
        same_shape(a@, b@),
{
    lemma_view(a);
    lemma_view(b);
    assert forall|j: int| 0 <= j < a@.children.len() implies same_shape(
        #[trigger] a@.children[j],
        b@.children[j],
    ) by {
        assert(same_shape(a.children@[j]@, b.children@[j]@));
    }
}

/// A box whose type and children are kept has kept its shape.
proof fn lemma_shape_kept<'a>(a: LayoutBox<'a>, b: LayoutBox<'a>)
    requires
        a.box_type == b.box_type,
        a.children == b.children,
    ensures
        same_shape(a@, b@),
{
    assert forall|j: int| 0 <= j < a.children@.len() implies same_shape(
        a.children@[j]@,
        #[trigger] b.children@[j]@,
    ) by {
        lemma_same_shape_itself(a.children@[j]@);
    }
    lemma_shape_from_children(a, b);
}

/// The size `v` as a coordinate, where it fits.
fn narrow(v: i128) -> (res: Result<i64, LayoutError>)
    ensures
        match res {
            Ok(x) => fits(v as int) && x == v,
            Err(e) => !fits(v as int) && e == LayoutError::OutOfRange,
        },
{
    if v < i64::MIN as i128 || v > i64::MAX as i128 {
        Err(LayoutError::OutOfRange)
    } else {
        Ok(v as i64)
    }
}

impl Dimensions {
    /// By how much the box moves what follows it downwards: its content
    /// height and twice its vertical padding.
    pub fn margin_box_height(&self) -> (res: i128)
        ensures
            res == stacking_height(*self),
    {
        self.height as i128 + self.padding.top as i128 + self.padding.bottom as i128
            + self.padding.top as i128 + self.padding.bottom as i128
    }
}

/// Once some child cannot be laid out, no longer run of the children can.
proof fn lemma_children_fail_on<'a>(kids: Seq<BoxModel<'a>>, d: Dimensions, failed: int, upto: int)
    requires
        0 <= failed <= upto <= kids.len(),
        children_laid_out(kids, d, failed) is None,
    ensures
        children_laid_out(kids, d, upto) is None,
    decreases upto,
{
    if failed < upto {
        lemma_children_fail_on(kids, d, failed, upto - 1);
    }
}

impl<'a> LayoutBox<'a> {
    /// A box of the given type, without geometry and without children.
    pub fn new(box_type: BoxType<'a>) -> (res: LayoutBox<'a>)
        ensures
            res@ == fresh(box_type, Seq::empty()),
    {
        let res = LayoutBox { box_type: box_type, dimensions: Dimensions::default(), children: Vec::new() };
        assert(res@.children =~= Seq::<BoxModel<'a>>::empty());
        res
    }

    /// The styled node that a block or inline box stands for. An anonymous
    /// box has none.
    pub fn get_style_node(&self) -> (res: Result<&'a StyledNode<'a>, LayoutError>)
        ensures
            res == match self.box_type {
                BoxType::BlockNode(node) => Ok::<&'a StyledNode<'a>, LayoutError>(node),
                BoxType::InlineNode(node) => Ok(node),
                BoxType::AnonymousBlock => Err(LayoutError::NoStyleNode),
            },
    {
        match self.box_type {
            BoxType::BlockNode(node) => Ok(node),
            BoxType::InlineNode(node) => Ok(node),
            BoxType::AnonymousBlock => Err(LayoutError::NoStyleNode),
        }
    }

    /// Whether the last child is an anonymous box.
    pub open spec fn ends_in_anonymous(&self) -> bool {
        self.children@.len() > 0 && self.children@.last().box_type is AnonymousBlock
    }

    /// The box that a new inline-level child goes into. That is the box
    /// itself unless it is a block box; a block box hands out the anonymous
    /// box at the end of its children, which it first makes where its last
    /// child is none.
    pub fn get_inline_container(&mut self) -> (res: &mut LayoutBox<'a>)
        ensures
            !(old(self).box_type is BlockNode) ==> *res == *old(self) && *final(self) == *final(res),
            old(self).box_type is BlockNode ==> {
                &&& final(self).dimensions == old(self).dimensions
                &&& final(self).box_type == old(self).box_type
                &&& if old(self).ends_in_anonymous() {
                    &&& *res == old(self).children@.last()
                    &&& final(self).children@ == old(self).children@.update(
                        old(self).children@.len() - 1,
                        *final(res),
                    )
                } else {
                    &&& res@ == fresh(BoxType::AnonymousBlock, Seq::empty())
                    &&& final(self).children@ == old(self).children@.push(*final(res))
                }
            },
    {
        match self.box_type {
            BoxType::InlineNode(_) | BoxType::AnonymousBlock => self,
            BoxType::BlockNode(_) => {
                let n: usize = self.children.len();
                let anonymous = n > 0 && match self.children[n - 1].box_type {
                    BoxType::AnonymousBlock => true,
                    _ => false,
                };
                if !anonymous {
                    self.children.push(LayoutBox::new(BoxType::AnonymousBlock));
                }
                let last: usize = self.children.len() - 1;
                &mut self.children[last]
            },
        }
    }

    /// Lays out the box and everything below it in `containing_block`. Only
    /// a block box has a layout; an inline or anonymous box is left as it
    /// is, without geometry. Whether or not the layout can be made, the
    /// boxes, what they stand for and their order stay as they are.
    pub fn layout(&mut self, containing_block: Dimensions) -> (res: Result<(), LayoutError>)
        ensures
            same_shape(old(self)@, final(self)@),
            match res {
                Ok(()) => laid_out(old(self)@, containing_block) == Some(final(self)@),
                Err(e) => laid_out(old(self)@, containing_block) is None && e
                    == LayoutError::OutOfRange,
            },
        decreases old(self).children, 2int,
    {
        proof {
            lemma_same_shape_itself(self@);
        }
        match self.box_type {
            BoxType::BlockNode(_) => self.layout_block(containing_block),
            // Inline layout is not implemented: the box keeps what it has.
            BoxType::InlineNode(_) => Ok(()),
            // Nor is the layout of anonymous boxes.
            BoxType::AnonymousBlock => Ok(()),
        }
    }

    /// Lays out a block box: its width first, on which the widths of the
    /// children depend, then its position, then the children, and at last
    /// its height, which depends on theirs.
    pub fn layout_block(&mut self, containing_block: Dimensions) -> (res: Result<(), LayoutError>)
        requires
            old(self).box_type is BlockNode,
        ensures
            same_shape(old(self)@, final(self)@),
            match res {
                Ok(()) => laid_out(old(self)@, containing_block) == Some(final(self)@),
                Err(e) => laid_out(old(self)@, containing_block) is None && e
                    == LayoutError::OutOfRange,
            },
        decreases old(self).children, 1int,
    {
        proof {
            lemma_view(*self);
        }
        match self.calculate_block_width(containing_block) {
            Err(e) => {
                proof {
                    lemma_shape_kept(*old(self), *self);
                }
                return Err(e);
            },
            Ok(()) => {},
        }
        match self.calculate_block_position(containing_block) {
            Err(e) => {
                proof {
                    lemma_shape_kept(*old(self), *self);
                }
                return Err(e);
            },
            Ok(()) => {},
        }
        let ghost placed = *self;
        proof {
            lemma_view(*self);
        }
        match self.layout_block_children() {
            Err(e) => {
                proof {
                    lemma_view(*old(self));
                    lemma_view(placed);
                }
                return Err(e);
            },
            Ok(()) => {},
        }
        let ghost grown = *self;
        match self.calculate_block_height() {
            Err(e) => {
                return Err(e);
            },
            Ok(()) => {},
        }
        proof {
            lemma_view(*self);
            lemma_view(*old(self));
            lemma_view(placed);
            lemma_view(grown);
        }
        Ok(())
    }

    /// Lays out the children in order, each inside the box as it stands
    /// when the child's turn comes, and adds each child's stacking height to
    /// the height of the box, so that the next child comes below it.
    pub fn layout_block_children(&mut self) -> (res: Result<(), LayoutError>)
        ensures
            same_shape(old(self)@, final(self)@),
            match res {
                Ok(()) => {
                    &&& children_laid_out(
                        old(self)@.children,
                        old(self).dimensions,
                        old(self)@.children.len() as int,
                    ) == Some((final(self)@.children, final(self).dimensions))
                    &&& final(self).box_type == old(self).box_type
                },
                Err(e) => {
                    &&& children_laid_out(
                        old(self)@.children,
                        old(self).dimensions,
                        old(self)@.children.len() as int,
                    ) is None
                    &&& e == LayoutError::OutOfRange
                },
            },
        decreases old(self).children, 0int,
    {
        let n: usize = self.children.len();
        let mut i: usize = 0;
        let ghost kids = models_of(self.children@);
        let ghost start = self.dimensions;
        proof {
            lemma_view(*self);
            assert(models_of(self.children@).take(0) =~= Seq::<BoxModel<'a>>::empty());
            assert forall|j: int| 0 <= j < n implies same_shape(
                old(self).children@[j]@,
                #[trigger] self.children@[j]@,
            ) by {
                lemma_same_shape_itself(self.children@[j]@);
            }
        }
        while i < n
            invariant
                n == self.children@.len(),
                n == old(self).children@.len(),
                i <= n,
                kids == models_of(old(self).children@),
                kids == old(self)@.children,
                start == old(self).dimensions,
                self.box_type == old(self).box_type,
                forall|j: int| i <= j < n ==> self.children@[j] == old(self).children@[j],
                forall|j: int|
                    0 <= j < n ==> same_shape(old(self).children@[j]@, #[trigger] self.children@[j]@),
                children_laid_out(kids, start, i as int) == Some(
                    (models_of(self.children@).take(i as int), self.dimensions),
                ),
            decreases n - i,
        {
            let d = self.dimensions;
            let ghost before = models_of(self.children@);
            assert(self.children@[i as int] == old(self).children@[i as int]);
            assert(kids[i as int] == self.children@[i as int]@);
            match self.children[i].layout(d) {
                Err(e) => {
                    proof {
                        lemma_children_fail_on(kids, start, i as int + 1, n as int);
                        lemma_shape_from_children(*old(self), *self);
                    }
                    return Err(e);
                },
                Ok(()) => {},
            }
            let height: i128 = d.height as i128 + self.children[i].dimensions.margin_box_height();
            proof {
                lemma_view(self.children@[i as int]);
            }
            match narrow(height) {
                Err(e) => {
                    proof {
                        lemma_children_fail_on(kids, start, i as int + 1, n as int);
                        lemma_shape_from_children(*old(self), *self);
                    }
                    return Err(e);
                },
                Ok(h) => {
                    self.dimensions.height = h;
                },
            }
            proof {
                assert(models_of(self.children@).take(i as int + 1) =~= before.take(
                    i as int,
                ).push(self.children@[i as int]@));
            }
            i = i + 1;
        }
        proof {
            lemma_view(*self);
            assert(models_of(self.children@).take(n as int) =~= models_of(self.children@));
            lemma_shape_from_children(*old(self), *self);
        }
        Ok(())
    }

    /// Resolves the width of the box and its horizontal margins, borders
    /// and paddings inside `containing_block`. Where that cannot be done
    /// the geometry is left as it was.
    pub fn calculate_block_width(&mut self, containing_block: Dimensions) -> (res: Result<
        (),
        LayoutError,
    >)
        ensures
            final(self).box_type == old(self).box_type,
            final(self).children == old(self).children,
            res is Err ==> final(self).dimensions == old(self).dimensions,
            match res {
                Ok(()) => match old(self).box_type {
                    BoxType::BlockNode(style) | BoxType::InlineNode(style) => width_resolved(
                        old(self).dimensions,
                        style.values(),
                        containing_block,
                    ) == Some(final(self).dimensions),
                    BoxType::AnonymousBlock => false,
                },
                Err(e) => match old(self).box_type {
                    BoxType::BlockNode(style) | BoxType::InlineNode(style) => e
                        == LayoutError::OutOfRange && width_resolved(
                        old(self).dimensions,
                        style.values(),
                        containing_block,
                    ) is None,
                    BoxType::AnonymousBlock => e == LayoutError::NoStyleNode,
                },
            },
    {
        let style = match self.get_style_node() {
            Ok(style) => style,
            Err(e) => {
                return Err(e);
            },
        };

        // `width` has initial value `auto`.
        let auto = Value::Keyword(String::from_str("auto"));
        let width = match style.value("width") {
            Some(v) => v,
            None => auto,
        };

        // Margin, border and padding have initial value 0.
        let zero = Value::Length(0, Unit::Px);

        let margin_left = style.lookup("margin-left", "margin", &zero);
        let margin_right = style.lookup("margin-right", "margin", &zero);

        let border_left = style.lookup("border-left-width", "border-width", &zero);
        let border_right = style.lookup("border-right-width", "border-width", &zero);

        let padding_left = style.lookup("padding-left", "padding", &zero);
        let padding_right = style.lookup("padding-right", "padding", &zero);

        let total: i128 = margin_left.to_px() as i128 + margin_right.to_px() as i128
            + border_left.to_px() as i128 + border_right.to_px() as i128
            + padding_left.to_px() as i128 + padding_right.to_px() as i128
            + width.to_px() as i128;

        let width_auto = width.is_keyword("auto");
        // If the width is given and the box is wider than its container,
        // `auto` margins count as zero.
        let too_wide = !width_auto && total > containing_block.width as i128;
        let left_auto = margin_left.is_keyword("auto") && !too_wide;
        let right_auto = margin_right.is_keyword("auto") && !too_wide;

        let underflow: i128 = containing_block.width as i128 - total;

        let mut used_width: i128 = width.to_px() as i128;
        let mut used_left: i128 = margin_left.to_px() as i128;
        let mut used_right: i128 = margin_right.to_px() as i128;

        if width_auto {
            // With the width `auto`, the other `auto` values are zero.
            if underflow >= 0 {
                // The width takes the free space.
                used_width = underflow;
            } else {
                // The width cannot be negative: the right margin gives way.
                used_width = 0;
                used_right = used_right + underflow;
            }
        } else if left_auto && right_auto {
            // Two `auto` margins are equal.
            used_left = underflow / 2;
            used_right = underflow / 2;
        } else if left_auto {
            used_left = underflow;
        } else if right_auto {
            used_right = underflow;
        } else {
            // Over-constrained: the right margin gives way.
            used_right = used_right + underflow;
        }

        let w = narrow(used_width)?;
        let l = narrow(used_left)?;
        let r = narrow(used_right)?;

        self.dimensions.width = w;

        self.dimensions.padding.left = padding_left.to_px();
        self.dimensions.padding.right = padding_right.to_px();

        self.dimensions.margin.left = l;
        self.dimensions.margin.right = r;

        self.dimensions.border.left = border_left.to_px();
        self.dimensions.border.right = border_right.to_px();
        Ok(())
    }

    /// Sets the height of the box to the `height` property where that is a
    /// length, and leaves the height that the children gave it otherwise.
    pub fn calculate_block_height(&mut self) -> (res: Result<(), LayoutError>)
        ensures
            final(self).box_type == old(self).box_type,
            final(self).children == old(self).children,
            match res {
                Ok(()) => match old(self).box_type {
                    BoxType::BlockNode(style) | BoxType::InlineNode(style) => height_resolved(
                        old(self).dimensions,
                        style.values(),
                    ) == final(self).dimensions,
                    BoxType::AnonymousBlock => false,
                },
                Err(e) => old(self).box_type is AnonymousBlock && e == LayoutError::NoStyleNode
                    && final(self).dimensions == old(self).dimensions,
            },
    {
        let style = match self.get_style_node() {
            Ok(style) => style,
            Err(e) => {
                return Err(e);
            },
        };
        match style.value("height") {
            Some(Value::Length(h, Unit::Px)) => {
                self.dimensions.height = h;
            },
            _ => {},
        }
        Ok(())
    }

    /// Resolves the vertical margins, borders and paddings of the box and
    /// places it in `containing_block`, below what the containing block
    /// holds so far. Where that cannot be done the geometry is left as it
    /// was.
    pub fn calculate_block_position(&mut self, containing_block: Dimensions) -> (res: Result<
        (),
        LayoutError,
    >)
        ensures
            final(self).box_type == old(self).box_type,
            final(self).children == old(self).children,
            res is Err ==> final(self).dimensions == old(self).dimensions,
            match res {
                Ok(()) => match old(self).box_type {
                    BoxType::BlockNode(style) | BoxType::InlineNode(style) => positioned(
                        old(self).dimensions,
                        style.values(),
                        containing_block,
                    ) == Some(final(self).dimensions),
                    BoxType::AnonymousBlock => false,
                },
                Err(e) => match old(self).box_type {
                    BoxType::BlockNode(style) | BoxType::InlineNode(style) => e
                        == LayoutError::OutOfRange && positioned(
                        old(self).dimensions,
                        style.values(),
                        containing_block,
                    ) is None,
                    BoxType::AnonymousBlock => e == LayoutError::NoStyleNode,
                },
            },
    {
        let style = match self.get_style_node() {
            Ok(style) => style,
            Err(e) => {
                return Err(e);
            },
        };

        // Margin, border and padding have initial value 0.
        let zero = Value::Length(0, Unit::Px);

        let margin_top: i64 = style.lookup("margin-top", "margin", &zero).to_px();
        let margin_bottom: i64 = style.lookup("margin-bottom", "margin", &zero).to_px();

        let border_top: i64 = style.lookup("border-top-width", "border-width", &zero).to_px();
        let border_bottom: i64 = style.lookup("border-bottom-width", "border-width", &zero).to_px();

        let padding_top: i64 = style.lookup("padding-top", "padding", &zero).to_px();
        let padding_bottom: i64 = style.lookup("padding-bottom", "padding", &zero).to_px();

        // The box goes below all the boxes that the container holds so far.
        let x = narrow(
            containing_block.x as i128 + self.dimensions.margin.left as i128
                + self.dimensions.border.left as i128 + self.dimensions.padding.left as i128,
        )?;
        let y = narrow(
            containing_block.y as i128 + containing_block.height as i128 + margin_top as i128
                + border_top as i128 + padding_top as i128,
        )?;

        self.dimensions.margin.top = margin_top;
        self.dimensions.margin.bottom = margin_bottom;

        self.dimensions.border.top = border_top;
        self.dimensions.border.bottom = border_bottom;

        self.dimensions.padding.top = padding_top;
        self.dimensions.padding.bottom = padding_bottom;

        self.dimensions.x = x;
        self.dimensions.y = y;
        Ok(())
    }
}

/// The box tree for a styled node that is not left out of the layout.
fn build_box<'a>(style_node: &'a StyledNode<'a>) -> (res: LayoutBox<'a>)
    ensures
        res@ == built(style_node),
    decreases style_node,
{
    let block = match style_node.display() {
        Display::Block => true,
        _ => false,
    };
    let mut root = LayoutBox::new(
        if block {
            BoxType::BlockNode(style_node)
        } else {
            BoxType::InlineNode(style_node)
        },
    );
    let n: usize = style_node.children.len();
    let mut i: usize = 0;
    while i < n
        invariant
            n == style_node.children@.len(),
            i <= n,
            block == (style_node.display_spec() == Display::Block),
            root.dimensions == Dimensions::zero(),
            root.box_type == built(style_node).box_type,
            root.box_type is BlockNode == block,
            models_of(root.children@) == built_children(style_node, i as int),
        decreases n - i,
    {
        let child = &style_node.children[i];
        let ghost before = root.children@;
        match child.display() {
            Display::Block => {
                let made = build_box(child);
                root.children.push(made);
                assert(models_of(root.children@) =~= models_of(before).push(made@));
            },
            Display::Inline => {
                let made = build_box(child);
                let container = root.get_inline_container();
                let ghost held = *container;
                container.children.push(made);
                proof {
                    assert(container@.children =~= held@.children.push(made@));
                    if block {
                        if before.len() > 0 && before.last().box_type is AnonymousBlock {
                            assert(models_of(root.children@) =~= with_inline(
                                models_of(before),
                                made@,
                            ));
                        } else {
                            assert(container@.children =~= seq![made@]);
                            assert(models_of(root.children@) =~= with_inline(
                                models_of(before),
                                made@,
                            ));
                        }
                    } else {
                        assert(models_of(root.children@) =~= models_of(before).push(made@));
                    }
                }
            },
            Display::DisplayNone => {},
        }
        i = i + 1;
    }
    assert(root@.children =~= models_of(root.children@));
    root
}

/// Builds the tree of boxes for a styled tree, without geometry. A node
/// with display none is left out with everything below it; for the root
/// itself that is an error.
pub fn build_layout_tree<'a>(style_node: &'a StyledNode<'a>) -> (res: Result<
    LayoutBox<'a>,
    LayoutError,
>)
    ensures
        match res {
            Ok(root) => style_node.display_spec() != Display::DisplayNone && root@ == built(
                style_node,
            ),
            Err(e) => style_node.display_spec() == Display::DisplayNone && e
                == LayoutError::RootDisplayNone,
        },
{
    match style_node.display() {
        Display::DisplayNone => Err(LayoutError::RootDisplayNone),
        _ => Ok(build_box(style_node)),
    }
}

/// Lays out a styled tree in `containing_block`: builds its tree of boxes
/// and computes the geometry of every block box in it. Of the containing
/// block only the origin, the width and the height count.
pub fn layout_tree<'a>(node: &'a StyledNode<'a>, containing_block: Dimensions) -> (res: Result<
    LayoutBox<'a>,
    LayoutError,
>)
    ensures
        match res {
            Ok(root) => node.display_spec() != Display::DisplayNone && laid_out(
                built(node),
                containing_block,
            ) == Some(root@),
            Err(LayoutError::RootDisplayNone) => node.display_spec() == Display::DisplayNone,
            Err(LayoutError::OutOfRange) => node.display_spec() != Display::DisplayNone
                && laid_out(built(node), containing_block) is None,
            Err(LayoutError::NoStyleNode) => false,
        },
{
    let mut root_box = match build_layout_tree(node) {
        Ok(root_box) => root_box,
        Err(e) => {
            return Err(e);
        },
    };
    match root_box.layout(containing_block) {
        Ok(()) => Ok(root_box),
        Err(e) => Err(e),
    }
}

} // verus!
