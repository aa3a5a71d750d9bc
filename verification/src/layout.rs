//! Block layout: the box model, the tree of boxes and the solver that gives
//! each box its place.  All sizes are whole numbers of layout units; a result
//! that leaves the range of `i64` is held at the end of the range.

use vstd::prelude::*;
use crate::css::{Size, Unit, Value};
use crate::style::{display_of, looked_up, Display, StyledModel, StyledNode};

verus! {

/// The nearest number to `v` that an `i64` holds.
pub open spec fn clamp(v: int) -> int {
    if v < i64::MIN {
        i64::MIN as int
    } else if v > i64::MAX {
        i64::MAX as int
    } else {
        v
    }
}

/// Holds `v` to the range of `i64`.
pub fn clamp_i64(v: i128) -> (r: i64)
    ensures
        r == clamp(v as int),
{
    if v < i64::MIN as i128 {
        i64::MIN
    } else if v > i64::MAX as i128 {
        i64::MAX
    } else {
        v as i64
    }
}

#[derive(Clone, Copy, Debug, PartialEq, Eq, Structural)]
pub struct Rect {
    pub x: i64,
    pub y: i64,
    pub width: i64,
    pub height: i64,
}

#[derive(Clone, Copy, Debug, PartialEq, Eq, Structural)]
pub struct EdgeSizes {
    pub left: i64,
    pub right: i64,
    pub top: i64,
    pub bottom: i64,
}

/// The box model of one box: its content area and the edges around it.
#[derive(Clone, Copy, Debug, PartialEq, Eq, Structural)]
pub struct Dimensions {
    /// The content area, placed relative to the document's origin.
    pub content: Rect,
    pub padding: EdgeSizes,
    pub border: EdgeSizes,
    pub margin: EdgeSizes,
}

impl Rect {
    /// This rectangle grown by `edge` on every side.
    pub open spec fn grown(self, edge: EdgeSizes) -> Rect {
        Rect {
            x: clamp(self.x - edge.left) as i64,
            y: clamp(self.y - edge.top) as i64,
            width: clamp(self.width + edge.left + edge.right) as i64,
            height: clamp(self.height + edge.top + edge.bottom) as i64,
        }
    }

    pub fn expanded_by(self, edge: EdgeSizes) -> (r: Rect)
        ensures
            r == self.grown(edge),
    {
        Rect {
            x: clamp_i64(self.x as i128 - edge.left as i128),
            y: clamp_i64(self.y as i128 - edge.top as i128),
            width: clamp_i64(self.width as i128 + edge.left as i128 + edge.right as i128),
            height: clamp_i64(self.height as i128 + edge.top as i128 + edge.bottom as i128),
        }
    }
}

impl Default for Rect {
    fn default() -> (r: Rect)
        ensures
            r == (Rect { x: 0, y: 0, width: 0, height: 0 }),
    {
        Rect { x: 0, y: 0, width: 0, height: 0 }
    }
}

impl Default for EdgeSizes {
    fn default() -> (r: EdgeSizes)
        ensures
            r == (EdgeSizes { left: 0, right: 0, top: 0, bottom: 0 }),
    {
        EdgeSizes { left: 0, right: 0, top: 0, bottom: 0 }
    }
}

impl Dimensions {
    /// The box model with every size zero.
    pub open spec fn zero() -> Dimensions {
        Dimensions {
            content: Rect { x: 0, y: 0, width: 0, height: 0 },
            padding: EdgeSizes { left: 0, right: 0, top: 0, bottom: 0 },
            border: EdgeSizes { left: 0, right: 0, top: 0, bottom: 0 },
            margin: EdgeSizes { left: 0, right: 0, top: 0, bottom: 0 },
        }
    }

    pub open spec fn padding_area(self) -> Rect {
        self.content.grown(self.padding)
    }

    pub open spec fn border_area(self) -> Rect {
        self.padding_area().grown(self.border)
    }

    pub open spec fn margin_area(self) -> Rect {
        self.border_area().grown(self.margin)
    }

    /// The area covered by the content plus its padding.
    pub fn padding_box(self) -> (r: Rect)
        ensures
            r == self.padding_area(),
    {
        self.content.expanded_by(self.padding)
    }

    /// The area covered by the content plus padding and borders.
    pub fn border_box(self) -> (r: Rect)
        ensures
            r == self.border_area(),
    {
        self.padding_box().expanded_by(self.border)
    }

    /// The area covered by the content plus padding, borders, and margin.
    pub fn margin_box(self) -> (r: Rect)
        ensures
            r == self.margin_area(),
    {
        self.border_box().expanded_by(self.margin)
    }
}

impl Default for Dimensions {
    fn default() -> (r: Dimensions)
        ensures
            r == Dimensions::zero(),
    {
        Dimensions {
            content: Rect { x: 0, y: 0, width: 0, height: 0 },
            padding: EdgeSizes { left: 0, right: 0, top: 0, bottom: 0 },
            border: EdgeSizes { left: 0, right: 0, top: 0, bottom: 0 },
            margin: EdgeSizes { left: 0, right: 0, top: 0, bottom: 0 },
        }
    }
}

/// The seven horizontal sizes of a block box once they are resolved.
#[derive(Clone, Copy, Debug, PartialEq, Eq, Structural)]
pub struct HorizontalSizes {
    pub width: i64,
    pub margin_left: i64,
    pub margin_right: i64,
    pub border_left: i64,
    pub border_right: i64,
    pub padding_left: i64,
    pub padding_right: i64,
}

/// The sum of the seven declared sizes, an open one counting as zero.
pub open spec fn declared_total(
    width: Size,
    margin_left: Size,
    margin_right: Size,
    border_left: i64,
    border_right: i64,
    padding_left: i64,
    padding_right: i64,
) -> int {
    margin_left.px() + margin_right.px() + border_left + border_right + padding_left
        + padding_right + width.px()
}

/// The horizontal sizes that a block box gets inside a containing block of
/// width `containing`.
///
/// With a width that is set and a total beyond the container, an open margin
/// counts as set to zero.  Then whatever is open takes up the difference
/// `containing - total`: the width if it is open (never below zero: the
/// right margin takes a negative rest), else the one open margin, else both
/// margins in halves, else the right margin on top of what it was set to.
pub open spec fn solved_width(
    width: Size,
    margin_left: Size,
    margin_right: Size,
    border_left: i64,
    border_right: i64,
    padding_left: i64,
    padding_right: i64,
    containing: i64,
) -> HorizontalSizes {
    let total = declared_total(
        width,
        margin_left,
        margin_right,
        border_left,
        border_right,
        padding_left,
        padding_right,
    );
    let crowded = width != Size::Auto && total > containing;
    let left_open = margin_left == Size::Auto && !crowded;
    let right_open = margin_right == Size::Auto && !crowded;
    let underflow = containing - total;
    let (w, ml, mr): (int, int, int) = if width == Size::Auto {
        if underflow >= 0 {
            (underflow, margin_left.px(), margin_right.px())
        } else {
            (0, margin_left.px(), margin_right.px() + underflow)
        }
    } else if left_open && right_open {
        (width.px(), underflow / 2, underflow / 2)
    } else if left_open {
        (width.px(), underflow, margin_right.px())
    } else if right_open {
        (width.px(), margin_left.px(), underflow)
    } else {
        (width.px(), margin_left.px(), margin_right.px() + underflow)
    };
    HorizontalSizes {
        width: clamp(w) as i64,
        margin_left: clamp(ml) as i64,
        margin_right: clamp(mr) as i64,
        border_left,
        border_right,
        padding_left,
        padding_right,
    }
}

/// Resolves the horizontal sizes of a block box.
pub fn solve_width(
    width: Size,
    margin_left: Size,
    margin_right: Size,
    border_left: i64,
    border_right: i64,
    padding_left: i64,
    padding_right: i64,
    containing: i64,
) -> (r: HorizontalSizes)
    ensures
        r == solved_width(
            width,
            margin_left,
            margin_right,
            border_left,
            border_right,
            padding_left,
            padding_right,
            containing,
        ),
{
    let total: i128 = margin_left.to_px() as i128 + margin_right.to_px() as i128
        + border_left as i128 + border_right as i128 + padding_left as i128
        + padding_right as i128 + width.to_px() as i128;
    let width_open = width == Size::Auto;
    let crowded = !width_open && total > containing as i128;
    let left_open = margin_left == Size::Auto && !crowded;
    let right_open = margin_right == Size::Auto && !crowded;
    let underflow: i128 = containing as i128 - total;
    let mut w: i128 = width.to_px() as i128;
    let mut ml: i128 = margin_left.to_px() as i128;
    let mut mr: i128 = margin_right.to_px() as i128;
    if width_open {
        if underflow >= 0 {
            w = underflow;
        } else {
            w = 0;
            mr = mr + underflow;
        }
    } else if left_open && right_open {
        ml = underflow / 2;
        mr = underflow / 2;
    } else if left_open {
        ml = underflow;
    } else if right_open {
        mr = underflow;
    } else {
        mr = mr + underflow;
    }
    HorizontalSizes {
        width: clamp_i64(w),
        margin_left: clamp_i64(ml),
        margin_right: clamp_i64(mr),
        border_left,
        border_right,
        padding_left,
        padding_right,
    }
}

/// A box whose width is set and whose margins are both open stands in the
/// middle of its container: where the seven sizes fit and leave an even
/// rest of which a margin can hold the half, each margin gets half of the
/// rest, and the seven resolved sizes add up to the container's width.
pub proof fn lemma_open_margins_centre(
    width: i64,
    border_left: i64,
    border_right: i64,
    padding_left: i64,
    padding_right: i64,
    containing: i64,
)
    requires
        width + border_left + border_right + padding_left + padding_right <= containing,
        (containing - (width + border_left + border_right + padding_left + padding_right)) % 2 == 0,
        (containing - (width + border_left + border_right + padding_left + padding_right)) / 2
            <= i64::MAX,
    ensures
        ({
            let r = solved_width(
                Size::Units(width),
                Size::Auto,
                Size::Auto,
                border_left,
                border_right,
                padding_left,
                padding_right,
                containing,
            );
            &&& r.width == width
            &&& r.margin_left == r.margin_right
            &&& r.margin_left == (containing - (width + border_left + border_right + padding_left
                + padding_right)) / 2
            &&& r.margin_left + r.border_left + r.padding_left + r.width + r.padding_right
                + r.border_right + r.margin_right == containing
        }),
{
}

/// A box whose width and margins are all set, and whose seven sizes go
/// beyond the container, gives way at the right margin alone: it becomes the
/// container's width less the other six sizes, below what it was set to, and
/// is not held at zero.
pub proof fn lemma_crowded_box_overflows_right(
    width: i64,
    margin_left: i64,
    margin_right: i64,
    border_left: i64,
    border_right: i64,
    padding_left: i64,
    padding_right: i64,
    containing: i64,
)
    requires
        width + margin_left + margin_right + border_left + border_right + padding_left
            + padding_right > containing,
        i64::MIN <= containing - (width + margin_left + border_left + border_right + padding_left
            + padding_right),
    ensures
        ({
            let r = solved_width(
                Size::Units(width),
                Size::Units(margin_left),
                Size::Units(margin_right),
                border_left,
                border_right,
                padding_left,
                padding_right,
                containing,
            );
            &&& r.width == width
            &&& r.margin_left == margin_left
            &&& r.margin_right == containing - (width + margin_left + border_left + border_right
                + padding_left + padding_right)
            &&& r.margin_right < margin_right
            &&& r.margin_right < 0 <==> containing < width + margin_left + border_left
                + border_right + padding_left + padding_right
        }),
{
}

/// What can go wrong in building and reading a tree of boxes.
#[derive(Clone, Copy, Debug, PartialEq, Eq, Structural)]
pub enum LayoutError {
    /// The root of the styled tree leaves no box, so there is nothing to
    /// lay out.
    NoRenderableRoot,
    /// The style of a box without a styled node was asked for.
    InternalInvariantViolation,
}

/// What a box stands for.
pub enum BoxType<'a> {
    BlockNode(&'a StyledNode<'a>),
    InlineNode(&'a StyledNode<'a>),
    /// A box without a node of its own, which holds a run of inline boxes
    /// inside a block box.
    AnonymousBlock,
}

pub struct LayoutBox<'a> {
    pub dimensions: Dimensions,
    pub box_type: BoxType<'a>,
    pub children: Vec<LayoutBox<'a>>,
}

/// What a box stands for, over the model of the styled tree.
pub enum BoxKind {
    Block(StyledModel),
    Inline(StyledModel),
    Anonymous,
}

/// What a tree of boxes holds.
pub struct BoxModel {
    pub dimensions: Dimensions,
    pub kind: BoxKind,
    pub children: Seq<BoxModel>,
}

impl<'a> View for BoxType<'a> {
    type V = BoxKind;

    open spec fn view(&self) -> BoxKind {
        match *self {
            BoxType::BlockNode(node) => BoxKind::Block(node@),
            BoxType::InlineNode(node) => BoxKind::Inline(node@),
            BoxType::AnonymousBlock => BoxKind::Anonymous,
        }
    }
}

impl<'a> View for LayoutBox<'a> {
    type V = BoxModel;

    open spec fn view(&self) -> BoxModel
        decreases self,
    {
        BoxModel {
            dimensions: self.dimensions,
            kind: self.box_type@,
            children: Seq::new(
                self.children@.len(),
                |i: int|
                    if 0 <= i < self.children@.len() {
                        self.children@[i]@
                    } else {
                        arbitrary()
                    },
            ),
        }
    }
}

/// The kind of box that a styled node gets: a block box where its display
/// is block, an inline box else.
pub open spec fn kind_of(node: StyledModel) -> BoxKind {
    if display_of(node.values) == Display::Block {
        BoxKind::Block(node)
    } else {
        BoxKind::Inline(node)
    }
}

/// A box that has not been laid out.
pub open spec fn unlaid(kind: BoxKind, children: Seq<BoxModel>) -> BoxModel {
    BoxModel { dimensions: Dimensions::zero(), kind, children }
}

/// The boxes that the first `n` of `children` leave below a box, in
/// document order.  A child whose display is none leaves nothing, whatever
/// stands below it.  A block child leaves its box.  An inline child leaves
/// its box too, inside an anonymous box where the box above is a block box:
/// inside the last box so far if that is an anonymous one, else inside a new
/// one.
pub open spec fn boxes_of(children: Seq<StyledModel>, in_block: bool, n: nat) -> Seq<BoxModel>
    decreases children, n,
{
    if n == 0 || n > children.len() {
        Seq::empty()
    } else {
        let before = boxes_of(children, in_block, (n - 1) as nat);
        let child = children[n - 1];
        let kind = kind_of(child);
        let made = unlaid(kind, boxes_of(child.children, kind is Block, child.children.len()));
        match display_of(child.values) {
            Display::DisplayNone => before,
            Display::Block => before.push(made),
            Display::Inline => if !in_block {
                before.push(made)
            } else if before.len() > 0 && before.last().kind is Anonymous {
                before.update(
                    before.len() - 1,
                    BoxModel { children: before.last().children.push(made), ..before.last() },
                )
            } else {
                before.push(unlaid(BoxKind::Anonymous, seq![made]))
            },
        }
    }
}

/// The tree of boxes of a styled tree whose root leaves a box.
pub open spec fn box_tree(node: StyledModel) -> BoxModel {
    unlaid(kind_of(node), boxes_of(node.children, kind_of(node) is Block, node.children.len()))
}

impl<'a> LayoutBox<'a> {
    /// A box of the given type, with all sizes zero and nothing inside.
    pub fn new(box_type: BoxType<'a>) -> (r: LayoutBox<'a>)
        ensures
            r.box_type == box_type,
            r.dimensions == Dimensions::zero(),
            r.children@.len() == 0,
            r@ == unlaid(box_type@, Seq::empty()),
    {
        let r = LayoutBox { box_type, dimensions: Dimensions::default(), children: Vec::new() };
        assert(r@.children =~= Seq::empty());
        r
    }

    /// The styled node of this box; an anonymous box has none.
    pub fn get_style_node(&self) -> (r: Result<&'a StyledNode<'a>, LayoutError>)
        ensures
            match r {
                Ok(node) => self.box_type == BoxType::BlockNode(node) || self.box_type
                    == BoxType::InlineNode(node),
                Err(e) => self.box_type is AnonymousBlock && e
                    == LayoutError::InternalInvariantViolation,
            },
    {
        match self.box_type {
            BoxType::BlockNode(node) => Ok(node),
            BoxType::InlineNode(node) => Ok(node),
            BoxType::AnonymousBlock => Err(LayoutError::InternalInvariantViolation),
        }
    }

    /// Where a new inline child goes: into this box unless it is a block
    /// box, else into the anonymous box at its end, which is made if the
    /// last child is none.
    fn get_inline_container(&mut self) -> (r: &mut LayoutBox<'a>)
        ensures
            !(old(self).box_type is BlockNode) ==> *r == *old(self) && *final(self) == *final(r),
            old(self).box_type is BlockNode ==> final(self).dimensions == old(self).dimensions
                && final(self).box_type == old(self).box_type,
            old(self).box_type is BlockNode && old(self).children@.len() > 0 && old(
                self,
            ).children@.last().box_type is AnonymousBlock ==> *r == old(self).children@.last()
                && final(self).children@ == old(self).children@.update(
                old(self).children@.len() - 1,
                *final(r),
            ),
            old(self).box_type is BlockNode && !(old(self).children@.len() > 0 && old(
                self,
            ).children@.last().box_type is AnonymousBlock) ==> r.box_type is AnonymousBlock
                && r.dimensions == Dimensions::zero() && r.children@.len() == 0
                && final(self).children@ == old(self).children@.push(*final(r)),
    {
        match self.box_type {
            BoxType::InlineNode(_) | BoxType::AnonymousBlock => self,
            BoxType::BlockNode(_) => {
                let n: usize = self.children.len();
                let reuse = n > 0 && match self.children[n - 1].box_type {
                    BoxType::AnonymousBlock => true,
                    _ => false,
                };
                if !reuse {
                    self.children.push(LayoutBox::new(BoxType::AnonymousBlock));
                }
                let last: usize = self.children.len() - 1;
                &mut self.children[last]
            },
        }
    }
}

/// What the view of a box says of its children: the views of the box's
/// children, in order.
pub proof fn lemma_children_view(b: LayoutBox)
    ensures
        b@.children.len() == b.children@.len(),
        forall|i: int| 0 <= i < b.children@.len() ==> #[trigger] b@.children[i] == b.children@[i]@,
        b@.dimensions == b.dimensions,
        b@.kind == b.box_type@,
{
    reveal_with_fuel(<LayoutBox as View>::view, 2);
}

proof fn lemma_styled_children_view(node: StyledNode)
    ensures
        node@.children.len() == node.children@.len(),
        forall|i: int|
            0 <= i < node.children@.len() ==> #[trigger] node@.children[i] == node.children@[i]@,
{
    reveal_with_fuel(<StyledNode as View>::view, 2);
}

/// Builds the boxes of a styled node that leaves a box.
fn build_subtree<'a>(style_node: &'a StyledNode<'a>, display: Display) -> (r: LayoutBox<'a>)
    requires
        display == display_of(style_node@.values),
        display != Display::DisplayNone,
    ensures
        r@ == box_tree(style_node@),
        r.box_type == (if display == Display::Block {
            BoxType::BlockNode(style_node)
        } else {
            BoxType::InlineNode(style_node)
        }),
    decreases style_node,
{
    let mut root = LayoutBox::new(
        match display {
            Display::Block => BoxType::BlockNode(style_node),
            _ => BoxType::InlineNode(style_node),
        },
    );
    let ghost in_block = kind_of(style_node@) is Block;
    let ghost kids = style_node@.children;
    proof {
        lemma_styled_children_view(*style_node);
    }
    let mut i: usize = 0;
    while i < style_node.children.len()
        invariant
            0 <= i <= style_node.children@.len(),
            kids == style_node@.children,
            kids.len() == style_node.children@.len(),
            forall|j: int| 0 <= j < kids.len() ==> #[trigger] kids[j] == style_node.children@[j]@,
            in_block == (kind_of(style_node@) is Block),
            in_block == (root.box_type is BlockNode),
            root.dimensions == Dimensions::zero(),
            root.box_type == (if display == Display::Block {
                BoxType::BlockNode(style_node)
            } else {
                BoxType::InlineNode(style_node)
            }),
            root@.children == boxes_of(kids, in_block, i as nat),
        decreases style_node.children@.len() - i,
    {
        let child = &style_node.children[i];
        let child_display = child.display();
        let ghost before = root@.children;
        proof {
            lemma_children_view(root);
        }
        match child_display {
            Display::Block => {
                let made = build_subtree(child, child_display);
                root.children.push(made);
                proof {
                    lemma_children_view(root);
                }
            },
            Display::Inline => {
                let made = build_subtree(child, child_display);
                let container = root.get_inline_container();
                let ghost held = *container;
                container.children.push(made);
                proof {
                    lemma_children_view(root);
                    lemma_children_view(held);
                    if !in_block {
                    } else if before.len() > 0 && before.last().kind is Anonymous {
                        let last = before.len() - 1;
                        lemma_children_view(root.children@[last]);
                        assert(root.children@[last]@.children =~= before.last().children.push(made@));
                    } else {
                        let last = before.len() as int;
                        assert(root.children@[last]@.children =~= seq![made@]);
                    }
                }
            },
            Display::DisplayNone => {},
        }
        i = i + 1;
    }
    root
}

/// Builds the tree of boxes of a styled tree, without laying it out.  A
/// root whose display is none leaves nothing to build.
pub fn build_layout_tree<'a>(style_node: &'a StyledNode<'a>) -> (r: Result<LayoutBox<'a>, LayoutError>)
    ensures
        match r {
            Ok(root) => display_of(style_node@.values) != Display::DisplayNone && root@ == box_tree(
                style_node@,
            ) && (root.box_type == BoxType::BlockNode(style_node) || root.box_type
                == BoxType::InlineNode(style_node)),
            Err(e) => display_of(style_node@.values) == Display::DisplayNone && e
                == LayoutError::NoRenderableRoot,
        },
{
    let display = style_node.display();
    match display {
        Display::DisplayNone => Err(LayoutError::NoRenderableRoot),
        _ => Ok(build_subtree(style_node, display)),
    }
}

/// The properties that the layout of a box of this kind reads.
pub open spec fn style_values(kind: BoxKind) -> Map<Seq<char>, Value> {
    match kind {
        BoxKind::Block(node) => node.values,
        BoxKind::Inline(node) => node.values,
        BoxKind::Anonymous => Map::empty(),
    }
}

/// The value declared for `name`, else for `fallback`, else a length of
/// zero.
pub open spec fn declared(values: Map<Seq<char>, Value>, name: &str, fallback: &str) -> Value {
    looked_up(values, name@, fallback@, Value::Length(0, Unit::Px))
}

/// The declared width; a box without one leaves its width open.
pub open spec fn declared_width(values: Map<Seq<char>, Value>) -> Size {
    if values.contains_key("width"@) {
        values["width"@].as_size()
    } else {
        Size::Auto
    }
}

/// The horizontal sizes of a block box with properties `values` inside a
/// containing block of width `containing`.
pub open spec fn resolved_widths(
    values: Map<Seq<char>, Value>,
    containing: i64,
) -> HorizontalSizes {
    solved_width(
        declared_width(values),
        declared(values, "margin-left", "margin").as_size(),
        declared(values, "margin-right", "margin").as_size(),
        declared(values, "border-left-width", "border-width").px() as i64,
        declared(values, "border-right-width", "border-width").px() as i64,
        declared(values, "padding-left", "padding").px() as i64,
        declared(values, "padding-right", "padding").px() as i64,
        containing,
    )
}

/// `d` with its horizontal sizes resolved against the containing block.
pub open spec fn with_width(
    d: Dimensions,
    values: Map<Seq<char>, Value>,
    containing_block: Dimensions,
) -> Dimensions {
    let h = resolved_widths(values, containing_block.content.width);
    Dimensions {
        content: Rect { width: h.width, ..d.content },
        padding: EdgeSizes { left: h.padding_left, right: h.padding_right, ..d.padding },
        border: EdgeSizes { left: h.border_left, right: h.border_right, ..d.border },
        margin: EdgeSizes { left: h.margin_left, right: h.margin_right, ..d.margin },
    }
}

/// `d` with its vertical edges as declared and its content placed: to the
/// right of its left edges, and below everything that the containing block
/// holds so far.
pub open spec fn with_position(
    d: Dimensions,
    values: Map<Seq<char>, Value>,
    containing_block: Dimensions,
) -> Dimensions {
    let margin = EdgeSizes {
        top: declared(values, "margin-top", "margin").px() as i64,
        bottom: declared(values, "margin-bottom", "margin").px() as i64,
        ..d.margin
    };
    let border = EdgeSizes {
        top: declared(values, "border-top-width", "border-width").px() as i64,
        bottom: declared(values, "border-bottom-width", "border-width").px() as i64,
        ..d.border
    };
    let padding = EdgeSizes {
        top: declared(values, "padding-top", "padding").px() as i64,
        bottom: declared(values, "padding-bottom", "padding").px() as i64,
        ..d.padding
    };
    Dimensions {
        content: Rect {
            x: clamp(containing_block.content.x + d.margin.left + d.border.left + d.padding.left) as i64,
            y: clamp(
                containing_block.content.height + containing_block.content.y + margin.top
                    + border.top + padding.top,
            ) as i64,
            ..d.content
        },
        padding,
        border,
        margin,
    }
}

/// `d` made higher by the whole height of a child that was laid out in it.
pub open spec fn with_child(d: Dimensions, child: Dimensions) -> Dimensions {
    Dimensions {
        content: Rect {
            height: clamp(d.content.height + child.margin_area().height) as i64,
            ..d.content
        },
        ..d
    }
}

/// The height that the property `height` sets, where it is a length.
pub open spec fn declared_height(values: Map<Seq<char>, Value>) -> Option<i64> {
    if values.contains_key("height"@) {
        match values["height"@] {
            Value::Length(h, Unit::Px) => Some(h),
            _ => None,
        }
    } else {
        None
    }
}

/// `d` with the declared height, if there is one.
pub open spec fn with_height(d: Dimensions, values: Map<Seq<char>, Value>) -> Dimensions {
    match declared_height(values) {
        Some(h) => Dimensions { content: Rect { height: h, ..d.content }, ..d },
        None => d,
    }
}

/// The first `n` of `children` laid out one below the other inside a box
/// with dimensions `d`, and the dimensions of that box after them: each
/// child is laid out against the box as the children before it left it, and
/// then adds the height of its margin area to the height of the box.
pub open spec fn stacked(children: Seq<BoxModel>, d: Dimensions, n: nat) -> (Seq<BoxModel>, Dimensions)
    decreases children, n,
{
    if n == 0 || n > children.len() {
        (Seq::empty(), d)
    } else {
        let (done, before) = stacked(children, d, (n - 1) as nat);
        let child = laid_out(children[n - 1], before);
        (done.push(child), with_child(before, child.dimensions))
    }
}

/// The box `b` laid out inside `containing_block`.  A block box gets its
/// width, then its place, then its children, then its height; any other box
/// stays as it is.
pub open spec fn laid_out(b: BoxModel, containing_block: Dimensions) -> BoxModel
    decreases b, 0nat,
{
    match b.kind {
        BoxKind::Block(node) => {
            let placed = with_position(
                with_width(b.dimensions, node.values, containing_block),
                node.values,
                containing_block,
            );
            let (children, filled) = stacked(b.children, placed, b.children.len());
            BoxModel { dimensions: with_height(filled, node.values), kind: b.kind, children }
        },
        _ => b,
    }
}

impl<'a> LayoutBox<'a> {
    /// Lays out this box and what is below it inside `containing_block`.
    pub fn layout(&mut self, containing_block: Dimensions)
        ensures
            final(self)@ == laid_out(old(self)@, containing_block),
            final(self).box_type == old(self).box_type,
            final(self).children@.len() == old(self).children@.len(),
        decreases old(self).children, 2nat,
    {
        match self.box_type {
            BoxType::BlockNode(_) => self.layout_block(containing_block),
            BoxType::InlineNode(_) => {},
            BoxType::AnonymousBlock => {},
        }
    }

    fn layout_block(&mut self, containing_block: Dimensions)
        requires
            old(self).box_type is BlockNode,
        ensures
            final(self)@ == laid_out(old(self)@, containing_block),
            final(self).box_type == old(self).box_type,
            final(self).children@.len() == old(self).children@.len(),
        decreases old(self).children, 1nat,
    {
        proof {
            lemma_children_view(*self);
        }
        // The width of a child can depend on that of its parent, so the
        // width of this box comes before its children.
        self.calculate_block_width(containing_block);
        self.calculate_block_position(containing_block);
        self.layout_block_children();
        // The height of a parent can depend on that of its children, so it
        // comes after them.
        self.calculate_block_height();
    }

    fn calculate_block_width(&mut self, containing_block: Dimensions)
        requires
            old(self).box_type is BlockNode,
        ensures
            final(self).box_type == old(self).box_type,
            final(self).children == old(self).children,
            final(self).dimensions == with_width(
                old(self).dimensions,
                style_values(old(self).box_type@),
                containing_block,
            ),
    {
        let style = match self.get_style_node() {
            Ok(node) => node,
            Err(_) => {
                return ;
            },
        };
        // The width starts out open; margins, borders and padding start out
        // as zero.
        let zero = Value::Length(0, Unit::Px);
        let width = match style.value("width") {
            Some(v) => v.size(),
            None => Size::Auto,
        };
        let margin_left = style.lookup("margin-left", "margin", &zero).size();
        let margin_right = style.lookup("margin-right", "margin", &zero).size();
        let border_left = style.lookup("border-left-width", "border-width", &zero).to_px();
        let border_right = style.lookup("border-right-width", "border-width", &zero).to_px();
        let padding_left = style.lookup("padding-left", "padding", &zero).to_px();
        let padding_right = style.lookup("padding-right", "padding", &zero).to_px();
        let solved = solve_width(
            width,
            margin_left,
            margin_right,
            border_left,
            border_right,
            padding_left,
            padding_right,
            containing_block.content.width,
        );
        self.dimensions.content.width = solved.width;
        self.dimensions.padding.left = solved.padding_left;
        self.dimensions.padding.right = solved.padding_right;
        self.dimensions.border.left = solved.border_left;
        self.dimensions.border.right = solved.border_right;
        self.dimensions.margin.left = solved.margin_left;
        self.dimensions.margin.right = solved.margin_right;
    }

    fn calculate_block_position(&mut self, containing_block: Dimensions)
        requires
            old(self).box_type is BlockNode,
        ensures
            final(self).box_type == old(self).box_type,
            final(self).children == old(self).children,
            final(self).dimensions == with_position(
                old(self).dimensions,
                style_values(old(self).box_type@),
                containing_block,
            ),
    {
        let style = match self.get_style_node() {
            Ok(node) => node,
            Err(_) => {
                return ;
            },
        };
        let zero = Value::Length(0, Unit::Px);
        self.dimensions.margin.top = style.lookup("margin-top", "margin", &zero).to_px();
        self.dimensions.margin.bottom = style.lookup("margin-bottom", "margin", &zero).to_px();
        self.dimensions.border.top = style.lookup("border-top-width", "border-width", &zero).to_px();
        self.dimensions.border.bottom = style.lookup(
            "border-bottom-width",
            "border-width",
            &zero,
        ).to_px();
        self.dimensions.padding.top = style.lookup("padding-top", "padding", &zero).to_px();
        self.dimensions.padding.bottom = style.lookup("padding-bottom", "padding", &zero).to_px();
        self.dimensions.content.x = clamp_i64(
            containing_block.content.x as i128 + self.dimensions.margin.left as i128
                + self.dimensions.border.left as i128 + self.dimensions.padding.left as i128,
        );
        // The box goes below all boxes that the container holds so far.
        self.dimensions.content.y = clamp_i64(
            containing_block.content.height as i128 + containing_block.content.y as i128
                + self.dimensions.margin.top as i128 + self.dimensions.border.top as i128
                + self.dimensions.padding.top as i128,
        );
    }

    fn layout_block_children(&mut self)
        requires
            old(self).box_type is BlockNode,
        ensures
            final(self).box_type == old(self).box_type,
            final(self).children@.len() == old(self).children@.len(),
            final(self)@.children == stacked(
                old(self)@.children,
                old(self).dimensions,
                old(self).children@.len() as nat,
            ).0,
            final(self).dimensions == stacked(
                old(self)@.children,
                old(self).dimensions,
                old(self).children@.len() as nat,
            ).1,
        decreases old(self).children, 0nat,
    {
        let ghost start = old(self)@.children;
        let ghost first = old(self).dimensions;
        proof {
            lemma_children_view(*old(self));
        }
        let mut i: usize = 0;
        while i < self.children.len()
            invariant
                0 <= i <= self.children@.len(),
                self.box_type == old(self).box_type,
                self.children@.len() == old(self).children@.len(),
                start == old(self)@.children,
                start.len() == old(self).children@.len(),
                first == old(self).dimensions,
                forall|j: int| 0 <= j < start.len() ==> start[j] == (#[trigger] old(self).children@[j])@,
                forall|j: int| i <= j < self.children@.len() ==> #[trigger] self.children@[j] == old(self).children@[j],
                stacked(start, first, i as nat).0.len() == i,
                forall|j: int| 0 <= j < i ==> (#[trigger] self.children@[j])@ == stacked(start, first, i as nat).0[j],
                self.dimensions == stacked(start, first, i as nat).1,
            decreases self.children@.len() - i,
        {
            let d = self.dimensions;
            let ghost done = stacked(start, first, i as nat).0;
            self.children[i].layout(d);
            let h = self.children[i].dimensions.margin_box().height;
            self.dimensions.content.height = clamp_i64(self.dimensions.content.height as i128 + h as i128);
            proof {
                assert(stacked(start, first, (i + 1) as nat).0 == done.push(laid_out(start[i as int], d)));
            }
            i = i + 1;
        }
    }

    fn calculate_block_height(&mut self)
        requires
            old(self).box_type is BlockNode,
        ensures
            final(self).box_type == old(self).box_type,
            final(self).children == old(self).children,
            final(self).dimensions == with_height(
                old(self).dimensions,
                style_values(old(self).box_type@),
            ),
    {
        let style = match self.get_style_node() {
            Ok(node) => node,
            Err(_) => {
                return ;
            },
        };
        // A declared height is taken as it is; else the box keeps the height
        // that its children gave it.
        match style.value("height") {
            Some(Value::Length(h, Unit::Px)) => {
                self.dimensions.content.height = h;
            },
            _ => {},
        }
    }
}

proof fn lemma_boxes_of_prefix(a: Seq<StyledModel>, b: Seq<StyledModel>, in_block: bool, n: nat)
    requires
        n <= a.len(),
        n <= b.len(),
        forall|i: int| 0 <= i < n ==> a[i] == b[i],
    ensures
        boxes_of(a, in_block, n) == boxes_of(b, in_block, n),
    decreases n,
{
    if n > 0 {
        lemma_boxes_of_prefix(a, b, in_block, (n - 1) as nat);
    }
}

proof fn lemma_boxes_of_without(children: Seq<StyledModel>, in_block: bool, k: int, n: nat)
    requires
        0 <= k < n <= children.len(),
        display_of(children[k].values) == Display::DisplayNone,
    ensures
        boxes_of(children, in_block, n) == boxes_of(children.remove(k), in_block, (n - 1) as nat),
    decreases n,
{
    let rest = children.remove(k);
    if n == k + 1 {
        lemma_boxes_of_prefix(children, rest, in_block, k as nat);
    } else {
        lemma_boxes_of_without(children, in_block, k, (n - 1) as nat);
    }
}

/// A node whose display is none leaves no box, whatever stands below it:
/// its parent gets the boxes that it would get without that child.
pub proof fn lemma_hidden_child_leaves_no_box(children: Seq<StyledModel>, in_block: bool, k: int)
    requires
        0 <= k < children.len(),
        display_of(children[k].values) == Display::DisplayNone,
    ensures
        boxes_of(children, in_block, children.len()) == boxes_of(
            children.remove(k),
            in_block,
            children.remove(k).len(),
        ),
{
    lemma_boxes_of_without(children, in_block, k, children.len());
}

/// The heights of the margin areas of the first `n` of `boxes`, added up.
pub open spec fn total_height(boxes: Seq<BoxModel>, n: nat) -> int
    decreases n,
{
    if n == 0 || n > boxes.len() {
        0
    } else {
        total_height(boxes, (n - 1) as nat) + boxes[n - 1].dimensions.margin_area().height
    }
}

proof fn lemma_total_height_prefix(a: Seq<BoxModel>, b: Seq<BoxModel>, n: nat)
    requires
        n <= a.len(),
        n <= b.len(),
        forall|i: int| 0 <= i < n ==> a[i] == b[i],
    ensures
        total_height(a, n) == total_height(b, n),
    decreases n,
{
    if n > 0 {
        lemma_total_height_prefix(a, b, (n - 1) as nat);
    }
}

proof fn lemma_stacked_len(children: Seq<BoxModel>, d: Dimensions, n: nat)
    requires
        n <= children.len(),
    ensures
        stacked(children, d, n).0.len() == n,
        forall|m: nat, i: int|
            i < m <= n && 0 <= i ==> #[trigger] stacked(children, d, m).0[i] == stacked(children, d, n).0[i],
    decreases n,
{
    if n > 0 {
        lemma_stacked_len(children, d, (n - 1) as nat);
    }
}

proof fn lemma_stacked_height(children: Seq<BoxModel>, d: Dimensions, n: nat)
    requires
        n <= children.len(),
        forall|m: nat|
            m <= n ==> i64::MIN <= d.content.height + #[trigger] total_height(
                stacked(children, d, n).0,
                m,
            ) <= i64::MAX,
    ensures
        stacked(children, d, n).0.len() == n,
        stacked(children, d, n).1 == (Dimensions {
            content: Rect {
                height: (d.content.height + total_height(stacked(children, d, n).0, n)) as i64,
                ..d.content
            },
            ..d
        }),
    decreases n,
{
    lemma_stacked_len(children, d, n);
    if n > 0 {
        let before = stacked(children, d, (n - 1) as nat).0;
        let all = stacked(children, d, n).0;
        assert forall|m: nat| m <= n - 1 implies i64::MIN <= d.content.height + #[trigger] total_height(
            before,
            m,
        ) <= i64::MAX by {
            lemma_total_height_prefix(before, all, m);
        }
        lemma_stacked_height(children, d, (n - 1) as nat);
        lemma_total_height_prefix(before, all, (n - 1) as nat);
    }
}

/// A block box without a declared height is as high as what it holds once
/// it is laid out: the heights of the margin areas of its children add up to
/// its height, on top of what its height was before (zero in a box that was
/// never laid out), where the box can hold every sum of the first few of
/// them.
pub proof fn lemma_height_is_sum_of_children(b: BoxModel, containing_block: Dimensions)
    requires
        b.kind is Block,
        declared_height(style_values(b.kind)) is None,
        forall|m: nat|
            m <= b.children.len() ==> i64::MIN <= b.dimensions.content.height + #[trigger] total_height(
                laid_out(b, containing_block).children,
                m,
            ) <= i64::MAX,
    ensures
        laid_out(b, containing_block).children.len() == b.children.len(),
        laid_out(b, containing_block).dimensions.content.height == b.dimensions.content.height
            + total_height(laid_out(b, containing_block).children, b.children.len()),
{
    let values = style_values(b.kind);
    let placed = with_position(
        with_width(b.dimensions, values, containing_block),
        values,
        containing_block,
    );
    assert(laid_out(b, containing_block).children == stacked(
        b.children,
        placed,
        b.children.len(),
    ).0);
    lemma_stacked_height(b.children, placed, b.children.len());
}

/// Building and laying out a styled tree twice, inside the same containing
/// block, gives the same boxes with the same dimensions both times.
pub proof fn lemma_build_and_layout_repeat(
    first: &LayoutBox,
    second: &LayoutBox,
    styled: &StyledNode,
    containing_block: Dimensions,
)
    requires
        first@ == laid_out(box_tree(styled@), containing_block),
        second@ == laid_out(box_tree(styled@), containing_block),
    ensures
        first@ == second@,
        first.dimensions == second.dimensions,
{
}

} // verus!
