//! Painting: the list of rectangles to fill for a tree of laid-out boxes,
//! and a canvas that fills them.

use vstd::prelude::*;
use vstd::arithmetic::div_mod::lemma_fundamental_div_mod_converse;
use crate::css::{Color, Value};
use crate::layout::{clamp, clamp_i64, BoxKind, BoxModel, BoxType, Dimensions, LayoutBox, Rect};
use crate::layout::lemma_children_view;

verus! {

/// One step of painting.
#[derive(Clone, Copy, Debug, PartialEq, Eq, Structural)]
pub enum DisplayCommand {
    /// Fill the rectangle with the colour.
    SolidColor(Color, Rect),
}

/// The steps of painting, in the order in which they are carried out: what
/// comes later lies on top.
pub type DisplayList = Vec<DisplayCommand>;

/// The colour that a box declares for property `name`, if it declares one.
pub open spec fn color_of(kind: BoxKind, name: Seq<char>) -> Option<Color> {
    match kind {
        BoxKind::Anonymous => None,
        BoxKind::Block(node) | BoxKind::Inline(node) => if node.values.contains_key(name) {
            match node.values[name] {
                Value::ColorValue(color) => Some(color),
                _ => None,
            }
        } else {
            None
        },
    }
}

/// The background of a box: its border area in the colour of its
/// `background`.
pub open spec fn background_of(b: BoxModel) -> Seq<DisplayCommand> {
    match color_of(b.kind, "background"@) {
        Some(color) => seq![DisplayCommand::SolidColor(color, b.dimensions.border_area())],
        None => Seq::empty(),
    }
}

/// The four strips of the border of a box with dimensions `d`: left, right,
/// top, bottom.
pub open spec fn border_strips(d: Dimensions) -> Seq<Rect> {
    let area = d.border_area();
    seq![
        Rect { x: area.x, y: area.y, width: d.border.left, height: area.height },
        Rect {
            x: clamp(area.x + area.width - d.border.right) as i64,
            y: area.y,
            width: d.border.right,
            height: area.height,
        },
        Rect { x: area.x, y: area.y, width: area.width, height: d.border.top },
        Rect {
            x: area.x,
            y: clamp(area.y + area.height - d.border.bottom) as i64,
            width: area.width,
            height: d.border.bottom,
        },
    ]
}

/// The borders of a box: its four strips in its `border-color`.
pub open spec fn borders_of(b: BoxModel) -> Seq<DisplayCommand> {
    match color_of(b.kind, "border-color"@) {
        Some(color) => border_strips(b.dimensions).map_values(
            |strip: Rect| DisplayCommand::SolidColor(color, strip),
        ),
        None => Seq::empty(),
    }
}

/// The commands of the first `n` of `boxes`, one box after the other.
pub open spec fn commands_of_all(boxes: Seq<BoxModel>, n: nat) -> Seq<DisplayCommand>
    decreases boxes, n,
{
    if n == 0 || n > boxes.len() {
        Seq::empty()
    } else {
        commands_of_all(boxes, (n - 1) as nat) + commands_of(boxes[n - 1])
    }
}

/// The commands that paint a box: its background, its borders, and then
/// what it holds.
pub open spec fn commands_of(b: BoxModel) -> Seq<DisplayCommand>
    decreases b, 0nat,
{
    background_of(b) + borders_of(b) + commands_of_all(b.children, b.children.len())
}

/// The colour that a box declares for property `name`.
pub fn get_color(layout_box: &LayoutBox, name: &str) -> (r: Option<Color>)
    ensures
        r == color_of(layout_box.box_type@, name@),
{
    match layout_box.box_type {
        BoxType::BlockNode(style) | BoxType::InlineNode(style) => match style.value(name) {
            Some(Value::ColorValue(color)) => Some(color),
            _ => None,
        },
        BoxType::AnonymousBlock => None,
    }
}

fn render_background(list: &mut DisplayList, layout_box: &LayoutBox)
    ensures
        final(list)@ == old(list)@ + background_of(layout_box@),
{
    match get_color(layout_box, "background") {
        Some(color) => {
            list.push(DisplayCommand::SolidColor(color, layout_box.dimensions.border_box()));
        },
        None => {},
    }
}

fn render_borders(list: &mut DisplayList, layout_box: &LayoutBox)
    ensures
        final(list)@ == old(list)@ + borders_of(layout_box@),
{
    let color = match get_color(layout_box, "border-color") {
        Some(color) => color,
        _ => {
            return ;
        },
    };
    let d = layout_box.dimensions;
    let border_box = d.border_box();
    // Left border
    list.push(
        DisplayCommand::SolidColor(
            color,
            Rect { x: border_box.x, y: border_box.y, width: d.border.left, height: border_box.height },
        ),
    );
    // Right border
    list.push(
        DisplayCommand::SolidColor(
            color,
            Rect {
                x: clamp_i64(border_box.x as i128 + border_box.width as i128 - d.border.right as i128),
                y: border_box.y,
                width: d.border.right,
                height: border_box.height,
            },
        ),
    );
    // Top border
    list.push(
        DisplayCommand::SolidColor(
            color,
            Rect { x: border_box.x, y: border_box.y, width: border_box.width, height: d.border.top },
        ),
    );
    // Bottom border
    list.push(
        DisplayCommand::SolidColor(
            color,
            Rect {
                x: border_box.x,
                y: clamp_i64(
                    border_box.y as i128 + border_box.height as i128 - d.border.bottom as i128,
                ),
                width: border_box.width,
                height: d.border.bottom,
            },
        ),
    );
}

fn render_layout_box(list: &mut DisplayList, layout_box: &LayoutBox)
    ensures
        final(list)@ == old(list)@ + commands_of(layout_box@),
    decreases layout_box,
{
    render_background(list, layout_box);
    render_borders(list, layout_box);
    let ghost own = list@;
    let ghost boxes = layout_box@.children;
    proof {
        lemma_children_view(*layout_box);
    }
    let mut i: usize = 0;
    while i < layout_box.children.len()
        invariant
            0 <= i <= layout_box.children@.len(),
            boxes == layout_box@.children,
            boxes.len() == layout_box.children@.len(),
            forall|j: int| 0 <= j < boxes.len() ==> boxes[j] == (#[trigger] layout_box.children@[j])@,
            list@ == own + commands_of_all(boxes, i as nat),
        decreases layout_box.children@.len() - i,
    {
        render_layout_box(list, &layout_box.children[i]);
        i = i + 1;
    }
}

/// The list of commands that paints a tree of laid-out boxes: each box
/// before the boxes that it holds.
pub fn build_display_list(layout_root: &LayoutBox) -> (r: DisplayList)
    ensures
        r@ == commands_of(layout_root@),
{
    let mut list: Vec<DisplayCommand> = Vec::new();
    render_layout_box(&mut list, layout_root);
    list
}

/// A rectangle of pixels, row after row.
pub struct Canvas {
    pub pixels: Vec<Color>,
    pub width: usize,
    pub height: usize,
}

/// Opaque white.
pub open spec fn white() -> Color {
    Color { r: 255, g: 255, b: 255, a: 255 }
}

/// Whether `rect` covers the pixel in column `x` of row `y`.
pub open spec fn covers(rect: Rect, x: int, y: int) -> bool {
    rect.x <= x < rect.x + rect.width && rect.y <= y < rect.y + rect.height
}

/// The pixels of a canvas of the given width after one command: the pixels
/// that the rectangle covers have its colour, the others are as they were.
pub open spec fn painted_once(
    pixels: Seq<Color>,
    width: int,
    command: DisplayCommand,
) -> Seq<Color> {
    match command {
        DisplayCommand::SolidColor(color, rect) => Seq::new(
            pixels.len(),
            |i: int|
                if width > 0 && covers(rect, i % width, i / width) {
                    color
                } else {
                    pixels[i]
                },
        ),
    }
}

/// The pixels after the first `n` of `commands`, carried out in order.
pub open spec fn painted(
    pixels: Seq<Color>,
    width: int,
    commands: Seq<DisplayCommand>,
    n: nat,
) -> Seq<Color>
    decreases n,
{
    if n == 0 || n > commands.len() {
        pixels
    } else {
        painted_once(painted(pixels, width, commands, (n - 1) as nat), width, commands[n - 1])
    }
}

/// `v` held to the range from zero to `limit`.
fn clip(v: i128, limit: usize) -> (r: usize)
    ensures
        r == (if v < 0 {
            0
        } else if v > limit {
            limit as int
        } else {
            v as int
        }),
{
    if v < 0 {
        0
    } else if v > limit as i128 {
        limit
    } else {
        v as usize
    }
}

impl Canvas {
    /// The canvas has one pixel for each place.
    pub open spec fn wf(&self) -> bool {
        self.pixels@.len() == self.width * self.height
    }

    /// A canvas that is white all over.
    pub fn new(width: usize, height: usize) -> (r: Canvas)
        requires
            width * height <= usize::MAX,
        ensures
            r.wf(),
            r.width == width,
            r.height == height,
            forall|i: int| 0 <= i < r.pixels@.len() ==> r.pixels@[i] == white(),
    {
        let white = Color { r: 255, g: 255, b: 255, a: 255 };
        Canvas { pixels: vec![white; width * height], width, height }
    }

    /// Carries out one command: fills the part of its rectangle that lies
    /// on the canvas.
    pub fn paint_item(&mut self, item: &DisplayCommand)
        requires
            old(self).wf(),
        ensures
            final(self).wf(),
            final(self).width == old(self).width,
            final(self).height == old(self).height,
            final(self).pixels@ == painted_once(old(self).pixels@, old(self).width as int, *item),
    {
        match item {
            DisplayCommand::SolidColor(color, rect) => {
                // Clip the rectangle to the canvas.
                let x0 = clip(rect.x as i128, self.width);
                let y0 = clip(rect.y as i128, self.height);
                let x1 = clip(rect.x as i128 + rect.width as i128, self.width);
                let y1 = clip(rect.y as i128 + rect.height as i128, self.height);
                let w: usize = self.width;
                let h: usize = self.height;
                let total: usize = self.pixels.len();
                let mut y: usize = y0;
                while y < y1
                    invariant
                        self.width == w,
                        self.height == h,
                        self.pixels@.len() == w * h,
                        old(self).pixels@.len() == w * h,
                        total == w * h,
                        y0 <= y,
                        y <= y1 || y == y0,
                        y1 <= h,
                        x1 <= w,
                        forall|i: int|
                            0 <= i < w * h ==> #[trigger] self.pixels@[i] == (if w > 0 && y0 <= i / (
                            w as int) < y && x0 <= i % (w as int) < x1 {
                                *color
                            } else {
                                old(self).pixels@[i]
                            }),
                    decreases h - y,
                {
                    let mut x: usize = x0;
                    while x < x1
                        invariant
                            self.width == w,
                            self.height == h,
                            self.pixels@.len() == w * h,
                            old(self).pixels@.len() == w * h,
                            total == w * h,
                            x0 <= x,
                            y0 <= y < y1,
                            y1 <= h,
                            x1 <= w,
                            forall|i: int|
                                0 <= i < w * h ==> #[trigger] self.pixels@[i] == (if w > 0 && x0 <= i % (
                                w as int) < x1 && (y0 <= i / (w as int) < y || (i / (w as int) == y && i % (
                                w as int) < x)) {
                                    *color
                                } else {
                                    old(self).pixels@[i]
                                }),
                        decreases w - x,
                    {
                        proof {
                            assert(y * w + x < w * h) by (nonlinear_arith)
                                requires
                                    x < w,
                                    y < h,
                            ;
                            assert(0 <= y * w) by (nonlinear_arith)
                                requires
                                    0 <= y,
                                    0 <= w,
                            ;
                            lemma_fundamental_div_mod_converse(y * w + x, w as int, y as int, x as int);
                        }
                        let at: usize = x + y * w;
                        self.pixels.set(at, *color);
                        assert forall|i: int| 0 <= i < w * h implies #[trigger] self.pixels@[i] == (if w > 0
                            && x0 <= i % (w as int) < x1 && (y0 <= i / (w as int) < y || (i / (w as int)
                            == y && i % (w as int) < x + 1)) {
                            *color
                        } else {
                            old(self).pixels@[i]
                        }) by {
                            if i != at {
                                if i / (w as int) == y && i % (w as int) == x {
                                    vstd::arithmetic::div_mod::lemma_fundamental_div_mod(i, w as int);
                                    assert((w as int) * (y as int) == y * w) by (nonlinear_arith);
                                }
                            }
                        }
                        x = x + 1;
                    }
                    y = y + 1;
                }
                proof {
                    let target = painted_once(old(self).pixels@, w as int, *item);
                    assert forall|i: int| 0 <= i < w * h implies self.pixels@[i] == target[i] by {
                        if w > 0 {
                            vstd::arithmetic::div_mod::lemma_fundamental_div_mod(i, w as int);
                            let row = i / (w as int);
                            let col = i % (w as int);
                            assert(0 <= row) by (nonlinear_arith)
                                requires
                                    i == (w as int) * row + col,
                                    0 <= i,
                                    0 <= col < w,
                            ;
                            assert(row < h) by (nonlinear_arith)
                                requires
                                    i == (w as int) * row + col,
                                    i < w * h,
                                    0 <= col < w,
                            ;
                        }
                    }
                }
            },
        }
    }
}

/// The number of pixels that a side of `v` units gets: none for a negative
/// side, and no more than a `usize` holds.
pub open spec fn span(v: i64) -> int {
    if v < 0 {
        0
    } else if v > usize::MAX {
        usize::MAX as int
    } else {
        v as int
    }
}

/// Paints a tree of laid-out boxes onto a white canvas as large as `bounds`.
pub fn paint(layout_root: &LayoutBox, bounds: Rect) -> (r: Canvas)
    requires
        span(bounds.width) * span(bounds.height) <= usize::MAX,
    ensures
        r.wf(),
        r.width == span(bounds.width),
        r.height == span(bounds.height),
        r.pixels@ == painted(
            Seq::new((span(bounds.width) * span(bounds.height)) as nat, |i: int| white()),
            span(bounds.width),
            commands_of(layout_root@),
            commands_of(layout_root@).len(),
        ),
{
    let display_list = build_display_list(layout_root);
    let width = clip(bounds.width as i128, usize::MAX);
    let height = clip(bounds.height as i128, usize::MAX);
    let mut canvas = Canvas::new(width, height);
    let ghost blank = canvas.pixels@;
    assert(blank =~= Seq::new((span(bounds.width) * span(bounds.height)) as nat, |i: int| white()));
    let mut i: usize = 0;
    while i < display_list.len()
        invariant
            0 <= i <= display_list@.len(),
            canvas.wf(),
            canvas.width == width,
            canvas.height == height,
            canvas.pixels@ == painted(blank, width as int, display_list@, i as nat),
        decreases display_list@.len() - i,
    {
        canvas.paint_item(&display_list[i]);
        i = i + 1;
    }
    canvas
}

} // verus!
