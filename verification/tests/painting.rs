use render_tree::css::{parse, Color};
use render_tree::dom::{elem, AttrMap, Node};
use render_tree::layout::{build_layout_tree, BoxType, Dimensions, LayoutBox, Rect};
use render_tree::painting::{build_display_list, get_color, paint, Canvas, DisplayCommand};
use render_tree::style::style_tree;

fn element(tag: &str, children: Vec<Node>) -> Node {
    elem(String::from(tag), AttrMap::new(), children)
}

fn viewport(width: i64) -> Dimensions {
    let mut d = Dimensions::default();
    d.content.width = width;
    d
}

const WHITE: Color = Color { r: 255, g: 255, b: 255, a: 255 };
const RED: Color = Color { r: 255, g: 0, b: 0, a: 255 };
const BLUE: Color = Color { r: 0, g: 0, b: 255, a: 255 };
const BLACK: Color = Color { r: 0, g: 0, b: 0, a: 255 };

fn picture(canvas: &Canvas, of: Color) -> Vec<String> {
    (0..canvas.height)
        .map(|y| {
            (0..canvas.width)
                .map(|x| if canvas.pixels[x + y * canvas.width] == of { '#' } else { '.' })
                .collect()
        })
        .collect()
}

#[test]
fn background_then_borders_then_children() {
    let root = element("div", vec![element("p", vec![]), element("i", vec![element("p", vec![])])]);
    let css = parse(String::from(
        "div, p { display: block; } \
         div { background: #ff0000; border-color: #000000; border-width: 2px; padding: 3px; } \
         p { height: 10px; background: #0000ff; } i { border-color: #ff0000; }",
    )).unwrap();
    let styled = style_tree(&root, &css);
    let mut tree = build_layout_tree(&styled).unwrap();
    tree.layout(viewport(100));
    assert_eq!(tree.dimensions.content, Rect { x: 5, y: 5, width: 90, height: 10 });
    let list = build_display_list(&tree);
    let zero = Rect { x: 0, y: 0, width: 0, height: 0 };
    assert_eq!(
        list,
        vec![
            DisplayCommand::SolidColor(RED, Rect { x: 0, y: 0, width: 100, height: 20 }),
            DisplayCommand::SolidColor(BLACK, Rect { x: 0, y: 0, width: 2, height: 20 }),
            DisplayCommand::SolidColor(BLACK, Rect { x: 98, y: 0, width: 2, height: 20 }),
            DisplayCommand::SolidColor(BLACK, Rect { x: 0, y: 0, width: 100, height: 2 }),
            DisplayCommand::SolidColor(BLACK, Rect { x: 0, y: 18, width: 100, height: 2 }),
            DisplayCommand::SolidColor(BLUE, Rect { x: 5, y: 5, width: 90, height: 10 }),
            DisplayCommand::SolidColor(RED, zero),
            DisplayCommand::SolidColor(RED, zero),
            DisplayCommand::SolidColor(RED, zero),
            DisplayCommand::SolidColor(RED, zero),
            DisplayCommand::SolidColor(BLUE, zero),
        ]
    );
}

#[test]
fn boxes_without_colours_paint_nothing() {
    let root = element("div", vec![element("i", vec![]), element("p", vec![])]);
    let css = parse(String::from(
        "div, p { display: block; height: 4px; } div { background: red; border-color: 4px; } p { color: #0000ff; }",
    )).unwrap();
    let styled = style_tree(&root, &css);
    let mut tree = build_layout_tree(&styled).unwrap();
    tree.layout(viewport(100));
    assert!(build_display_list(&tree).is_empty());
    assert_eq!(get_color(&tree, "background"), None);
    assert_eq!(get_color(&tree.children[1], "color"), Some(BLUE));
    assert_eq!(get_color(&tree.children[1], "background"), None);
    assert_eq!(get_color(&tree.children[0], "color"), None);
    assert_eq!(get_color(&LayoutBox::new(BoxType::AnonymousBlock), "background"), None);
}

#[test]
fn new_canvas_is_white() {
    let canvas = Canvas::new(3, 2);
    assert_eq!(canvas.width, 3);
    assert_eq!(canvas.height, 2);
    assert_eq!(canvas.pixels, vec![WHITE; 6]);
    let empty = Canvas::new(0, 5);
    assert!(empty.pixels.is_empty());
    assert_eq!((empty.width, empty.height), (0, 5));
}

#[test]
fn rectangle_is_filled_row_by_row() {
    let mut canvas = Canvas::new(4, 3);
    canvas.paint_item(&DisplayCommand::SolidColor(RED, Rect { x: 1, y: 1, width: 2, height: 1 }));
    assert_eq!(picture(&canvas, RED), ["....", ".##.", "...."]);
    assert_eq!(canvas.pixels.iter().filter(|p| **p == WHITE).count(), 10);
    assert_eq!(canvas.pixels[5], RED);
    assert_eq!(canvas.pixels[6], RED);
    canvas.paint_item(&DisplayCommand::SolidColor(BLUE, Rect { x: 2, y: 0, width: 1, height: 3 }));
    assert_eq!(picture(&canvas, BLUE), ["..#.", "..#.", "..#."]);
    assert_eq!(picture(&canvas, RED), ["....", ".#..", "...."]);
    assert_eq!((canvas.width, canvas.height, canvas.pixels.len()), (4, 3, 12));
}

#[test]
fn rectangle_is_clipped_to_the_canvas() {
    let mut canvas = Canvas::new(4, 3);
    canvas.paint_item(&DisplayCommand::SolidColor(RED, Rect { x: -2, y: -1, width: 4, height: 3 }));
    assert_eq!(picture(&canvas, RED), ["##..", "##..", "...."]);
    canvas.paint_item(&DisplayCommand::SolidColor(BLUE, Rect { x: 3, y: 2, width: 100, height: 100 }));
    assert_eq!(picture(&canvas, BLUE), ["....", "....", "...#"]);
    canvas.paint_item(&DisplayCommand::SolidColor(BLACK, Rect { x: i64::MIN, y: i64::MIN, width: i64::MAX, height: i64::MAX }));
    canvas.paint_item(&DisplayCommand::SolidColor(BLACK, Rect { x: 4, y: 0, width: 5, height: 5 }));
    canvas.paint_item(&DisplayCommand::SolidColor(BLACK, Rect { x: 0, y: 3, width: 5, height: 5 }));
    canvas.paint_item(&DisplayCommand::SolidColor(BLACK, Rect { x: 1, y: 1, width: 0, height: 2 }));
    canvas.paint_item(&DisplayCommand::SolidColor(BLACK, Rect { x: 1, y: 1, width: 2, height: 0 }));
    canvas.paint_item(&DisplayCommand::SolidColor(BLACK, Rect { x: 3, y: 2, width: -2, height: -2 }));
    canvas.paint_item(&DisplayCommand::SolidColor(BLACK, Rect { x: i64::MAX, y: i64::MAX, width: i64::MAX, height: i64::MAX }));
    assert_eq!(picture(&canvas, BLACK), ["....", "....", "...."]);
    canvas.paint_item(&DisplayCommand::SolidColor(BLACK, Rect { x: i64::MIN, y: 1, width: i64::MAX, height: 1 }));
    assert_eq!(picture(&canvas, BLACK), ["....", "....", "...."]);
    canvas.paint_item(&DisplayCommand::SolidColor(BLACK, Rect { x: -1, y: -1, width: i64::MAX, height: i64::MAX }));
    assert_eq!(picture(&canvas, BLACK), ["####", "####", "####"]);
}

#[test]
fn later_commands_lie_on_top() {
    let root = element("div", vec![element("p", vec![])]);
    let css = parse(String::from(
        "div, p { display: block; } div { background: #ff0000; padding: 1px; } \
         p { height: 1px; width: 2px; background: #0000ff; border-color: #000000; border-right-width: 1px; }",
    )).unwrap();
    let styled = style_tree(&root, &css);
    let mut tree = build_layout_tree(&styled).unwrap();
    tree.layout(viewport(6));
    let canvas = paint(&tree, Rect { x: 0, y: 0, width: 7, height: 4 });
    assert_eq!((canvas.width, canvas.height), (7, 4));
    assert_eq!(picture(&canvas, RED), ["######.", "#...##.", "######.", "......."]);
    assert_eq!(picture(&canvas, BLUE), [".......", ".##....", ".......", "......."]);
    assert_eq!(picture(&canvas, BLACK), [".......", "...#...", ".......", "......."]);
    assert_eq!(picture(&canvas, WHITE), ["......#", "......#", "......#", "#######"]);
    let none = paint(&tree, Rect { x: 0, y: 0, width: -7, height: 4 });
    assert_eq!((none.width, none.height, none.pixels.len()), (0, 4, 0));
}
