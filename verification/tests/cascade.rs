use render_tree::css::{parse, Color, Rule, Selector, SimpleSelector, Stylesheet, Unit, Value};
use render_tree::dom::{elem, is_whitespace, split_words, text, AttrMap, ElementData, Node, NodeType};
use render_tree::style::{
    match_rule, matches_simple_selector, specified_values, style_tree, Display,
    PropertyMap, StyledNode,
};

fn element(tag: &str, attrs: &[(&str, &str)], children: Vec<Node>) -> Node {
    let mut map = AttrMap::new();
    for (name, value) in attrs {
        map.insert(String::from(*name), String::from(*value));
    }
    elem(String::from(tag), map, children)
}

fn element_data(node: &Node) -> &ElementData {
    match &node.node_type {
        NodeType::Element(data) => data,
        NodeType::Text(_) => panic!("not an element"),
    }
}

fn simple(tag: Option<&str>, id: Option<&str>, class: &[&str]) -> SimpleSelector {
    SimpleSelector {
        tag_name: tag.map(String::from),
        id: id.map(String::from),
        class: class.iter().map(|c| String::from(*c)).collect(),
    }
}

fn red() -> Value {
    Value::ColorValue(Color { r: 204, g: 0, b: 0, a: 255 })
}

#[test]
fn test_style_tree_overwrite() {
    let css_source = String::from(
        r#"
        p {
          color: #cccccc;
        }

        p.name {
          color: #cc0000;
        }
        "#,
    );
    let root = element("p", &[("class", "name")], vec![text(String::from("Hello"))]);
    let css = parse(css_source).unwrap();

    let mut specified_values = PropertyMap::new();
    specified_values.insert(
        String::from("color"),
        Value::ColorValue(Color {
            r: 204,
            g: 0,
            b: 0,
            a: 255,
        }),
    );
    let text = text(String::from("Hello"));
    let expected = StyledNode {
        node: &root,
        specified_values,
        children: vec![StyledNode {
            node: &text,
            specified_values: PropertyMap::new(),
            children: vec![],
        }],
    };
    let styled = style_tree(&root, &css);
    assert!(std::ptr::eq(styled.node, expected.node));
    assert_eq!(expected.specified_values.len(), styled.specified_values.len());
    assert_eq!(styled.specified_values.len(), 1);
    assert_eq!(expected.value("color"), styled.value("color"));
    assert_eq!(styled.value("color"), Some(red()));
    assert_eq!(expected.children.len(), styled.children.len());
    assert!(std::ptr::eq(styled.children[0].node, &root.children[0]));
    assert!(matches!(&styled.children[0].node.node_type, NodeType::Text(t) if t == "Hello"));
    assert_eq!(styled.children[0].specified_values.len(), 0);
    assert_eq!(styled.children[0].children.len(), 0);
}

#[test]
fn overwrite_does_not_depend_on_the_order_of_the_rules() {
    let root = element("p", &[("class", "name")], vec![]);
    let css = parse(String::from("p.name { color: #cc0000; } p { color: #cccccc; }")).unwrap();
    let styled = style_tree(&root, &css);
    assert_eq!(styled.value("color"), Some(red()));
}

#[test]
fn rules_of_one_weight_apply_in_stylesheet_order() {
    let root = element("p", &[("class", "a b")], vec![]);
    let css = parse(String::from(".a { width: 1px; } .b { width: 2px; } p { width: 3px; }")).unwrap();
    let styled = style_tree(&root, &css);
    assert_eq!(styled.value("width"), Some(Value::Length(2, Unit::Px)));
    let css = parse(String::from(".b { width: 2px; } .a { width: 1px; } p { width: 3px; }")).unwrap();
    let styled = style_tree(&root, &css);
    assert_eq!(styled.value("width"), Some(Value::Length(1, Unit::Px)));
}

#[test]
fn last_declaration_of_a_rule_wins() {
    let root = element("p", &[], vec![]);
    let css = parse(String::from("p { width: 1px; height: 7px; width: 2px; }")).unwrap();
    let styled = style_tree(&root, &css);
    assert_eq!(styled.specified_values.len(), 2);
    assert_eq!(styled.value("width"), Some(Value::Length(2, Unit::Px)));
    assert_eq!(styled.value("height"), Some(Value::Length(7, Unit::Px)));
}

#[test]
fn distinct_properties_do_not_interact() {
    let root = element("p", &[("id", "x")], vec![]);
    let css = parse(String::from("#x { color: #cc0000; } p { width: 5px; } * { display: block; }")).unwrap();
    let styled = style_tree(&root, &css);
    assert_eq!(styled.specified_values.len(), 3);
    assert_eq!(styled.value("color"), Some(red()));
    assert_eq!(styled.value("width"), Some(Value::Length(5, Unit::Px)));
    assert_eq!(styled.value("display"), Some(Value::Keyword(String::from("block"))));
    assert_eq!(styled.value("height"), None);
}

#[test]
fn element_without_matching_rule_has_no_properties() {
    let root = element("div", &[], vec![]);
    let css = parse(String::from("p { color: #cc0000; } .x { width: 1px; }")).unwrap();
    let styled = style_tree(&root, &css);
    assert_eq!(styled.specified_values.len(), 0);
    assert_eq!(styled.value("color"), None);
}

#[test]
fn first_matching_selector_gives_the_weight() {
    // The rule lists `p#main` before `p`; the element is matched by `p` alone.
    let rule = Rule {
        selectors: vec![
            Selector::Simple(simple(Some("p"), Some("main"), &[])),
            Selector::Simple(simple(Some("p"), None, &[])),
        ],
        declarations: vec![],
    };
    let node = element("p", &[], vec![]);
    let found = match_rule(element_data(&node), &rule).unwrap();
    assert_eq!(found.0, (0, 0, 1));
    assert!(std::ptr::eq(found.1, &rule));
    let node = element("p", &[("id", "main")], vec![]);
    assert_eq!(match_rule(element_data(&node), &rule).unwrap().0, (1, 0, 1));
    let node = element("div", &[("id", "main")], vec![]);
    assert!(match_rule(element_data(&node), &rule).is_none());
}

#[test]
fn weight_of_a_rule_decides_against_a_heavier_selector_that_does_not_match() {
    // `a, b.x { .. }` holds of `<b class="x">` through `b.x` alone, and so
    // outweighs a rule on `b`, but not one on `b.x.y`.
    let node = element("b", &[("class", "x y")], vec![]);
    let css = parse(String::from("a, b.x { width: 1px; } b { width: 2px; }")).unwrap();
    assert_eq!(style_tree(&node, &css).value("width"), Some(Value::Length(1, Unit::Px)));
    let css = parse(String::from("b.x.y { width: 3px; } a, b.x { width: 1px; }")).unwrap();
    assert_eq!(style_tree(&node, &css).value("width"), Some(Value::Length(3, Unit::Px)));
    // With `a#i` in the list, the rule still weighs what `b.x` weighs.
    let css = parse(String::from("b.x { width: 4px; } a#i.k.l, b.x { width: 1px; } ")).unwrap();
    assert_eq!(style_tree(&node, &css).value("width"), Some(Value::Length(1, Unit::Px)));
    let css = parse(String::from("a#i.k.l, b.x { width: 1px; } b.x { width: 4px; }")).unwrap();
    assert_eq!(style_tree(&node, &css).value("width"), Some(Value::Length(4, Unit::Px)));
}

#[test]
fn selector_matching() {
    let node = element("p", &[("id", "main"), ("class", "note  big\twide")], vec![]);
    let data = element_data(&node);
    assert!(matches_simple_selector(data, &simple(None, None, &[])));
    assert!(matches_simple_selector(data, &simple(Some("p"), None, &[])));
    assert!(!matches_simple_selector(data, &simple(Some("div"), None, &[])));
    assert!(matches_simple_selector(data, &simple(None, Some("main"), &[])));
    assert!(!matches_simple_selector(data, &simple(None, Some("other"), &[])));
    assert!(matches_simple_selector(data, &simple(None, None, &["big"])));
    assert!(matches_simple_selector(data, &simple(None, None, &["wide", "note"])));
    assert!(!matches_simple_selector(data, &simple(None, None, &["note", "small"])));
    assert!(!matches_simple_selector(data, &simple(None, None, &["not"])));
    assert!(matches_simple_selector(data, &simple(Some("p"), Some("main"), &["note", "big", "wide"])));
    assert!(render_tree::style::matches(data, &Selector::Simple(simple(Some("p"), None, &["big"]))));
    assert!(!render_tree::style::matches(data, &Selector::Simple(simple(Some("p"), None, &["bigger"]))));
    let bare = element("p", &[], vec![]);
    assert!(!matches_simple_selector(element_data(&bare), &simple(None, Some("main"), &[])));
    assert!(!matches_simple_selector(element_data(&bare), &simple(None, None, &["note"])));
    assert!(matches_simple_selector(element_data(&bare), &simple(Some("p"), None, &[])));
}

#[test]
fn id_and_classes_of_an_element() {
    let node = element("p", &[("id", "main"), ("class", " a  b\nc ")], vec![]);
    let data = element_data(&node);
    assert_eq!(data.id(), Some(&String::from("main")));
    assert_eq!(data.classes(), vec!["a", "b", "c"]);
    let bare = element("p", &[], vec![]);
    assert_eq!(element_data(&bare).id(), None);
    assert!(element_data(&bare).classes().is_empty());
}

#[test]
fn words_are_split_at_white_space() {
    assert_eq!(split_words("one two"), vec!["one", "two"]);
    assert_eq!(split_words("  one\t\ttwo\r\nthree  "), vec!["one", "two", "three"]);
    assert_eq!(split_words("single"), vec!["single"]);
    assert_eq!(split_words("a\u{a0}b\u{3000}c\u{2003}d"), vec!["a", "b", "c", "d"]);
    assert_eq!(split_words("a\u{200b}b"), vec!["a\u{200b}b"]);
    assert!(split_words("").is_empty());
    assert!(split_words(" \t\n").is_empty());
    for c in ['\t', '\n', '\u{b}', '\u{c}', '\r', ' ', '\u{85}', '\u{a0}', '\u{1680}', '\u{2000}',
        '\u{200a}', '\u{2028}', '\u{2029}', '\u{202f}', '\u{205f}', '\u{3000}'] {
        assert!(is_whitespace(c));
        assert!(c.is_whitespace());
    }
    for c in ['a', '0', '-', '\u{8}', '\u{e}', '\u{200b}', '\u{feff}', '\u{180e}'] {
        assert!(!is_whitespace(c));
        assert!(!c.is_whitespace());
    }
}

#[test]
fn text_nodes_get_no_properties() {
    let root = element("p", &[], vec![text(String::from("a")), element("p", &[], vec![]), text(String::from("b"))]);
    let css = parse(String::from("* { color: #cc0000; } p { width: 1px; }")).unwrap();
    let styled = style_tree(&root, &css);
    assert_eq!(styled.children.len(), 3);
    assert_eq!(styled.children[0].specified_values.len(), 0);
    assert_eq!(styled.children[1].specified_values.len(), 2);
    assert_eq!(styled.children[2].specified_values.len(), 0);
    for (i, child) in styled.children.iter().enumerate() {
        assert!(std::ptr::eq(child.node, &root.children[i]));
    }
}

#[test]
fn styled_tree_mirrors_the_document() {
    let root = element(
        "div",
        &[],
        vec![
            element("p", &[], vec![text(String::from("x")), element("b", &[], vec![])]),
            element("p", &[], vec![]),
        ],
    );
    let css = Stylesheet { rules: vec![] };
    let styled = style_tree(&root, &css);
    assert_eq!(styled.children.len(), 2);
    assert_eq!(styled.children[0].children.len(), 2);
    assert_eq!(styled.children[0].children[0].children.len(), 0);
    assert_eq!(styled.children[0].children[1].children.len(), 0);
    assert_eq!(styled.children[1].children.len(), 0);
    assert!(std::ptr::eq(styled.children[0].children[1].node, &root.children[0].children[1]));
}

#[test]
fn cascade_gives_the_same_result_each_time() {
    let root = element("p", &[("class", "a b"), ("id", "i")], vec![text(String::from("t"))]);
    let css = parse(String::from(
        ".a { width: 1px; color: #010203; } #i { width: 9px; } p, .b { height: 4px; display: block; }",
    )).unwrap();
    let first = style_tree(&root, &css);
    let second = style_tree(&root, &css);
    assert_eq!(first.specified_values.len(), 4);
    assert_eq!(first.specified_values.len(), second.specified_values.len());
    for name in ["width", "color", "height", "display", "margin"] {
        assert_eq!(first.value(name), second.value(name));
    }
    assert_eq!(first.value("width"), Some(Value::Length(9, Unit::Px)));
    assert_eq!(first.children.len(), second.children.len());
}

#[test]
fn specified_values_of_one_element() {
    let node = element("p", &[("class", "k")], vec![]);
    let css = parse(String::from("p { width: 1px; } .k { width: 2px; height: 3px; }")).unwrap();
    let values = specified_values(element_data(&node), &css);
    assert_eq!(values.len(), 2);
    assert_eq!(values.get("width"), Some(&Value::Length(2, Unit::Px)));
    assert_eq!(values.get("height"), Some(&Value::Length(3, Unit::Px)));
    assert_eq!(values.get("depth"), None);
}

#[test]
fn lookup_falls_back_twice() {
    let root = element("p", &[], vec![]);
    let css = parse(String::from("p { margin: 4px; margin-left: 9px; }")).unwrap();
    let styled = style_tree(&root, &css);
    let zero = Value::Length(0, Unit::Px);
    assert_eq!(styled.lookup("margin-left", "margin", &zero), Value::Length(9, Unit::Px));
    assert_eq!(styled.lookup("margin-right", "margin", &zero), Value::Length(4, Unit::Px));
    assert_eq!(styled.lookup("padding-left", "padding", &zero), zero);
    assert_eq!(styled.value("margin-right"), None);
}

#[test]
fn display_classification() {
    let cases = [
        ("p { display: block; }", Display::Block),
        ("p { display: none; }", Display::DisplayNone),
        ("p { display: inline; }", Display::Inline),
        ("p { display: flex; }", Display::Inline),
        ("p { display: Block; }", Display::Inline),
        ("p { display: 3px; }", Display::Inline),
        ("p { display: #000000; }", Display::Inline),
        ("p { width: 3px; }", Display::Inline),
        ("", Display::Inline),
    ];
    for (source, expected) in cases {
        let root = element("p", &[], vec![]);
        let css = parse(String::from(source)).unwrap();
        assert_eq!(style_tree(&root, &css).display(), expected, "{}", source);
    }
}

#[test]
fn document_nodes() {
    let t = text(String::from("hi"));
    assert!(t.children.is_empty());
    assert!(matches!(&t.node_type, NodeType::Text(s) if s == "hi"));
    let e = element("a", &[("href", "x"), ("id", "l")], vec![t]);
    assert_eq!(e.children.len(), 1);
    let data = element_data(&e);
    assert_eq!(data.tag_name, "a");
    assert_eq!(data.attributes.len(), 2);
    assert_eq!(data.attributes.get("href"), Some(&String::from("x")));
    assert_eq!(data.attributes.get("rel"), None);
    let mut attrs = AttrMap::new();
    attrs.insert(String::from("k"), String::from("1"));
    attrs.insert(String::from("k"), String::from("2"));
    assert_eq!(attrs.len(), 1);
    assert_eq!(attrs.get("k"), Some(&String::from("2")));
}
