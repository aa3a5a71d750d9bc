use render_tree::css::{
    hex_digit, is_below, is_digit_char, parse, same_text, sort_selectors, valid_identifier_char,
    Color, Declaration, ParseError, Parser, Selector, SimpleSelector, Size, Unit, Value,
};

fn simple(tag: Option<&str>, id: Option<&str>, class: &[&str]) -> Selector {
    Selector::Simple(SimpleSelector {
        tag_name: tag.map(String::from),
        id: id.map(String::from),
        class: class.iter().map(|c| String::from(*c)).collect(),
    })
}

#[test]
fn specificity_counts_id_classes_and_tag() {
    assert_eq!(simple(None, None, &[]).specificity(), (0, 0, 0));
    assert_eq!(simple(Some("p"), None, &[]).specificity(), (0, 0, 1));
    assert_eq!(simple(None, Some("i"), &[]).specificity(), (1, 0, 0));
    assert_eq!(simple(None, None, &["a", "b", "c"]).specificity(), (0, 3, 0));
    assert_eq!(simple(Some("p"), Some("i"), &["a", "b"]).specificity(), (1, 2, 1));
}

#[test]
fn weights_are_ordered_as_triples() {
    assert!(is_below((0, 0, 1), (0, 1, 0)));
    assert!(is_below((0, 9, 9), (1, 0, 0)));
    assert!(is_below((1, 2, 3), (1, 2, 4)));
    assert!(is_below((1, 2, 3), (1, 3, 0)));
    assert!(!is_below((1, 2, 3), (1, 2, 3)));
    assert!(!is_below((1, 0, 0), (0, 9, 9)));
    assert!(!is_below((0, 1, 0), (0, 0, 1)));
    for a in [(0usize, 0usize, 0usize), (0, 0, 1), (0, 2, 0), (1, 0, 0), (1, 2, 1)] {
        for b in [(0usize, 0usize, 0usize), (0, 0, 1), (0, 2, 0), (1, 0, 0), (1, 2, 1)] {
            assert_eq!(is_below(a, b), a < b);
        }
    }
}

#[test]
fn simple_selector_parts() {
    let mut parser = Parser::new(String::from("p#main.a.b{"));
    let selector = parser.parse_simple_selector();
    assert_eq!(selector.tag_name, Some(String::from("p")));
    assert_eq!(selector.id, Some(String::from("main")));
    assert_eq!(selector.class, vec!["a", "b"]);
    assert_eq!(parser.pos, 10);

    let mut parser = Parser::new(String::from("*.x y"));
    let selector = parser.parse_simple_selector();
    assert_eq!(selector.tag_name, None);
    assert_eq!(selector.id, None);
    assert_eq!(selector.class, vec!["x"]);
    assert_eq!(parser.pos, 3);

    let mut parser = Parser::new(String::from("#a#b.c-d_9 "));
    let selector = parser.parse_simple_selector();
    assert_eq!(selector.id, Some(String::from("b")));
    assert_eq!(selector.class, vec!["c-d_9"]);
    assert_eq!(parser.pos, 10);

    let mut parser = Parser::new(String::from("h1h2"));
    let selector = parser.parse_simple_selector();
    assert_eq!(selector.tag_name, Some(String::from("h1h2")));
    assert!(parser.eof());

    let mut parser = Parser::new(String::from(",p"));
    let selector = parser.parse_simple_selector();
    assert_eq!(selector, SimpleSelector { tag_name: None, id: None, class: vec![] });
    assert_eq!(parser.pos, 0);

    let mut parser = Parser::new(String::from(".{"));
    let selector = parser.parse_simple_selector();
    assert_eq!(selector.class, vec![""]);
    assert_eq!(parser.pos, 1);

    let mut parser = Parser::new(String::from("é.a"));
    let selector = parser.parse_simple_selector();
    assert_eq!(selector, SimpleSelector { tag_name: None, id: None, class: vec![] });
    assert_eq!(parser.pos, 0);
}

#[test]
fn selectors_come_out_heaviest_first() {
    let mut parser = Parser::new(String::from("p, .a.b ,#i,div.c {"));
    let selectors = parser.parse_selectors().unwrap();
    assert_eq!(parser.pos, 18);
    assert_eq!(parser.next_char(), '{');
    assert_eq!(
        selectors,
        vec![
            simple(None, Some("i"), &[]),
            simple(None, None, &["a", "b"]),
            simple(Some("div"), None, &["c"]),
            simple(Some("p"), None, &[]),
        ]
    );
}

#[test]
fn selectors_of_one_weight_keep_their_order() {
    let mut parser = Parser::new(String::from("b, a, .y, c, .x{"));
    let selectors = parser.parse_selectors().unwrap();
    assert_eq!(
        selectors,
        vec![
            simple(None, None, &["y"]),
            simple(None, None, &["x"]),
            simple(Some("b"), None, &[]),
            simple(Some("a"), None, &[]),
            simple(Some("c"), None, &[]),
        ]
    );
    let sorted = sort_selectors(vec![
        simple(Some("a"), None, &[]),
        simple(None, Some("k"), &[]),
        simple(Some("b"), None, &[]),
        simple(None, Some("j"), &[]),
    ]);
    assert_eq!(
        sorted,
        vec![
            simple(None, Some("k"), &[]),
            simple(None, Some("j"), &[]),
            simple(Some("a"), None, &[]),
            simple(Some("b"), None, &[]),
        ]
    );
    assert!(sort_selectors(vec![]).is_empty());
}

#[test]
fn selector_list_must_end_in_a_brace() {
    for source in ["p", "p ", "p, ", "p ; {", "p > a {", "p a {", "p,a}", "", "p, a = b {", "é {"] {
        let mut parser = Parser::new(String::from(source));
        assert_eq!(parser.parse_selectors(), Err(ParseError::SelectorSyntax), "{:?}", source);
        assert_eq!(parse(String::from(source)).is_ok(), source.is_empty(), "{:?}", source);
    }
    assert_eq!(parse(String::from("p { } q")), Err(ParseError::SelectorSyntax));
    assert_eq!(parse(String::from("p { } q !")), Err(ParseError::SelectorSyntax));
}

#[test]
fn empty_selector_is_the_universal_one() {
    let mut parser = Parser::new(String::from("{"));
    assert_eq!(parser.parse_selectors().unwrap(), vec![simple(None, None, &[])]);
    let mut parser = Parser::new(String::from("* , {"));
    assert_eq!(
        parser.parse_selectors().unwrap(),
        vec![simple(None, None, &[]), simple(None, None, &[])]
    );
}

#[test]
fn declarations_of_each_kind() {
    let mut parser = Parser::new(String::from(
        "{ margin: auto; width: 120px ;color:#0a1B2c; height : 0PX; border-width: 7pX; }rest",
    ));
    let declarations = parser.parse_declarations().unwrap();
    assert_eq!(
        declarations,
        vec![
            Declaration { name: String::from("margin"), value: Value::Keyword(String::from("auto")) },
            Declaration { name: String::from("width"), value: Value::Length(120, Unit::Px) },
            Declaration {
                name: String::from("color"),
                value: Value::ColorValue(Color { r: 10, g: 27, b: 44, a: 255 }),
            },
            Declaration { name: String::from("height"), value: Value::Length(0, Unit::Px) },
            Declaration { name: String::from("border-width"), value: Value::Length(7, Unit::Px) },
        ]
    );
    assert_eq!(parser.next_char(), 'r');
    let mut parser = Parser::new(String::from("{}"));
    assert!(parser.parse_declarations().unwrap().is_empty());
    assert!(parser.eof());
}

#[test]
fn lengths_are_whole_numbers_that_fit() {
    let rule = |value: &str| parse(format!("p {{ width: {}; }}", value));
    let width = |value: &str| rule(value).unwrap().rules[0].declarations[0].value.clone();
    assert_eq!(width("0px"), Value::Length(0, Unit::Px));
    assert_eq!(width("007px"), Value::Length(7, Unit::Px));
    assert_eq!(width("9223372036854775807px"), Value::Length(i64::MAX, Unit::Px));
    assert_eq!(rule("9223372036854775808px"), Err(ParseError::DeclarationSyntax));
    assert_eq!(rule("99999999999999999999999999px"), Err(ParseError::DeclarationSyntax));
    assert_eq!(rule("12"), Err(ParseError::DeclarationSyntax));
    assert_eq!(rule("12em"), Err(ParseError::DeclarationSyntax));
    assert_eq!(rule("12pxx"), Err(ParseError::DeclarationSyntax));
    assert_eq!(rule("12 px"), Err(ParseError::DeclarationSyntax));
    assert_eq!(rule("1.5px"), Err(ParseError::DeclarationSyntax));
    assert_eq!(width("-3px"), Value::Keyword(String::from("-3px")));
    assert_eq!(width("px"), Value::Keyword(String::from("px")));
    assert_eq!(width("-moz-x"), Value::Keyword(String::from("-moz-x")));
    assert_eq!(width(""), Value::Keyword(String::new()));
}

#[test]
fn colours_take_six_digits_of_base_sixteen() {
    let rule = |value: &str| parse(format!("p {{ color: {}; }}", value));
    let colour = |value: &str| rule(value).unwrap().rules[0].declarations[0].value.clone();
    assert_eq!(colour("#000000"), Value::ColorValue(Color { r: 0, g: 0, b: 0, a: 255 }));
    assert_eq!(colour("#ffFFff"), Value::ColorValue(Color { r: 255, g: 255, b: 255, a: 255 }));
    assert_eq!(colour("#cc0000"), Value::ColorValue(Color { r: 204, g: 0, b: 0, a: 255 }));
    assert_eq!(colour("#12AbeF"), Value::ColorValue(Color { r: 0x12, g: 0xab, b: 0xef, a: 255 }));
    for bad in ["#", "#12345", "#12345g", "#12 345", "#1234567", "#+12345", "#ccc"] {
        assert_eq!(rule(bad), Err(ParseError::DeclarationSyntax), "{:?}", bad);
    }
    assert_eq!(parse(String::from("p { color: #12")), Err(ParseError::DeclarationSyntax));
}

#[test]
fn declaration_blocks_that_are_refused() {
    for source in [
        "p { width 1px; }",
        "p { width: 1px }",
        "p { width: 1px; ",
        "p { width: ",
        "p { width",
        "p {",
        "p { : 1px; }",
        "p { width: 1px; ; }",
        "p { width: a b; }",
        "p { width: 1px; } q { !",
    ] {
        let expected = if source == "p { : 1px; }" {
            // A name may be empty.
            None
        } else {
            Some(ParseError::DeclarationSyntax)
        };
        assert_eq!(parse(String::from(source)).err(), expected, "{:?}", source);
    }
    let mut parser = Parser::new(String::from("width: 1px; }"));
    assert_eq!(parser.parse_declarations(), Err(ParseError::DeclarationSyntax));
    let mut parser = Parser::new(String::new());
    assert_eq!(parser.parse_declarations(), Err(ParseError::DeclarationSyntax));
}

#[test]
fn rule_and_stylesheet() {
    let mut parser = Parser::new(String::from("a, b.x { width: 1px; } c { }"));
    let rule = parser.parse_rule().unwrap();
    assert_eq!(rule.selectors, vec![simple(Some("b"), None, &["x"]), simple(Some("a"), None, &[])]);
    assert_eq!(
        rule.declarations,
        vec![Declaration { name: String::from("width"), value: Value::Length(1, Unit::Px) }]
    );
    assert_eq!(parser.pos, 22);
    let sheet = parse(String::from(" \n a, b.x { width: 1px; }\n\tc { }\n")).unwrap();
    assert_eq!(sheet.rules.len(), 2);
    assert_eq!(sheet.rules[0], rule);
    assert_eq!(sheet.rules[1].selectors, vec![simple(Some("c"), None, &[])]);
    assert!(sheet.rules[1].declarations.is_empty());
    assert!(parse(String::new()).unwrap().rules.is_empty());
    assert!(parse(String::from("  \n ")).unwrap().rules.is_empty());
    let mut parser = Parser::new(String::from("a b { }"));
    assert_eq!(parser.parse_rule(), Err(ParseError::SelectorSyntax));
    let mut parser = Parser::new(String::from("a { b }"));
    assert_eq!(parser.parse_rule(), Err(ParseError::DeclarationSyntax));
    let mut parser = Parser::new(String::from("a { b: c; } d"));
    assert_eq!(parser.parse_rules(), Err(ParseError::SelectorSyntax));
}

#[test]
fn reader_steps() {
    let mut parser = Parser::new(String::from("ab \t\n-c_9 é"));
    assert_eq!(parser.pos, 0);
    assert_eq!(parser.chars.len(), 11);
    assert!(!parser.eof());
    assert_eq!(parser.next_char(), 'a');
    assert_eq!(parser.consume_char(), 'a');
    assert_eq!(parser.pos, 1);
    parser.consume_whitespace();
    assert_eq!(parser.pos, 1);
    assert_eq!(parser.parse_identifier(), "b");
    assert_eq!(parser.parse_identifier(), "");
    parser.consume_whitespace();
    assert_eq!(parser.pos, 5);
    assert_eq!(parser.parse_identifier(), "-c_9");
    parser.consume_whitespace();
    assert_eq!(parser.next_char(), 'é');
    assert_eq!(parser.parse_identifier(), "");
    assert_eq!(parser.consume_char(), 'é');
    assert!(parser.eof());
    parser.consume_whitespace();
    assert_eq!(parser.parse_identifier(), "");
    assert_eq!(parser.pos, 11);
}

#[test]
fn character_classes() {
    for c in ['a', 'z', 'A', 'Z', '0', '9', '-', '_', 'm', 'Q', '5'] {
        assert!(valid_identifier_char(c));
    }
    for c in [' ', '.', '#', '*', '{', ',', '`', '{', '@', '[', '/', ':', 'é', '٣'] {
        assert!(!valid_identifier_char(c));
    }
    for c in '0'..='9' {
        assert!(is_digit_char(c));
        assert_eq!(hex_digit(c), c.to_digit(16).map(|d| d as u8));
    }
    assert!(!is_digit_char('/') && !is_digit_char(':') && !is_digit_char('a') && !is_digit_char('٣'));
    for c in ['a', 'f', 'A', 'F', 'c', 'D', 'g', 'G', '`', '@', ' ', 'é'] {
        assert_eq!(hex_digit(c), c.to_digit(16).map(|d| d as u8));
    }
    assert_eq!(hex_digit('f'), Some(15));
    assert_eq!(hex_digit('A'), Some(10));
    assert_eq!(hex_digit('g'), None);
    assert!(same_text("auto", "auto"));
    assert!(!same_text("auto", "Auto"));
    assert!(!same_text("auto", "aut"));
    assert!(same_text("", ""));
}

#[test]
fn values_as_sizes() {
    assert!(Value::Keyword(String::from("auto")).auto());
    assert!(!Value::Keyword(String::from("AUTO")).auto());
    assert!(!Value::Keyword(String::from("block")).auto());
    assert!(!Value::Length(0, Unit::Px).auto());
    assert_eq!(Value::Length(12, Unit::Px).to_px(), 12);
    assert_eq!(Value::Length(-12, Unit::Px).to_px(), -12);
    assert_eq!(Value::Keyword(String::from("auto")).to_px(), 0);
    assert_eq!(Value::ColorValue(Color { r: 1, g: 2, b: 3, a: 4 }).to_px(), 0);
    assert_eq!(Value::Keyword(String::from("auto")).size(), Size::Auto);
    assert_eq!(Value::Keyword(String::from("thick")).size(), Size::Units(0));
    assert_eq!(Value::Length(5, Unit::Px).size(), Size::Units(5));
    assert_eq!(Size::Auto.to_px(), 0);
    assert_eq!(Size::Units(-4).to_px(), -4);
    let keyword = Value::Keyword(String::from("k"));
    assert_eq!(keyword.clone(), keyword);
    assert_ne!(keyword, Value::Keyword(String::from("K")));
    assert_ne!(Value::Length(1, Unit::Px), Value::Length(2, Unit::Px));
    assert_ne!(Value::Length(0, Unit::Px), Value::Keyword(String::from("0")));
    assert_eq!(
        Value::ColorValue(Color { r: 1, g: 2, b: 3, a: 4 }),
        Value::ColorValue(Color { r: 1, g: 2, b: 3, a: 4 })
    );
    assert_ne!(
        Value::ColorValue(Color { r: 1, g: 2, b: 3, a: 4 }),
        Value::ColorValue(Color { r: 1, g: 2, b: 3, a: 5 })
    );
}
