use browser_engine::css::{parse, Color, Parser, Selector, SimpleSelector, Unit, Value};

#[test]
fn test_parse_identifier() {
    let mut parser = Parser {
        pos: 0,
        input: "example".to_string(),
    };
    assert_eq!(parser.parse_identifier(), "example");
}

#[test]
fn test_parse_simple_selector() {
    let mut parser = Parser {
        pos: 0,
        input: "div#main.container".to_string(),
    };
    let selector = parser.parse_simple_selector();
    assert_eq!(selector.tag_name, Some("div".to_string()));
    assert_eq!(selector.id, Some("main".to_string()));
    assert_eq!(selector.class, vec!["container".to_string()]);
}

#[test]
fn test_parse_length() {
    let mut parser = Parser {
        pos: 0,
        input: "15px".to_string(),
    };
    if let Value::Length(value, unit) = parser.parse_length().unwrap() {
        assert_eq!(value.parse::<f32>().unwrap(), 15.0);
        assert!(matches!(unit, Unit::Px));
    } else {
        panic!("Failed to parse length");
    }
}

#[test]
fn test_parse_color() {
    let mut parser = Parser {
        pos: 0,
        input: "#ffcc00".to_string(),
    };
    if let Value::ColorValue(color) = parser.parse_color().unwrap() {
        assert_eq!(color.r, 0xff);
        assert_eq!(color.g, 0xcc);
        assert_eq!(color.b, 0x00);
        assert_eq!(color.a, 255);
    } else {
        panic!("Failed to parse color");
    }
}

#[test]
fn test_parse_declaration() {
    let mut parser = Parser {
        pos: 0,
        input: "color: red;".to_string(),
    };
    let decl = parser.parse_declaration().unwrap();
    assert_eq!(decl.name, "color");
    if let Value::Keyword(value) = decl.value {
        assert_eq!(value, "red");
    } else {
        panic!("Failed to parse declaration");
    }
}

#[test]
fn test_parse_rules() {
    let parser = Parser {
        pos: 0,
        input: "div { color: blue; width: 100px; }".to_string(),
    };
    let stylesheet = parse(parser.input.clone()).unwrap();
    assert_eq!(stylesheet.rules.len(), 1);
    let rule = &stylesheet.rules[0];
    assert_eq!(rule.selectors.len(), 1);
    assert_eq!(rule.declarations.len(), 2);
}

fn simple(tag: Option<&str>, id: Option<&str>, classes: &[&str]) -> Selector {
    Selector::Simple(SimpleSelector {
        tag_name: tag.map(|t| t.to_string()),
        id: id.map(|t| t.to_string()),
        class: classes.iter().map(|c| c.to_string()).collect(),
    })
}

#[test]
fn specificity_counts_parts() {
    assert_eq!(simple(None, None, &[]).specificity(), (0, 0, 0));
    assert_eq!(simple(Some("div"), None, &[]).specificity(), (0, 0, 1));
    assert_eq!(simple(Some("div"), None, &["a", "b"]).specificity(), (0, 2, 1));
    assert_eq!(simple(None, Some("x"), &["a"]).specificity(), (1, 1, 0));
}

#[test]
fn specificity_ranks_id_over_classes_over_tag() {
    let tag_only = simple(Some("div"), None, &[]).specificity();
    let classes = simple(None, None, &["a", "b", "c"]).specificity();
    let id = simple(None, Some("x"), &[]).specificity();
    assert!(tag_only < classes);
    assert!(classes < id);
    let more = simple(Some("div"), None, &["a"]).specificity();
    assert!(tag_only < more);
}

#[test]
fn selectors_sorted_by_specificity() {
    let sheet = parse("p, #x, .a.b, div.c, * { color: red; }".to_string()).unwrap();
    let sels = &sheet.rules[0].selectors;
    let specs: Vec<_> = sels.iter().map(|s| s.specificity()).collect();
    assert_eq!(specs, vec![(1, 0, 0), (0, 2, 0), (0, 1, 1), (0, 0, 1), (0, 0, 0)]);
    assert_eq!(sels[3], simple(Some("p"), None, &[]));
    assert_eq!(sels[4], simple(None, None, &[]));
}

#[test]
fn equal_specificity_keeps_written_order() {
    let sheet = parse("p, div { color: red; }".to_string()).unwrap();
    let sels = &sheet.rules[0].selectors;
    assert_eq!(sels[0], simple(Some("p"), None, &[]));
    assert_eq!(sels[1], simple(Some("div"), None, &[]));
}

#[test]
fn value_kinds() {
    let sheet = parse("p { width: 15px; color: #ffcc00; display: block; height: 1.5PX; }".to_string()).unwrap();
    let d = &sheet.rules[0].declarations;
    assert_eq!(d[0].value, Value::Length("15".to_string(), Unit::Px));
    assert_eq!(d[1].value, Value::ColorValue(Color { r: 255, g: 204, b: 0, a: 255 }));
    assert_eq!(d[2].value, Value::Keyword("block".to_string()));
    assert_eq!(d[3].value, Value::Length("1.5".to_string(), Unit::Px));
}

#[test]
fn unknown_unit_fails() {
    assert!(parse("p { width: 10em; }".to_string()).is_err());
}

#[test]
fn malformed_number_fails() {
    assert!(parse("p { width: 1.2.3px; }".to_string()).is_err());
}

#[test]
fn short_color_fails() {
    assert!(parse("p { color: #fc0; }".to_string()).is_err());
    assert!(parse("p { color: #ffcc0g; }".to_string()).is_err());
}

#[test]
fn missing_semicolon_fails() {
    assert!(parse("p { color: red }".to_string()).is_err());
}

#[test]
fn bad_selector_punctuation_fails() {
    assert!(parse("p > q { color: red; }".to_string()).is_err());
    assert!(parse("p".to_string()).is_err());
}

#[test]
fn empty_sheet_has_no_rules() {
    assert_eq!(parse("  \n ".to_string()).unwrap().rules.len(), 0);
}

#[test]
fn bare_identifier_is_keyword() {
    for (input, word) in [("red;", "red"), ("inline-block ", "inline-block"), ("no_such_thing", "no_such_thing")] {
        let mut parser = Parser {
            pos: 0,
            input: input.to_string(),
        };
        assert_eq!(parser.parse_value().unwrap(), Value::Keyword(word.to_string()));
        assert_eq!(parser.pos, word.len());
    }
}
