use browser_engine::css::{parse, Declaration, Rule, Selector, SimpleSelector, Stylesheet, Value};
use browser_engine::dom::{elem, text, AttrMap, ElementData};
use browser_engine::html::Parser;
use browser_engine::layout::{build_layout_tree, BoxType, LayoutError};
use browser_engine::style::{matches_simple_selector, specified_values, style_tree, Display};

#[test]
fn test_match_simple_selector() {
    let element = ElementData {
        tag_name: "div".to_string(),
        attrs: AttrMap::new(),
    };
    let selector = SimpleSelector {
        tag_name: Some("div".to_string()),
        id: None,
        class: vec![],
    };
    assert!(matches_simple_selector(&element, &selector));
}

#[test]
fn test_specified_values() {
    let mut stylesheet = Stylesheet { rules: vec![] };
    let declarations = vec![
        Declaration {
            name: "color".to_string(),
            value: Value::Keyword("red".to_string()),
        },
        Declaration {
            name: "font-size".to_string(),
            value: Value::Keyword("16px".to_string()),
        },
    ];
    let rule = Rule {
        selectors: vec![Selector::Simple(SimpleSelector {
            tag_name: Some("p".to_string()),
            id: None,
            class: vec![],
        })],
        declarations,
    };
    stylesheet.rules.push(rule);
    let element = ElementData {
        tag_name: "p".to_string(),
        attrs: AttrMap::new(),
    };
    let values = specified_values(&element, &stylesheet);
    assert_eq!(values.get("color"), Some(&Value::Keyword("red".to_string())));
    assert_eq!(values.get("font-size"), Some(&Value::Keyword("16px".to_string())));
}

#[test]
fn test_style_tree() {
    let mut stylesheet = Stylesheet { rules: vec![] };
    let declarations = vec![Declaration {
        name: "display".to_string(),
        value: Value::Keyword("block".to_string()),
    }];
    let rule = Rule {
        selectors: vec![Selector::Simple(SimpleSelector {
            tag_name: Some("div".to_string()),
            id: None,
            class: vec![],
        })],
        declarations,
    };
    stylesheet.rules.push(rule);
    let root = elem("div".to_string(), AttrMap::new(), vec![text("Hello".to_string())]);
    let styled_tree = style_tree(&root, &stylesheet);
    assert_eq!(styled_tree.value("display"), Some(Value::Keyword("block".to_string())));
}

fn element(tag: &str, attrs: &[(&str, &str)]) -> ElementData {
    let mut map = AttrMap::new();
    for (k, v) in attrs {
        map.insert(k.to_string(), v.to_string());
    }
    ElementData { tag_name: tag.to_string(), attrs: map }
}

#[test]
fn class_beats_tag_in_either_order() {
    let e = element("p", &[("class", "highlight")]);
    for css in [
        "p { color: red; } .highlight { color: blue; }",
        ".highlight { color: blue; } p { color: red; }",
    ] {
        let sheet = parse(css.to_string()).unwrap();
        let values = specified_values(&e, &sheet);
        assert_eq!(values.get("color"), Some(&Value::Keyword("blue".to_string())));
    }
}

#[test]
fn equal_specificity_later_rule_wins() {
    let e = element("p", &[]);
    let sheet = parse("p { color: red; } p { color: green; }".to_string()).unwrap();
    let values = specified_values(&e, &sheet);
    assert_eq!(values.get("color"), Some(&Value::Keyword("green".to_string())));
}

#[test]
fn id_beats_classes() {
    let e = element("p", &[("id", "x"), ("class", "a b")]);
    let sheet = parse("#x { color: red; } p.a.b { color: blue; }".to_string()).unwrap();
    let values = specified_values(&e, &sheet);
    assert_eq!(values.get("color"), Some(&Value::Keyword("red".to_string())));
}

#[test]
fn rule_uses_best_matching_selector() {
    let e = element("p", &[("id", "x")]);
    // the first rule matches through `#x`, which outranks the later `p` rule
    let sheet = parse("p, #x { color: red; } p { color: blue; }".to_string()).unwrap();
    let values = specified_values(&e, &sheet);
    assert_eq!(values.get("color"), Some(&Value::Keyword("red".to_string())));
}

#[test]
fn unmatched_selectors_give_nothing() {
    let e = element("p", &[("class", "a")]);
    let sheet = parse("div { color: red; } p.b { color: blue; } #y { color: green; }".to_string()).unwrap();
    let values = specified_values(&e, &sheet);
    assert_eq!(values.get("color"), None);
}

#[test]
fn text_nodes_get_no_properties() {
    let root = Parser::parse("<p>hi</p>".to_string()).unwrap();
    let sheet = parse("* { color: red; }".to_string()).unwrap();
    let styled = style_tree(&root, &sheet);
    assert_eq!(styled.value("color"), Some(Value::Keyword("red".to_string())));
    assert_eq!(styled.children.len(), 1);
    assert_eq!(styled.children[0].value("color"), None);
}

#[test]
fn lookup_falls_back() {
    let root = Parser::parse("<p></p>".to_string()).unwrap();
    let sheet = parse("p { margin: 1px; }".to_string()).unwrap();
    let styled = style_tree(&root, &sheet);
    let zero = Value::Keyword("zero".to_string());
    assert_eq!(styled.lookup("margin-left", "margin", &zero), Value::Length("1".to_string(), browser_engine::css::Unit::Px));
    assert_eq!(styled.lookup("padding-left", "padding", &zero), zero);
}

#[test]
fn display_defaults_to_inline() {
    let root = Parser::parse("<div><p></p><em></em><b></b></div>".to_string()).unwrap();
    let sheet = parse("p { display: block; } em { display: none; } b { display: flex; }".to_string()).unwrap();
    let styled = style_tree(&root, &sheet);
    assert_eq!(styled.display(), Display::Inline);
    assert_eq!(styled.children[0].display(), Display::Block);
    assert_eq!(styled.children[1].display(), Display::Hidden);
    assert_eq!(styled.children[2].display(), Display::Inline);
}

#[test]
fn mixed_children_get_anonymous_blocks() {
    let root = Parser::parse("<div><span>a</span><p>b</p><span>c</span></div>".to_string()).unwrap();
    let sheet = parse("div, p { display: block; }".to_string()).unwrap();
    let styled = style_tree(&root, &sheet);
    let tree = build_layout_tree(&styled).unwrap();
    assert!(matches!(tree.box_type, BoxType::BlockNode(_)));
    assert_eq!(tree.children.len(), 3);
    assert!(matches!(tree.children[0].box_type, BoxType::AnonymousBlock));
    assert!(matches!(tree.children[1].box_type, BoxType::BlockNode(_)));
    assert!(matches!(tree.children[2].box_type, BoxType::AnonymousBlock));
    assert_eq!(tree.children[0].children.len(), 1);
    assert!(matches!(tree.children[0].children[0].box_type, BoxType::InlineNode(_)));
    assert_eq!(tree.children[2].children.len(), 1);
}

#[test]
fn inline_run_shares_one_anonymous_block() {
    let root = Parser::parse("<div><span>a</span><em>b</em></div>".to_string()).unwrap();
    let sheet = parse("div { display: block; }".to_string()).unwrap();
    let styled = style_tree(&root, &sheet);
    let tree = build_layout_tree(&styled).unwrap();
    assert_eq!(tree.children.len(), 1);
    assert_eq!(tree.children[0].children.len(), 2);
}

#[test]
fn display_none_drops_subtree_only() {
    let root = Parser::parse("<div><span>a</span><em><p>x</p></em><span>c</span></div>".to_string()).unwrap();
    let sheet = parse("div, p { display: block; } em { display: none; }".to_string()).unwrap();
    let styled = style_tree(&root, &sheet);
    let tree = build_layout_tree(&styled).unwrap();
    // the two inline siblings of the hidden node share one anonymous block
    assert_eq!(tree.children.len(), 1);
    assert!(matches!(tree.children[0].box_type, BoxType::AnonymousBlock));
    assert_eq!(tree.children[0].children.len(), 2);
}

#[test]
fn display_none_root_fails() {
    let root = Parser::parse("<div></div>".to_string()).unwrap();
    let sheet = parse("div { display: none; }".to_string()).unwrap();
    let styled = style_tree(&root, &sheet);
    assert!(matches!(build_layout_tree(&styled), Err(LayoutError::RootDisplayNone)));
}

#[test]
fn inline_root_holds_block_child_directly() {
    let root = Parser::parse("<span><p>x</p>y</span>".to_string()).unwrap();
    let sheet = parse("p { display: block; }".to_string()).unwrap();
    let styled = style_tree(&root, &sheet);
    let tree = build_layout_tree(&styled).unwrap();
    assert!(matches!(tree.box_type, BoxType::InlineNode(_)));
    assert_eq!(tree.children.len(), 2);
    assert!(matches!(tree.children[0].box_type, BoxType::BlockNode(_)));
    assert!(matches!(tree.children[1].box_type, BoxType::InlineNode(_)));
}

#[test]
fn unsorted_rule_ranks_by_best_selector() {
    let e = element("p", &[("id", "x")]);
    let sel = |tag: Option<&str>, id: Option<&str>| {
        Selector::Simple(SimpleSelector {
            tag_name: tag.map(|t| t.to_string()),
            id: id.map(|t| t.to_string()),
            class: vec![],
        })
    };
    let decl = |v: &str| Declaration {
        name: "color".to_string(),
        value: Value::Keyword(v.to_string()),
    };
    let sheet = Stylesheet {
        rules: vec![
            Rule { selectors: vec![sel(Some("p"), None), sel(None, Some("x"))], declarations: vec![decl("red")] },
            Rule { selectors: vec![sel(Some("p"), None)], declarations: vec![decl("blue")] },
        ],
    };
    let values = specified_values(&e, &sheet);
    assert_eq!(values.get("color"), Some(&Value::Keyword("red".to_string())));
}
