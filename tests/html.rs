use browser_engine::dom::{elem, text, AttrMap, Node, NodeType};
use browser_engine::html::Parser;

#[test]
fn test_parse_text() {
    let input = "Hello, world!".to_string();
    let result = Parser::parse(input).unwrap();
    assert_eq!(result, text("Hello, world!".to_string()));
}

#[test]
fn test_parse_single_element() {
    let input = "<div></div>".to_string();
    let result = Parser::parse(input).unwrap();
    assert_eq!(result, elem("div".to_string(), AttrMap::new(), vec![]));
}

#[test]
fn test_parse_element_with_text() {
    let input = "<p>Hello</p>".to_string();
    let result = Parser::parse(input).unwrap();
    assert_eq!(
        result,
        elem("p".to_string(), AttrMap::new(), vec![text("Hello".to_string())])
    );
}

#[test]
fn test_parse_element_with_attributes() {
    let input = "<img src=\"image.png\" alt=\"An image\"></img>".to_string();
    let result = Parser::parse(input).unwrap();
    let mut attributes = AttrMap::new();
    attributes.insert("src".to_string(), "image.png".to_string());
    attributes.insert("alt".to_string(), "An image".to_string());
    assert_eq!(result, elem("img".to_string(), attributes, vec![]));
}

#[test]
fn test_parse_nested_elements() {
    let input = "<div><p>Hello</p><span>World</span></div>".to_string();
    let result = Parser::parse(input).unwrap();
    assert_eq!(
        result,
        elem(
            "div".to_string(),
            AttrMap::new(),
            vec![
                elem("p".to_string(), AttrMap::new(), vec![text("Hello".to_string())]),
                elem("span".to_string(), AttrMap::new(), vec![text("World".to_string())]),
            ],
        )
    );
}

#[test]
fn attributes_compare_without_order() {
    let result = Parser::parse("<img src='image.png' alt=\"An image\"></img>".to_string()).unwrap();
    let mut attributes = AttrMap::new();
    attributes.insert("alt".to_string(), "An image".to_string());
    attributes.insert("src".to_string(), "image.png".to_string());
    assert_eq!(result, elem("img".to_string(), attributes, vec![]));
    let mut other = AttrMap::new();
    other.insert("alt".to_string(), "An image".to_string());
    assert_ne!(result, elem("img".to_string(), other, vec![]));
}

#[test]
fn repeated_attribute_keeps_last_value() {
    let result = Parser::parse("<a id=\"x\" id=\"y\"></a>".to_string()).unwrap();
    match &result.node_type {
        NodeType::Element(e) => {
            assert_eq!(e.id(), Some(&"y".to_string()));
        }
        NodeType::Text(_) => panic!("expected an element"),
    }
}

#[test]
fn top_level_siblings_get_html_root() {
    let result = Parser::parse("<p>a</p> <div></div>".to_string()).unwrap();
    assert_eq!(
        result,
        elem(
            "html".to_string(),
            AttrMap::new(),
            vec![
                elem("p".to_string(), AttrMap::new(), vec![text("a".to_string())]),
                elem("div".to_string(), AttrMap::new(), vec![]),
            ],
        )
    );
}

#[test]
fn empty_document_is_empty_html_root() {
    let result = Parser::parse("   ".to_string()).unwrap();
    assert_eq!(result, elem("html".to_string(), AttrMap::new(), vec![]));
}

#[test]
fn text_keeps_inner_whitespace() {
    let result: Node = Parser::parse("<p>a  b </p>".to_string()).unwrap();
    assert_eq!(
        result,
        elem("p".to_string(), AttrMap::new(), vec![text("a  b ".to_string())])
    );
}

#[test]
fn mismatched_end_tag_fails() {
    assert!(Parser::parse("<div></span>".to_string()).is_err());
}

#[test]
fn unterminated_tag_fails() {
    assert!(Parser::parse("<div".to_string()).is_err());
    assert!(Parser::parse("<div>".to_string()).is_err());
    assert!(Parser::parse("<div></div".to_string()).is_err());
}

#[test]
fn unterminated_quote_fails() {
    assert!(Parser::parse("<a href=\"x></a>".to_string()).is_err());
    assert!(Parser::parse("<a href=\"x'></a>".to_string()).is_err());
    assert!(Parser::parse("<a href=x></a>".to_string()).is_err());
}

#[test]
fn stray_end_tag_fails() {
    let e = Parser::parse("<p></p></div>".to_string()).unwrap_err();
    assert_eq!(e.pos, 7);
}

#[test]
fn classes_split_on_spaces() {
    let result = Parser::parse("<p class=\"a b  c\"></p>".to_string()).unwrap();
    match &result.node_type {
        NodeType::Element(e) => {
            let classes = e.classes();
            assert!(classes.contains(&"a".to_string()));
            assert!(classes.contains(&"b".to_string()));
            assert!(classes.contains(&"c".to_string()));
            assert!(!classes.contains(&"a b".to_string()));
            assert_eq!(e.id(), None);
        }
        NodeType::Text(_) => panic!("expected an element"),
    }
}
