use browser_engine::css::{self, Color, Decimal, Selector, StyleSheet, Unit, Value};
use browser_engine::error::{Expected, LayoutError, ParseError};
use browser_engine::html::{self, AttrMap, ElementData, Node, NodeType};
use browser_engine::layout::{build_layout_tree, BoxType, LayoutBox};
use browser_engine::style::{matches_selector, matching_rules, specified_values, style_tree, Display};

fn element(node: &Node) -> &ElementData {
    match &node.node_type {
        NodeType::Element(e) => e,
        _ => panic!("not an element"),
    }
}

fn text_of(node: &Node) -> &str {
    match &node.node_type {
        NodeType::Text(t) => t.as_str(),
        _ => panic!("not a text node"),
    }
}

fn attr<'a>(e: &'a ElementData, name: &str) -> Option<&'a String> {
    e.attributes.get(&name.to_string())
}

fn sheet(text: &str) -> StyleSheet {
    css::parse(text.to_string()).expect("stylesheet parses")
}

fn kinds(b: &LayoutBox) -> Vec<&'static str> {
    b.children
        .iter()
        .map(|c| match c.box_type {
            BoxType::Block(_) => "block",
            BoxType::Inline(_) => "inline",
            BoxType::Anonymous => "anonymous",
        })
        .collect()
}

fn keyword(v: Option<&Value>) -> Option<&str> {
    match v {
        Some(Value::Keyword(k)) => Some(k.as_str()),
        _ => None,
    }
}

#[test]
fn parses_nested_elements() {
    let root = html::parse("<div><p id=\"hello\">Hello world</p></div>".to_string()).unwrap();
    assert_eq!(element(&root).tag_name, "div");
    assert_eq!(root.children.len(), 1);
    let p = &root.children[0];
    assert_eq!(element(p).tag_name, "p");
    assert_eq!(attr(element(p), "id").map(|s| s.as_str()), Some("hello"));
    assert_eq!(p.children.len(), 1);
    assert_eq!(text_of(&p.children[0]), "Hello world");
}

#[test]
fn parses_id_rule() {
    let s = sheet("#hello { display: block; width: 250px; }");
    assert_eq!(s.rules.len(), 1);
    let rule = &s.rules[0];
    assert_eq!(rule.selector.tag_name, None);
    assert_eq!(rule.selector.id.as_deref(), Some("hello"));
    assert!(rule.selector.class.is_empty());
    assert_eq!(rule.declarations.len(), 2);
    assert_eq!(rule.declarations[0].name, "display");
    assert_eq!(keyword(Some(&rule.declarations[0].value)), Some("block"));
    assert_eq!(rule.declarations[1].name, "width");
    match &rule.declarations[1].value {
        Value::Numeric(d, u) => {
            assert_eq!(*d, Decimal { mantissa: 250, scale: 0 });
            assert_eq!(*u, Unit::Px);
        }
        _ => panic!("width is not numeric"),
    }
}

#[test]
fn wraps_several_top_level_nodes() {
    let root = html::parse("<p>a</p><p>b</p>".to_string()).unwrap();
    let e = element(&root);
    assert_eq!(e.tag_name, "html");
    assert!(attr(e, "id").is_none());
    assert_eq!(root.children.len(), 2);
    for (child, t) in root.children.iter().zip(["a", "b"]) {
        assert_eq!(element(child).tag_name, "p");
        assert_eq!(child.children.len(), 1);
        assert_eq!(text_of(&child.children[0]), t);
    }
}

#[test]
fn single_top_level_node_is_not_wrapped() {
    let root = html::parse("<p>a</p>".to_string()).unwrap();
    assert_eq!(element(&root).tag_name, "p");
    let t = html::parse("just text".to_string()).unwrap();
    assert_eq!(text_of(&t), "just text");
    let c = html::parse("<!-- note -->".to_string()).unwrap();
    assert!(matches!(&c.node_type, NodeType::Comment(s) if s == " note "));
}

#[test]
fn empty_markup_is_an_empty_html_root() {
    let root = html::parse(String::new()).unwrap();
    assert_eq!(element(&root).tag_name, "html");
    assert!(root.children.is_empty());
    let three = html::parse("a<b></b><!--c-->".to_string()).unwrap();
    assert_eq!(element(&three).tag_name, "html");
    assert_eq!(three.children.len(), 3);
    assert_eq!(text_of(&three.children[0]), "a");
    assert_eq!(element(&three.children[1]).tag_name, "b");
}

#[test]
fn attributes_take_either_quote() {
    let root = html::parse("<a href='x\"y' title=\"it's\"></a>".to_string()).unwrap();
    let e = element(&root);
    assert_eq!(attr(e, "href").map(|s| s.as_str()), Some("x\"y"));
    assert_eq!(attr(e, "title").map(|s| s.as_str()), Some("it's"));
}

#[test]
fn repeated_attribute_keeps_last_value() {
    let root = html::parse("<a k=\"1\" k=\"2\"></a>".to_string()).unwrap();
    assert_eq!(attr(element(&root), "k").map(|s| s.as_str()), Some("2"));
}

#[test]
fn unclosed_start_tag_is_eof() {
    assert_eq!(html::parse("<div".to_string()).err(), Some(ParseError::UnexpectedEof));
    assert_eq!(html::parse("<div id=\"x\"".to_string()).err(), Some(ParseError::UnexpectedEof));
    assert_eq!(html::parse("<div>".to_string()).err(), Some(ParseError::UnexpectedEof));
    assert_eq!(html::parse("<div></div".to_string()).err(), Some(ParseError::UnexpectedEof));
    assert_eq!(html::parse("<!-- open".to_string()).err(), Some(ParseError::UnexpectedEof));
}

#[test]
fn markup_errors_name_the_character() {
    assert_eq!(
        html::parse("<p =\"x\"></p>".to_string()).err(),
        Some(ParseError::UnexpectedChar { expected: Expected::Name, found: '=', position: 3 })
    );
    assert_eq!(
        html::parse("<p id:\"x\"></p>".to_string()).err(),
        Some(ParseError::UnexpectedChar { expected: Expected::Char('='), found: ':', position: 5 })
    );
    assert_eq!(
        html::parse("<p id=x></p>".to_string()).err(),
        Some(ParseError::UnexpectedChar { expected: Expected::Char('"'), found: 'x', position: 6 })
    );
    assert_eq!(
        html::parse("</p>".to_string()).err(),
        Some(ParseError::UnexpectedChar { expected: Expected::EndOfInput, found: '<', position: 0 })
    );
    assert_eq!(html::parse("<p id=\"x></p>".to_string()).err(), Some(ParseError::UnterminatedAttribute));
}

#[test]
fn stylesheet_values() {
    let s = sheet("p.a#b { margin: 1.25px; color: rgba(10, 20, 30, 255); font: bold ; }\n\n{ }");
    assert_eq!(s.rules.len(), 2);
    let r = &s.rules[0];
    assert_eq!(r.selector.tag_name.as_deref(), Some("p"));
    assert_eq!(r.selector.id.as_deref(), Some("b"));
    assert_eq!(r.selector.class, vec!["a".to_string()]);
    assert!(matches!(r.declarations[0].value, Value::Numeric(Decimal { mantissa: 125, scale: 2 }, Unit::Px)));
    assert!(matches!(r.declarations[1].value, Value::ColorValue(Color { r: 10, g: 20, b: 30, a: 255 })));
    assert_eq!(keyword(Some(&r.declarations[2].value)), Some("bold "));
    let universal = &s.rules[1];
    assert!(universal.selector.tag_name.is_none() && universal.selector.id.is_none());
    assert!(universal.selector.class.is_empty() && universal.declarations.is_empty());
}

#[test]
fn selector_components_may_be_spaced() {
    let s = sheet("div #a .b  { }  h1_x{}");
    let sel = &s.rules[0].selector;
    assert_eq!(sel.tag_name.as_deref(), Some("div"));
    assert_eq!(sel.id.as_deref(), Some("a"));
    assert_eq!(sel.class, vec!["b".to_string()]);
    assert_eq!(s.rules[1].selector.tag_name.as_deref(), Some("h1_x"));
}

#[test]
fn any_non_digit_separates_color_components() {
    let s = sheet("a { c: rgba(1;2,3 4); d: rgba(5,6,7,8)  ; }");
    let ds = &s.rules[0].declarations;
    assert!(matches!(ds[0].value, Value::ColorValue(Color { r: 1, g: 2, b: 3, a: 4 })));
    assert!(matches!(ds[1].value, Value::ColorValue(Color { r: 5, g: 6, b: 7, a: 8 })));
}

#[test]
fn nesting_is_bounded() {
    let deep = "<b>".repeat(html::MAX_DEPTH + 1);
    assert_eq!(html::parse(deep).err(), Some(ParseError::NestingTooDeep));
    let ok = format!("{}{}", "<b>".repeat(html::MAX_DEPTH), "</b>".repeat(html::MAX_DEPTH));
    let root = html::parse(ok).unwrap();
    assert_eq!(element(&root).tag_name, "b");
}

#[test]
fn later_id_component_wins() {
    let s = sheet("#a#b { }");
    assert_eq!(s.rules[0].selector.id.as_deref(), Some("b"));
}

#[test]
fn stylesheet_errors() {
    let err = |t: &str| css::parse(t.to_string()).err();
    assert_eq!(err("a { w: 1.2.3; }"), Some(ParseError::InvalidNumericLiteral));
    assert_eq!(err("a { w: 99999999999999999999px; }"), Some(ParseError::InvalidNumericLiteral));
    assert_eq!(err("a { c: rgba(300, 0, 0, 1); }"), Some(ParseError::InvalidColorComponent));
    assert_eq!(err("div p { color: red; }"), Some(ParseError::InvalidSelector));
    assert_eq!(err("a b { }"), Some(ParseError::InvalidSelector));
    assert_eq!(err("a { color: red;"), Some(ParseError::UnexpectedEof));
    assert_eq!(err("a"), Some(ParseError::UnexpectedEof));
    assert_eq!(
        err("a *{ }"),
        Some(ParseError::UnexpectedChar { expected: Expected::Name, found: '*', position: 2 })
    );
    assert_eq!(
        err("a { w: 5em; }"),
        Some(ParseError::UnexpectedChar { expected: Expected::Char(';'), found: 'e', position: 8 })
    );
    assert_eq!(err("a { c: rgba(1, 2); }"), Some(ParseError::UnexpectedEof));
    assert_eq!(
        err("a { w: 1 2; }"),
        Some(ParseError::UnexpectedChar { expected: Expected::Char(';'), found: '2', position: 9 })
    );
}

fn div_xy() -> Node {
    let mut attrs = AttrMap::new();
    attrs.insert("id".to_string(), "x".to_string());
    attrs.insert("class".to_string(), "y  z".to_string());
    html::elem("div".to_string(), attrs, Vec::new())
}

fn selector(tag: Option<&str>, id: Option<&str>, class: &[&str]) -> Selector {
    Selector {
        tag_name: tag.map(|t| t.to_string()),
        id: id.map(|t| t.to_string()),
        class: class.iter().map(|c| c.to_string()).collect(),
    }
}

#[test]
fn selector_components_all_must_hold() {
    let node = div_xy();
    let e = element(&node);
    assert!(matches_selector(e, &selector(Some("div"), Some("x"), &["y"])));
    assert!(!matches_selector(e, &selector(Some("p"), Some("x"), &["y"])));
    assert!(!matches_selector(e, &selector(Some("div"), Some("w"), &["y"])));
    assert!(!matches_selector(e, &selector(Some("div"), Some("x"), &["w"])));
    assert!(matches_selector(e, &selector(None, None, &[])));
}

#[test]
fn class_list_is_split_at_whitespace() {
    let node = html::parse("<p class=\"y z\"></p>".to_string()).unwrap();
    let e = element(&node);
    assert!(matches_selector(e, &selector(None, None, &["y", "z"])));
    assert!(!matches_selector(e, &selector(None, None, &["y", "w"])));
    assert!(!matches_selector(e, &selector(None, None, &["y z"])));
    assert!(!matches_selector(e, &selector(None, None, &[""])));
    let bare = html::parse("<p></p>".to_string()).unwrap();
    assert!(!matches_selector(element(&bare), &selector(None, None, &["y"])));
}

#[test]
fn matching_leaves_the_stylesheet_whole() {
    let s = sheet("div { a: 1; } p { b: 2; } #x { c: 3; }");
    let node = div_xy();
    let e = element(&node);
    for _ in 0..3 {
        let found = matching_rules(e, &s);
        assert_eq!(found.len(), 2);
        assert_eq!(found[0].declarations[0].name, "a");
        assert_eq!(found[1].declarations[0].name, "c");
        assert_eq!(s.rules.len(), 3);
    }
}

#[test]
fn later_rule_wins_the_cascade() {
    let s = sheet("div { width: 100px; height: 1px; } .y { width: 200px; }");
    let node = div_xy();
    let values = specified_values(element(&node), &s);
    match values.get(&"width".to_string()) {
        Some(Value::Numeric(d, _)) => assert_eq!(d.mantissa, 200),
        _ => panic!("width missing"),
    }
    assert!(matches!(values.get(&"height".to_string()), Some(Value::Numeric(Decimal { mantissa: 1, scale: 0 }, _))));
    assert!(values.get(&"depth".to_string()).is_none());
}

#[test]
fn style_tree_mirrors_the_dom() {
    let root = html::parse("<div class=\"y\">hi<p>x</p></div>".to_string()).unwrap();
    let s = sheet(".y { display: inline; } p { display: none; }");
    let styled = style_tree(&root, &s);
    assert!(std::ptr::eq(styled.node, &root));
    assert_eq!(styled.children.len(), 2);
    assert_eq!(styled.children[1].children.len(), 1);
    assert_eq!(styled.display(), Display::Inline);
    assert_eq!(styled.children[0].display(), Display::Inline);
    assert_eq!(styled.children[1].display(), Display::Hidden);
    assert_eq!(styled.children[1].children[0].display(), Display::Inline);
    assert!(styled.children[0].specified_values.get(&"display".to_string()).is_none());
}

#[test]
fn inline_run_shares_one_anonymous_box() {
    let root = html::parse("<div><div></div><span></span><span></span><div></div></div>".to_string()).unwrap();
    let s = sheet("span { display: inline; }");
    let styled = style_tree(&root, &s);
    let tree = build_layout_tree(&styled).unwrap();
    assert_eq!(kinds(&tree), vec!["block", "anonymous", "block"]);
    assert_eq!(kinds(&tree.children[1]), vec!["inline", "inline"]);
    assert_eq!(tree.dimensions.content.width, 0);
}

#[test]
fn hidden_child_gets_no_box() {
    let root = html::parse("<div><span></span><em></em><span></span><p></p></div>".to_string()).unwrap();
    let s = sheet("span { display: inline; } em { display: none; }");
    let styled = style_tree(&root, &s);
    let tree = build_layout_tree(&styled).unwrap();
    assert_eq!(kinds(&tree), vec!["anonymous", "block"]);
    assert_eq!(kinds(&tree.children[0]), vec!["inline", "inline"]);
}

#[test]
fn text_then_block_child() {
    let root = html::parse("<div>some text<div></div></div>".to_string()).unwrap();
    let s = sheet("");
    let styled = style_tree(&root, &s);
    let tree = build_layout_tree(&styled).unwrap();
    assert!(matches!(tree.box_type, BoxType::Block(_)));
    assert_eq!(kinds(&tree), vec!["anonymous", "block"]);
    assert_eq!(kinds(&tree.children[0]), vec!["inline"]);
}

#[test]
fn inline_root_takes_children_directly() {
    let root = html::parse("<b><i></i>t</b>".to_string()).unwrap();
    let s = sheet("b { display: inline; }");
    let styled = style_tree(&root, &s);
    let tree = build_layout_tree(&styled).unwrap();
    assert!(matches!(tree.box_type, BoxType::Inline(_)));
    assert_eq!(kinds(&tree), vec!["block", "inline"]);
}

#[test]
fn hidden_root_has_no_layout() {
    let root = html::parse("<div></div>".to_string()).unwrap();
    let s = sheet("div { display: none; }");
    let styled = style_tree(&root, &s);
    assert_eq!(build_layout_tree(&styled).err(), Some(LayoutError::NoVisualRoot));
}

#[test]
fn anonymous_box_on_demand() {
    let root = html::parse("<div></div>".to_string()).unwrap();
    let styled = style_tree(&root, &sheet(""));
    let mut b = LayoutBox::new(BoxType::Block(&styled));
    b.generate_anonymous_box();
    b.generate_anonymous_box();
    assert_eq!(kinds(&b), vec!["anonymous"]);
    let mut a = LayoutBox::new(BoxType::Anonymous);
    a.generate_anonymous_box();
    assert!(a.children.is_empty());
}
