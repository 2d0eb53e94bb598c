//! Markup parsing, style-sheet parsing, and the cascade.

use cortex_browser_env::css::parse_css;
use cortex_browser_env::dom::NodeData;
use cortex_browser_env::parser::parse_html;
use cortex_browser_env::style::style_tree;

fn decl_in(decls: &Vec<(String, String)>, key: &str) -> Option<String> {
    for (k, v) in decls.iter() {
        if k == key {
            return Some(v.clone());
        }
    }
    None
}

#[test]
fn test_parse_simple_html() {
    let html = "<html><body><h1>Hello</h1></body></html>";
    let document = parse_html(html);

    // Document root is node 0
    let root_node = document.get_node(document.root).unwrap();
    assert_eq!(root_node.children.len(), 1);

    // Get <html> element (should be the first and only child of the document)
    let html_node_idx = root_node.children[0];
    let html_node = document.get_node(html_node_idx).unwrap();
    if let Some(NodeData::Element(data)) = &html_node.data {
        assert_eq!(data.tag_name, "html");
    } else {
        panic!("HTML node should be an element");
    }
    assert_eq!(html_node.children.len(), 1);
    assert_eq!(html_node.parent, Some(document.root));

    // Get <body> element
    let body_node_idx = html_node.children[0];
    let body_node = document.get_node(body_node_idx).unwrap();
    if let Some(NodeData::Element(data)) = &body_node.data {
        assert_eq!(data.tag_name, "body");
    } else {
        panic!("Body node should be an element");
    }
    assert_eq!(body_node.children.len(), 1);
    assert_eq!(body_node.parent, Some(html_node_idx));

    // Get <h1> element
    let h1_node_idx = body_node.children[0];
    let h1_node = document.get_node(h1_node_idx).unwrap();
    if let Some(NodeData::Element(data)) = &h1_node.data {
        assert_eq!(data.tag_name, "h1");
    } else {
        panic!("H1 node should be an element");
    }
    assert_eq!(h1_node.children.len(), 1);
    assert_eq!(h1_node.parent, Some(body_node_idx));

    // Get text node
    let text_node_idx = h1_node.children[0];
    let text_node = document.get_node(text_node_idx).unwrap();
    if let Some(NodeData::Text(text)) = &text_node.data {
        assert_eq!(text, "Hello");
    } else {
        panic!("Text node should contain text");
    }
    assert_eq!(text_node.children.len(), 0);
    assert_eq!(text_node.parent, Some(h1_node_idx));
}

#[test]
fn test_parse_simple_css() {
    let css = "h1 { color: red; font-size: 16px; }";
    let stylesheet = parse_css(css);

    assert_eq!(stylesheet.rules.len(), 1);
    let rule = &stylesheet.rules[0];

    assert_eq!(rule.selectors, vec!["h1"]);
    assert_eq!(rule.declarations.len(), 2);
    assert_eq!(decl_in(&rule.declarations, "color"), Some("red".to_string()));
    assert_eq!(decl_in(&rule.declarations, "font-size"), Some("16px".to_string()));
}

#[test]
fn test_style_simple_tree() {
    let html = "<html><body><p>Hello</p></body></html>";
    let document = parse_html(html);

    let css = "p { color: red; } h1 { color: blue; }";
    let stylesheet = parse_css(css);

    let styled_root = style_tree(&document, document.root, &stylesheet);

    // html -> body -> p
    let p_node_styled = &styled_root.children[0].children[0].children[0];

    if let Some(NodeData::Element(data)) = &p_node_styled.node.data {
        assert_eq!(data.tag_name, "p");
    } else {
        panic!("Expected p element");
    }

    assert_eq!(p_node_styled.specified_values.color, Some("red".to_string()));
}

#[test]
fn test_parse_html_attributes() {
    let html = "<div id=\"main\" class='wide box' data-k=plain>text</div>";
    let document = parse_html(html);

    let div_idx = document.get_node(0).unwrap().children[0];
    assert_eq!(document.get_attribute(div_idx, "id").cloned(), Some("main".to_string()));
    assert_eq!(document.get_attribute(div_idx, "class").cloned(), Some("wide box".to_string()));
    assert_eq!(document.get_attribute(div_idx, "data-k").cloned(), Some("plain".to_string()));
}

#[test]
fn test_parse_html_mismatched_close_tag_ignored() {
    // a close tag that does not name the insertion parent is silently ignored
    let html = "<div><span>a</wrong>b</span></div>";
    let document = parse_html(html);

    let div_idx = document.get_node(0).unwrap().children[0];
    let span_idx = document.get_node(div_idx).unwrap().children[0];
    let span = document.get_node(span_idx).unwrap();
    // both text runs stay under the span: the </wrong> tag changed nothing
    assert_eq!(span.children.len(), 2);
}

#[test]
fn test_parse_css_trailing_garbage_dropped() {
    let css = "p { color: red; } trailing-garbage-without-a-block";
    let stylesheet = parse_css(css);
    assert_eq!(stylesheet.rules.len(), 2);
    // the garbage became a selector list whose block is empty
    assert_eq!(stylesheet.rules[0].selectors, vec!["p"]);
}

#[test]
fn test_parse_css_repeated_property_last_wins() {
    let css = "p { color: red; color: blue; }";
    let stylesheet = parse_css(css);
    assert_eq!(stylesheet.rules.len(), 1);
    assert_eq!(decl_in(&stylesheet.rules[0].declarations, "color"), Some("blue".to_string()));
}

#[test]
fn test_parse_css_selector_list() {
    let css = "h1, h2 , h3 { color: green; }";
    let stylesheet = parse_css(css);
    assert_eq!(stylesheet.rules.len(), 1);
    assert_eq!(stylesheet.rules[0].selectors, vec!["h1", "h2", "h3"]);
}
