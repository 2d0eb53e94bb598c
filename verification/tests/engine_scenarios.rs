//! End-to-end scenarios across the pipeline: parse, query, cascade, layout.

use cortex_browser_env::css::{parse_css, CSSValue, ComputedStyle};
use cortex_browser_env::custom_elements::CustomElementRegistry;
use cortex_browser_env::dom::{Document, NodeData, ShadowRootMode, PX};
use cortex_browser_env::layout::calculate_layout_recursive;
use cortex_browser_env::parser::parse_html;
use cortex_browser_env::query::{query_selector, query_selector_all};
use cortex_browser_env::style::style_tree;

#[test]
fn test_span_query_scenario() {
    // input <div><span>x</span></div>, query span: exactly one match, the span's index
    let document = parse_html("<div><span>x</span></div>");
    let div_idx = document.get_node(0).unwrap().children[0];
    let span_idx = document.get_node(div_idx).unwrap().children[0];

    let result = query_selector_all(&document, "span").unwrap();
    assert_eq!(result, vec![span_idx]);
}

#[test]
fn test_last_matched_rule_wins_scenario() {
    // stylesheet h1{color:blue} h1{color:red} applied to an <h1>: red wins
    let document = parse_html("<h1>title</h1>");
    let stylesheet = parse_css("h1{color:blue} h1{color:red}");

    let styled_root = style_tree(&document, document.root, &stylesheet);
    let h1_styled = &styled_root.children[0];

    assert_eq!(h1_styled.specified_values.color, Some("red".to_string()));
}

#[test]
fn test_percentage_width_scenario() {
    // width:50% under a parent of content width 400: child layout width 200
    let mut doc = Document::new();
    let parent_idx = doc.create_element("div");
    let child_idx = doc.create_element("div");
    doc.append_child(doc.root, parent_idx);
    doc.append_child(parent_idx, child_idx);

    let mut styles = vec![ComputedStyle::default(); doc.nodes.len()];
    styles[parent_idx].width = Some(CSSValue::Pixels(400 * PX));
    styles[child_idx].width = Some(CSSValue::Percentage(50 * PX));

    let root_idx = doc.root;
    calculate_layout_recursive(&mut doc, root_idx, &styles, 1024 * PX, 768 * PX);

    assert_eq!(doc.nodes[child_idx].layout.as_ref().unwrap().width, 200 * PX);
}

#[test]
fn test_query_empty_document_scenario() {
    // querySelector on a root-only document: no match, not an error
    let doc = Document::new();
    let result = query_selector(&doc, "div");
    assert!(result.is_ok());
    assert_eq!(result.unwrap(), None);
}

#[test]
fn test_query_rerun_yields_identical_sequence() {
    let document = parse_html("<div class=a><p class=a>x</p></div><p class=a>y</p>");
    let first = query_selector_all(&document, ".a").unwrap();
    let second = query_selector_all(&document, ".a").unwrap();
    assert_eq!(first, second);
    assert_eq!(first.len(), 3);
}

#[test]
fn test_query_results_in_preorder_document_order() {
    let document = parse_html("<div><p>one</p><p>two</p></div><p>three</p>");
    let div_idx = document.get_node(0).unwrap().children[0];
    let p1 = document.get_node(div_idx).unwrap().children[0];
    let p2 = document.get_node(div_idx).unwrap().children[1];
    let p3 = document.get_node(0).unwrap().children[1];

    let result = query_selector_all(&document, "p").unwrap();
    assert_eq!(result, vec![p1, p2, p3]);
}

#[test]
fn test_tag_match_is_case_insensitive_but_class_is_not() {
    let document = parse_html("<DIV class=Big>x</DIV>");
    assert_eq!(query_selector_all(&document, "div").unwrap().len(), 1);
    assert_eq!(query_selector_all(&document, ".Big").unwrap().len(), 1);
    assert_eq!(query_selector_all(&document, ".big").unwrap().len(), 0);
}

#[test]
fn test_id_match_is_case_sensitive() {
    let document = parse_html("<div id=Main>x</div>");
    assert_eq!(query_selector_all(&document, "#Main").unwrap().len(), 1);
    assert_eq!(query_selector_all(&document, "#main").unwrap().len(), 0);
}

#[test]
fn test_as_pixels_resolution() {
    // percentages resolve against the caller-supplied reference length
    let half = CSSValue::Percentage(50 * PX);
    assert_eq!(half.as_pixels(400 * PX), 200 * PX);
    let px = CSSValue::Pixels(33 * PX);
    assert_eq!(px.as_pixels(400 * PX), 33 * PX);
    assert_eq!(CSSValue::Auto.as_pixels(400 * PX), 0);
    assert_eq!(CSSValue::Inherit.as_pixels(400 * PX), 0);
}

#[test]
fn test_attach_shadow_error_cases() {
    let mut doc = Document::new();
    let html = doc.create_element("html");
    let text = doc.create_text_node("t");
    doc.append_child(0, html);
    doc.append_child(html, text);

    assert_eq!(doc.attach_shadow(html, ShadowRootMode::Open), Ok(html));
    assert_eq!(
        doc.attach_shadow(html, ShadowRootMode::Open),
        Err("Shadow root already exists for this host.")
    );
    assert_eq!(
        doc.attach_shadow(text, ShadowRootMode::Closed),
        Err("Cannot attach shadow root to a non-element node.")
    );
    assert_eq!(doc.attach_shadow(999, ShadowRootMode::Open), Err("Host node not found."));
}

#[test]
fn test_event_listeners_and_dispatch_path() {
    let mut doc = Document::new();
    let html = doc.create_element("html");
    let div = doc.create_element("div");
    doc.append_child(0, html);
    doc.append_child(html, div);

    doc.add_event_listener(div, "click", 7);
    doc.add_event_listener(html, "click", 8);
    doc.add_event_listener(html, "focus", 9);

    // the propagation path visits the target first, then its ancestors
    assert_eq!(doc.dispatch_event(div, "click"), vec![div, html]);
    assert_eq!(doc.dispatch_event(div, "focus"), vec![html]);
    assert_eq!(doc.dispatch_event(div, "keydown"), Vec::<usize>::new());
}

#[test]
fn test_custom_element_registry() {
    let mut registry = CustomElementRegistry::new();
    assert_eq!(registry.get("ui-button"), None);

    registry.define("ui-button", 3);
    assert_eq!(registry.get("ui-button"), Some(&3));

    registry.define("ui-button", 5);
    assert_eq!(registry.get("ui-button"), Some(&5));
    assert_eq!(registry.get("ui-input"), None);
}

#[test]
fn test_parse_html_unclosed_tag_still_builds() {
    let document = parse_html("<div><p>text");
    let div_idx = document.get_node(0).unwrap().children[0];
    let p_idx = document.get_node(div_idx).unwrap().children[0];
    let p = document.get_node(p_idx).unwrap();
    assert_eq!(p.children.len(), 1);
    if let Some(NodeData::Text(t)) = &document.get_node(p.children[0]).unwrap().data {
        assert_eq!(t, "text");
    } else {
        panic!("expected a text node");
    }
}

#[test]
fn test_lowercasing_feeds_tag_matching() {
    // the match goes through real lowercasing of both sides: a mixed-case
    // query finds a mixed-case tag even though neither equals the other
    let document = parse_html("<SeCtIoN>x</SeCtIoN>");
    assert_eq!(query_selector_all(&document, "sEcTiOn").unwrap().len(), 1);
}

#[test]
fn test_content_width_formula_exact_value() {
    // content_width = max(width - padding_left - padding_right - 2*border, 0)
    let mut doc = Document::new();
    let elem = doc.create_element("div");
    doc.append_child(doc.root, elem);

    let mut styles = vec![ComputedStyle::default(); doc.nodes.len()];
    styles[elem].width = Some(CSSValue::Pixels(100 * PX));
    styles[elem].padding_left = Some(CSSValue::Pixels(30 * PX));
    styles[elem].padding_right = Some(CSSValue::Pixels(30 * PX));
    styles[elem].border_width = Some(CSSValue::Pixels(25 * PX));

    let root_idx = doc.root;
    calculate_layout_recursive(&mut doc, root_idx, &styles, 1024 * PX, 768 * PX);

    // 100 - 30 - 30 - 50 is negative, so the content width clamps to zero
    assert_eq!(doc.nodes[elem].layout.as_ref().unwrap().content_width, 0);
}
