//! Selector parsing and pre-order document queries.

use cortex_browser_env::dom::Document;
use cortex_browser_env::query::{parse_selector, query_selector, query_selector_all, Selector};

#[test]
fn test_parse_element_selector() {
    let result = parse_selector("div");
    assert!(result.is_ok());
    assert_eq!(result.unwrap(), Selector::Element("div".to_string()));
}

#[test]
fn test_parse_element_selector_case_insensitive() {
    let result = parse_selector("DIV");
    assert!(result.is_ok());
    assert_eq!(result.unwrap(), Selector::Element("DIV".to_string()));
}

#[test]
fn test_parse_id_selector() {
    let result = parse_selector("#myid");
    assert!(result.is_ok());
    assert_eq!(result.unwrap(), Selector::Id("myid".to_string()));
}

#[test]
fn test_parse_class_selector() {
    let result = parse_selector(".myclass");
    assert!(result.is_ok());
    assert_eq!(result.unwrap(), Selector::Class("myclass".to_string()));
}

#[test]
fn test_parse_attribute_selector_with_value() {
    let result = parse_selector("[type=\"text\"]");
    assert!(result.is_ok());
    assert_eq!(result.unwrap(), Selector::Attribute("type".to_string(), "text".to_string()));
}

#[test]
fn test_parse_attribute_selector_with_single_quotes() {
    let result = parse_selector("[type='text']");
    assert!(result.is_ok());
    assert_eq!(result.unwrap(), Selector::Attribute("type".to_string(), "text".to_string()));
}

#[test]
fn test_parse_attribute_selector_exists() {
    let result = parse_selector("[disabled]");
    assert!(result.is_ok());
    assert_eq!(result.unwrap(), Selector::AttributeExists("disabled".to_string()));
}

#[test]
fn test_parse_empty_selector() {
    let result = parse_selector("");
    assert!(result.is_err());
}

#[test]
fn test_parse_selector_with_whitespace() {
    let result = parse_selector("  div  ");
    assert!(result.is_ok());
    assert_eq!(result.unwrap(), Selector::Element("div".to_string()));
}

#[test]
fn test_query_selector_all_finds_elements_by_tag() {
    // Given: A document with multiple elements
    let mut doc = Document::new();
    let html = doc.create_element("html");
    let body = doc.create_element("body");
    let div1 = doc.create_element("div");
    let div2 = doc.create_element("div");
    let p = doc.create_element("p");

    doc.append_child(0, html);
    doc.append_child(html, body);
    doc.append_child(body, div1);
    doc.append_child(body, div2);
    doc.append_child(body, p);

    // When: We query for all divs
    let result = query_selector_all(&doc, "div");

    // Then: Should find both divs
    assert!(result.is_ok());
    let divs = result.unwrap();
    assert_eq!(divs.len(), 2);
    assert!(divs.contains(&div1));
    assert!(divs.contains(&div2));
}

#[test]
fn test_query_selector_all_finds_nested_elements() {
    let mut doc = Document::new();
    let root = doc.create_element("div");
    let nested = doc.create_element("div");
    let deeply_nested = doc.create_element("div");

    doc.append_child(0, root);
    doc.append_child(root, nested);
    doc.append_child(nested, deeply_nested);

    let result = query_selector_all(&doc, "div");

    assert!(result.is_ok());
    assert_eq!(result.unwrap().len(), 3);
}

#[test]
fn test_query_selector_all_by_id() {
    let mut doc = Document::new();
    let html = doc.create_element("html");
    let elem1 = doc.create_element("div");
    let elem2 = doc.create_element("div");

    doc.append_child(0, html);
    doc.append_child(html, elem1);
    doc.append_child(html, elem2);
    doc.set_attribute(elem1, "id", "target");
    doc.set_attribute(elem2, "id", "other");

    let result = query_selector_all(&doc, "#target");

    assert!(result.is_ok());
    let results = result.unwrap();
    assert_eq!(results.len(), 1);
    assert_eq!(results[0], elem1);
}

#[test]
fn test_query_selector_all_by_class() {
    let mut doc = Document::new();
    let html = doc.create_element("html");
    let elem1 = doc.create_element("div");
    let elem2 = doc.create_element("div");
    let elem3 = doc.create_element("span");

    doc.append_child(0, html);
    doc.append_child(html, elem1);
    doc.append_child(html, elem2);
    doc.append_child(html, elem3);
    doc.set_attribute(elem1, "class", "highlight");
    doc.set_attribute(elem2, "class", "highlight");
    doc.set_attribute(elem3, "class", "other");

    let result = query_selector_all(&doc, ".highlight");

    assert!(result.is_ok());
    let results = result.unwrap();
    assert_eq!(results.len(), 2);
    assert!(results.contains(&elem1));
    assert!(results.contains(&elem2));
}

#[test]
fn test_query_selector_all_by_class_with_multiple_classes() {
    let mut doc = Document::new();
    let html = doc.create_element("html");
    let elem = doc.create_element("div");

    doc.append_child(0, html);
    doc.append_child(html, elem);
    doc.set_attribute(elem, "class", "highlight active");

    let result = query_selector_all(&doc, ".highlight");

    assert!(result.is_ok());
    let results = result.unwrap();
    assert_eq!(results.len(), 1);
    assert_eq!(results[0], elem);
}

#[test]
fn test_query_selector_all_by_attribute() {
    let mut doc = Document::new();
    let html = doc.create_element("html");
    let input1 = doc.create_element("input");
    let input2 = doc.create_element("input");

    doc.append_child(0, html);
    doc.append_child(html, input1);
    doc.append_child(html, input2);
    doc.set_attribute(input1, "type", "text");
    doc.set_attribute(input2, "type", "checkbox");

    let result = query_selector_all(&doc, "[type=\"text\"]");

    assert!(result.is_ok());
    let results = result.unwrap();
    assert_eq!(results.len(), 1);
    assert_eq!(results[0], input1);
}

#[test]
fn test_query_selector_all_by_attribute_exists() {
    let mut doc = Document::new();
    let html = doc.create_element("html");
    let input1 = doc.create_element("input");
    let input2 = doc.create_element("input");

    doc.append_child(0, html);
    doc.append_child(html, input1);
    doc.append_child(html, input2);
    doc.set_attribute(input1, "disabled", "");

    let result = query_selector_all(&doc, "[disabled]");

    assert!(result.is_ok());
    let results = result.unwrap();
    assert_eq!(results.len(), 1);
    assert_eq!(results[0], input1);
}

#[test]
fn test_query_selector_all_returns_empty_when_no_matches() {
    let mut doc = Document::new();
    let html = doc.create_element("html");
    doc.append_child(0, html);

    let result = query_selector_all(&doc, ".nonexistent");

    assert!(result.is_ok());
    assert_eq!(result.unwrap().len(), 0);
}

#[test]
fn test_query_selector_all_case_insensitive_tags() {
    let mut doc = Document::new();
    let html = doc.create_element("HTML");
    let body = doc.create_element("BODY");
    let div = doc.create_element("DIV");

    doc.append_child(0, html);
    doc.append_child(html, body);
    doc.append_child(body, div);

    let result = query_selector_all(&doc, "div");

    assert!(result.is_ok());
    assert_eq!(result.unwrap().len(), 1);
}

#[test]
fn test_query_selector_returns_first_match() {
    let mut doc = Document::new();
    let html = doc.create_element("html");
    let div1 = doc.create_element("div");
    let div2 = doc.create_element("div");

    doc.append_child(0, html);
    doc.append_child(html, div1);
    doc.append_child(html, div2);

    let result = query_selector(&doc, "div");

    assert!(result.is_ok());
    assert_eq!(result.unwrap(), Some(div1));
}

#[test]
fn test_query_selector_returns_none_when_no_match() {
    let mut doc = Document::new();
    let html = doc.create_element("html");
    doc.append_child(0, html);

    let result = query_selector(&doc, ".nonexistent");

    assert!(result.is_ok());
    assert_eq!(result.unwrap(), None);
}

#[test]
fn test_query_selector_by_id_returns_first() {
    let mut doc = Document::new();
    let html = doc.create_element("html");
    let elem = doc.create_element("div");

    doc.append_child(0, html);
    doc.append_child(html, elem);
    doc.set_attribute(elem, "id", "myid");

    let result = query_selector(&doc, "#myid");

    assert!(result.is_ok());
    assert_eq!(result.unwrap(), Some(elem));
}

#[test]
fn test_empty_document() {
    // Given: An empty document (just the document node)
    let doc = Document::new();

    // When: We query
    let result = query_selector_all(&doc, "div");

    // Then: Should return empty
    assert!(result.is_ok());
    assert_eq!(result.unwrap().len(), 0);
}

#[test]
fn test_query_text_nodes_not_matched() {
    let mut doc = Document::new();
    let html = doc.create_element("html");
    let text = doc.create_text_node("Hello");

    doc.append_child(0, html);
    doc.append_child(html, text);

    let result = query_selector_all(&doc, "div");

    assert!(result.is_ok());
    assert_eq!(result.unwrap().len(), 0);
}

#[test]
fn test_query_with_special_characters_in_attribute() {
    let mut doc = Document::new();
    let html = doc.create_element("html");
    let input = doc.create_element("input");

    doc.append_child(0, html);
    doc.append_child(html, input);
    doc.set_attribute(input, "data-test", "value-with-dashes");

    let result = query_selector_all(&doc, "[data-test=\"value-with-dashes\"]");

    assert!(result.is_ok());
    assert_eq!(result.unwrap().len(), 1);
}

#[test]
fn test_query_multiple_classes_in_selector() {
    let mut doc = Document::new();
    let html = doc.create_element("html");
    let elem = doc.create_element("div");

    doc.append_child(0, html);
    doc.append_child(html, elem);
    doc.set_attribute(elem, "class", "button primary");

    let result = query_selector_all(&doc, ".primary");

    assert!(result.is_ok());
    assert_eq!(result.unwrap().len(), 1);
}
