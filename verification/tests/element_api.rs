//! Element property and method access over the document model.

use cortex_browser_env::dom::Document;
use cortex_browser_env::element::ElementRef;

fn attr_in(attrs: &Vec<(String, String)>, key: &str) -> Option<String> {
    for (k, v) in attrs.iter() {
        if k == key {
            return Some(v.clone());
        }
    }
    None
}

#[test]
fn test_set_and_get_attribute() {
    // Given: A document with an element
    let mut doc = Document::new();
    let html = doc.create_element("html");
    let elem = doc.create_element("div");
    doc.append_child(0, html);
    doc.append_child(html, elem);

    let elem_ref = ElementRef::new(elem);

    // When: We set an attribute
    elem_ref.set_attribute(&mut doc, "data-test", "value123");

    // Then: We should be able to retrieve it
    assert_eq!(elem_ref.get_attribute(&doc, "data-test"), Some("value123".to_string()));
}

#[test]
fn test_has_attribute() {
    let mut doc = Document::new();
    let html = doc.create_element("html");
    let elem = doc.create_element("input");
    doc.append_child(0, html);
    doc.append_child(html, elem);

    let elem_ref = ElementRef::new(elem);
    elem_ref.set_attribute(&mut doc, "type", "text");

    let has_it = elem_ref.has_attribute(&doc, "type");

    assert!(has_it);
}

#[test]
fn test_has_attribute_missing() {
    let mut doc = Document::new();
    let html = doc.create_element("html");
    let elem = doc.create_element("div");
    doc.append_child(0, html);
    doc.append_child(html, elem);

    let elem_ref = ElementRef::new(elem);

    let has_it = elem_ref.has_attribute(&doc, "nonexistent");

    assert!(!has_it);
}

#[test]
fn test_remove_attribute() {
    let mut doc = Document::new();
    let html = doc.create_element("html");
    let elem = doc.create_element("div");
    doc.append_child(0, html);
    doc.append_child(html, elem);

    let elem_ref = ElementRef::new(elem);
    elem_ref.set_attribute(&mut doc, "data-test", "value");

    elem_ref.remove_attribute(&mut doc, "data-test");

    assert!(!elem_ref.has_attribute(&doc, "data-test"));
}

#[test]
fn test_multiple_attributes() {
    let mut doc = Document::new();
    let html = doc.create_element("html");
    let elem = doc.create_element("input");
    doc.append_child(0, html);
    doc.append_child(html, elem);

    let elem_ref = ElementRef::new(elem);

    elem_ref.set_attribute(&mut doc, "type", "text");
    elem_ref.set_attribute(&mut doc, "placeholder", "Enter text");
    elem_ref.set_attribute(&mut doc, "id", "myinput");

    assert_eq!(elem_ref.get_attribute(&doc, "type"), Some("text".to_string()));
    assert_eq!(elem_ref.get_attribute(&doc, "placeholder"), Some("Enter text".to_string()));
    assert_eq!(elem_ref.get_attribute(&doc, "id"), Some("myinput".to_string()));
}

#[test]
fn test_id_property() {
    let mut doc = Document::new();
    let html = doc.create_element("html");
    let elem = doc.create_element("div");
    doc.append_child(0, html);
    doc.append_child(html, elem);

    let elem_ref = ElementRef::new(elem);

    elem_ref.set_id(&mut doc, "myid");

    assert_eq!(elem_ref.id(&doc), Some("myid".to_string()));
}

#[test]
fn test_class_name_property() {
    let mut doc = Document::new();
    let html = doc.create_element("html");
    let elem = doc.create_element("div");
    doc.append_child(0, html);
    doc.append_child(html, elem);

    let elem_ref = ElementRef::new(elem);

    elem_ref.set_class_name(&mut doc, "button primary");

    assert_eq!(elem_ref.class_name(&doc), Some("button primary".to_string()));
}

#[test]
fn test_value_property() {
    let mut doc = Document::new();
    let html = doc.create_element("html");
    let input = doc.create_element("input");
    doc.append_child(0, html);
    doc.append_child(html, input);

    let input_ref = ElementRef::new(input);

    input_ref.set_value(&mut doc, "Hello World");

    assert_eq!(input_ref.value(&doc), Some("Hello World".to_string()));
}

#[test]
fn test_placeholder_property() {
    let mut doc = Document::new();
    let html = doc.create_element("html");
    let input = doc.create_element("input");
    doc.append_child(0, html);
    doc.append_child(html, input);

    let input_ref = ElementRef::new(input);

    input_ref.set_placeholder(&mut doc, "Enter your name");

    assert_eq!(input_ref.placeholder(&doc), Some("Enter your name".to_string()));
}

#[test]
fn test_type_property() {
    let mut doc = Document::new();
    let html = doc.create_element("html");
    let input = doc.create_element("input");
    doc.append_child(0, html);
    doc.append_child(html, input);

    let input_ref = ElementRef::new(input);

    input_ref.set_type(&mut doc, "password");

    assert_eq!(input_ref.type_attr(&doc), Some("password".to_string()));
}

#[test]
fn test_disabled_property() {
    let mut doc = Document::new();
    let html = doc.create_element("html");
    let input = doc.create_element("input");
    doc.append_child(0, html);
    doc.append_child(html, input);

    let input_ref = ElementRef::new(input);

    input_ref.set_disabled(&mut doc, true);

    assert!(input_ref.disabled(&doc));
}

#[test]
fn test_disabled_property_false() {
    let mut doc = Document::new();
    let html = doc.create_element("html");
    let input = doc.create_element("input");
    doc.append_child(0, html);
    doc.append_child(html, input);

    let input_ref = ElementRef::new(input);
    input_ref.set_disabled(&mut doc, true);

    input_ref.set_disabled(&mut doc, false);

    assert!(!input_ref.disabled(&doc));
}

#[test]
fn test_data_attribute_get_set() {
    let mut doc = Document::new();
    let html = doc.create_element("html");
    let elem = doc.create_element("div");
    doc.append_child(0, html);
    doc.append_child(html, elem);

    let elem_ref = ElementRef::new(elem);

    elem_ref.set_data(&mut doc, "userId", "12345");

    assert_eq!(elem_ref.data(&doc, "userId"), Some("12345".to_string()));
}

#[test]
fn test_data_attribute_missing() {
    let mut doc = Document::new();
    let html = doc.create_element("html");
    let elem = doc.create_element("div");
    doc.append_child(0, html);
    doc.append_child(html, elem);

    let elem_ref = ElementRef::new(elem);

    let result = elem_ref.data(&doc, "missing");

    assert_eq!(result, None);
}

#[test]
fn test_tag_name() {
    let mut doc = Document::new();
    let html = doc.create_element("html");
    let input = doc.create_element("input");
    doc.append_child(0, html);
    doc.append_child(html, input);

    let input_ref = ElementRef::new(input);

    let tag = input_ref.tag_name(&doc);

    assert_eq!(tag, Some("input".to_string()));
}

#[test]
fn test_tag_name_document_node() {
    let doc = Document::new();
    let doc_ref = ElementRef::new(0);

    let tag = doc_ref.tag_name(&doc);

    assert_eq!(tag, None);
}

#[test]
fn test_get_all_attributes() {
    let mut doc = Document::new();
    let html = doc.create_element("html");
    let elem = doc.create_element("input");
    doc.append_child(0, html);
    doc.append_child(html, elem);

    let elem_ref = ElementRef::new(elem);
    elem_ref.set_attribute(&mut doc, "type", "text");
    elem_ref.set_attribute(&mut doc, "id", "myinput");
    elem_ref.set_attribute(&mut doc, "class", "form-control");

    let attrs = elem_ref.attributes(&doc);

    assert!(attrs.is_some());
    let attrs = attrs.unwrap();
    assert_eq!(attr_in(&attrs, "type"), Some("text".to_string()));
    assert_eq!(attr_in(&attrs, "id"), Some("myinput".to_string()));
    assert_eq!(attr_in(&attrs, "class"), Some("form-control".to_string()));
}

#[test]
fn test_is_valid_element() {
    let mut doc = Document::new();
    let html = doc.create_element("html");
    let elem = doc.create_element("div");
    doc.append_child(0, html);
    doc.append_child(html, elem);

    let elem_ref = ElementRef::new(elem);

    let valid = elem_ref.is_valid(&doc);

    assert!(valid);
}

#[test]
fn test_is_valid_invalid_index() {
    let doc = Document::new();
    let elem_ref = ElementRef::new(9999);

    let valid = elem_ref.is_valid(&doc);

    assert!(!valid);
}

#[test]
fn test_empty_attribute_value() {
    let mut doc = Document::new();
    let html = doc.create_element("html");
    let input = doc.create_element("input");
    doc.append_child(0, html);
    doc.append_child(html, input);

    let input_ref = ElementRef::new(input);

    input_ref.set_attribute(&mut doc, "data-empty", "");

    assert_eq!(input_ref.get_attribute(&doc, "data-empty"), Some("".to_string()));
}

#[test]
fn test_attribute_with_special_characters() {
    let mut doc = Document::new();
    let html = doc.create_element("html");
    let elem = doc.create_element("div");
    doc.append_child(0, html);
    doc.append_child(html, elem);

    let elem_ref = ElementRef::new(elem);

    elem_ref.set_attribute(&mut doc, "data-json", "{\"key\": \"value\"}");

    assert_eq!(
        elem_ref.get_attribute(&doc, "data-json"),
        Some("{\"key\": \"value\"}".to_string())
    );
}

#[test]
fn test_element_ref_clone() {
    let elem_ref = ElementRef::new(42);

    let cloned = elem_ref.clone();

    assert_eq!(elem_ref, cloned);
    assert_eq!(elem_ref.index, cloned.index);
}

#[test]
fn test_attribute_overwrite() {
    let mut doc = Document::new();
    let html = doc.create_element("html");
    let elem = doc.create_element("div");
    doc.append_child(0, html);
    doc.append_child(html, elem);

    let elem_ref = ElementRef::new(elem);
    elem_ref.set_attribute(&mut doc, "data-value", "first");

    elem_ref.set_attribute(&mut doc, "data-value", "second");

    assert_eq!(elem_ref.get_attribute(&doc, "data-value"), Some("second".to_string()));
}

#[test]
fn test_case_sensitive_attribute_names() {
    let mut doc = Document::new();
    let html = doc.create_element("html");
    let elem = doc.create_element("div");
    doc.append_child(0, html);
    doc.append_child(html, elem);

    let elem_ref = ElementRef::new(elem);

    elem_ref.set_attribute(&mut doc, "dataTest", "value1");
    elem_ref.set_attribute(&mut doc, "datatest", "value2");

    assert_eq!(elem_ref.get_attribute(&doc, "dataTest"), Some("value1".to_string()));
    assert_eq!(elem_ref.get_attribute(&doc, "datatest"), Some("value2".to_string()));
}
