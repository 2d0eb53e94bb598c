//! Box-model and flex layout. Lengths are fixed-point numbers in hundredths
//! of a pixel: a value of `n` pixels is written `n * PX`.

use cortex_browser_env::css::{CSSValue, ComputedStyle};
use cortex_browser_env::dom::{Display, Document, PX};
use cortex_browser_env::layout::{calculate_layout, calculate_layout_recursive};

fn default_styles(doc: &Document) -> Vec<ComputedStyle> {
    let mut styles = Vec::new();
    for _ in 0..doc.nodes.len() {
        styles.push(ComputedStyle::default());
    }
    styles
}

#[test]
fn test_layout_creates_layout_struct() {
    // Given: A simple document with one element
    let mut doc = Document::new();
    let elem_idx = doc.create_element("div");
    doc.append_child(doc.root, elem_idx);

    // When: We calculate layout
    calculate_layout(&mut doc, 1024 * PX, 768 * PX);

    // Then: The element should have a layout
    let layout = doc.nodes[elem_idx].layout.as_ref();
    assert!(layout.is_some());
}

#[test]
fn test_layout_calculates_element_width() {
    let mut doc = Document::new();
    let elem_idx = doc.create_element("div");
    doc.append_child(doc.root, elem_idx);

    let mut styles = default_styles(&doc);
    styles[elem_idx].width = Some(CSSValue::Pixels(200 * PX));

    let root_idx = doc.root;
    calculate_layout_recursive(&mut doc, root_idx, &styles, 1024 * PX, 768 * PX);

    let layout = doc.nodes[elem_idx].layout.as_ref().unwrap();
    assert_eq!(layout.width, 200 * PX);
}

#[test]
fn test_layout_calculates_element_height() {
    let mut doc = Document::new();
    let elem_idx = doc.create_element("div");
    doc.append_child(doc.root, elem_idx);

    let mut styles = default_styles(&doc);
    styles[elem_idx].height = Some(CSSValue::Pixels(150 * PX));

    let root_idx = doc.root;
    calculate_layout_recursive(&mut doc, root_idx, &styles, 1024 * PX, 768 * PX);

    let layout = doc.nodes[elem_idx].layout.as_ref().unwrap();
    assert_eq!(layout.height, 150 * PX);
}

#[test]
fn test_layout_applies_padding() {
    let mut doc = Document::new();
    let elem_idx = doc.create_element("div");
    doc.append_child(doc.root, elem_idx);

    let mut styles = default_styles(&doc);
    styles[elem_idx].width = Some(CSSValue::Pixels(200 * PX));
    styles[elem_idx].height = Some(CSSValue::Pixels(100 * PX));
    styles[elem_idx].padding_top = Some(CSSValue::Pixels(10 * PX));
    styles[elem_idx].padding_right = Some(CSSValue::Pixels(10 * PX));
    styles[elem_idx].padding_bottom = Some(CSSValue::Pixels(10 * PX));
    styles[elem_idx].padding_left = Some(CSSValue::Pixels(10 * PX));

    let root_idx = doc.root;
    calculate_layout_recursive(&mut doc, root_idx, &styles, 1024 * PX, 768 * PX);

    let layout = doc.nodes[elem_idx].layout.as_ref().unwrap();
    assert_eq!(layout.padding_top, 10 * PX);
    assert_eq!(layout.padding_right, 10 * PX);
    assert_eq!(layout.padding_bottom, 10 * PX);
    assert_eq!(layout.padding_left, 10 * PX);
    assert_eq!(layout.content_width, 180 * PX); // 200 - 10 - 10
    assert_eq!(layout.content_height, 80 * PX); // 100 - 10 - 10
}

#[test]
fn test_layout_applies_margin() {
    let mut doc = Document::new();
    let elem_idx = doc.create_element("div");
    doc.append_child(doc.root, elem_idx);

    let mut styles = default_styles(&doc);
    styles[elem_idx].margin_top = Some(CSSValue::Pixels(20 * PX));
    styles[elem_idx].margin_right = Some(CSSValue::Pixels(20 * PX));
    styles[elem_idx].margin_bottom = Some(CSSValue::Pixels(20 * PX));
    styles[elem_idx].margin_left = Some(CSSValue::Pixels(20 * PX));

    let root_idx = doc.root;
    calculate_layout_recursive(&mut doc, root_idx, &styles, 1024 * PX, 768 * PX);

    let layout = doc.nodes[elem_idx].layout.as_ref().unwrap();
    assert_eq!(layout.margin_top, 20 * PX);
    assert_eq!(layout.margin_left, 20 * PX);
    assert_eq!(layout.x, 20 * PX);
    assert_eq!(layout.y, 20 * PX);
}

#[test]
fn test_layout_applies_border() {
    let mut doc = Document::new();
    let elem_idx = doc.create_element("div");
    doc.append_child(doc.root, elem_idx);

    let mut styles = default_styles(&doc);
    styles[elem_idx].width = Some(CSSValue::Pixels(100 * PX));
    styles[elem_idx].height = Some(CSSValue::Pixels(100 * PX));
    styles[elem_idx].border_width = Some(CSSValue::Pixels(5 * PX));

    let root_idx = doc.root;
    calculate_layout_recursive(&mut doc, root_idx, &styles, 1024 * PX, 768 * PX);

    let layout = doc.nodes[elem_idx].layout.as_ref().unwrap();
    assert_eq!(layout.border_width, 5 * PX);
    assert_eq!(layout.content_width, 90 * PX); // 100 - 5 - 5
    assert_eq!(layout.content_height, 90 * PX);
}

#[test]
fn test_layout_combined_box_model() {
    let mut doc = Document::new();
    let elem_idx = doc.create_element("div");
    doc.append_child(doc.root, elem_idx);

    let mut styles = default_styles(&doc);
    styles[elem_idx].width = Some(CSSValue::Pixels(200 * PX));
    styles[elem_idx].height = Some(CSSValue::Pixels(150 * PX));
    styles[elem_idx].padding_top = Some(CSSValue::Pixels(10 * PX));
    styles[elem_idx].padding_right = Some(CSSValue::Pixels(10 * PX));
    styles[elem_idx].padding_bottom = Some(CSSValue::Pixels(10 * PX));
    styles[elem_idx].padding_left = Some(CSSValue::Pixels(10 * PX));
    styles[elem_idx].margin_top = Some(CSSValue::Pixels(20 * PX));
    styles[elem_idx].margin_left = Some(CSSValue::Pixels(20 * PX));
    styles[elem_idx].border_width = Some(CSSValue::Pixels(2 * PX));

    let root_idx = doc.root;
    calculate_layout_recursive(&mut doc, root_idx, &styles, 1024 * PX, 768 * PX);

    let layout = doc.nodes[elem_idx].layout.as_ref().unwrap();
    assert_eq!(layout.x, 20 * PX); // margin_left
    assert_eq!(layout.y, 20 * PX); // margin_top
    assert_eq!(layout.width, 200 * PX); // explicit
    assert_eq!(layout.padding_left, 10 * PX);
    assert_eq!(layout.border_width, 2 * PX);
    assert_eq!(layout.content_width, 176 * PX); // 200 - 10 - 10 - 2 - 2
}

#[test]
fn test_layout_text_node_height() {
    // Given: A text node with font size
    let mut doc = Document::new();
    let text_idx = doc.create_text_node("Hello World");
    doc.append_child(doc.root, text_idx);

    let mut styles = default_styles(&doc);
    styles[text_idx].font_size = Some(CSSValue::Pixels(16 * PX));

    let root_idx = doc.root;
    calculate_layout_recursive(&mut doc, root_idx, &styles, 1024 * PX, 768 * PX);

    // Then: Height should be font_size * 1.5 (line height)
    let layout = doc.nodes[text_idx].layout.as_ref().unwrap();
    assert_eq!(layout.font_size, 16 * PX);
    assert_eq!(layout.height, 24 * PX); // 16 * 1.5
}

#[test]
fn test_layout_default_font_size() {
    let mut doc = Document::new();
    let text_idx = doc.create_text_node("Text");
    doc.append_child(doc.root, text_idx);

    let styles = default_styles(&doc);

    let root_idx = doc.root;
    calculate_layout_recursive(&mut doc, root_idx, &styles, 1024 * PX, 768 * PX);

    let layout = doc.nodes[text_idx].layout.as_ref().unwrap();
    assert_eq!(layout.font_size, 16 * PX);
}

#[test]
fn test_layout_nested_elements() {
    let mut doc = Document::new();
    let parent_idx = doc.create_element("div");
    let child_idx = doc.create_element("span");
    doc.append_child(doc.root, parent_idx);
    doc.append_child(parent_idx, child_idx);

    let mut styles = default_styles(&doc);
    styles[parent_idx].width = Some(CSSValue::Pixels(400 * PX));
    styles[parent_idx].height = Some(CSSValue::Pixels(300 * PX));
    styles[child_idx].width = Some(CSSValue::Pixels(100 * PX));
    styles[child_idx].height = Some(CSSValue::Pixels(50 * PX));

    let root_idx = doc.root;
    calculate_layout_recursive(&mut doc, root_idx, &styles, 1024 * PX, 768 * PX);

    let parent_layout = doc.nodes[parent_idx].layout.as_ref().unwrap();
    let child_layout = doc.nodes[child_idx].layout.as_ref().unwrap();
    assert_eq!(parent_layout.width, 400 * PX);
    assert_eq!(child_layout.width, 100 * PX);
}

#[test]
fn test_layout_child_inherits_parent_content_area() {
    let mut doc = Document::new();
    let parent_idx = doc.create_element("div");
    let child_idx = doc.create_element("div");
    doc.append_child(doc.root, parent_idx);
    doc.append_child(parent_idx, child_idx);

    let mut styles = default_styles(&doc);
    styles[parent_idx].width = Some(CSSValue::Pixels(200 * PX));
    styles[parent_idx].padding_top = Some(CSSValue::Pixels(20 * PX));
    styles[parent_idx].padding_left = Some(CSSValue::Pixels(20 * PX));
    styles[child_idx].width = Some(CSSValue::Pixels(100 * PX));

    let root_idx = doc.root;
    calculate_layout_recursive(&mut doc, root_idx, &styles, 1024 * PX, 768 * PX);

    let parent_layout = doc.nodes[parent_idx].layout.as_ref().unwrap();
    let child_layout = doc.nodes[child_idx].layout.as_ref().unwrap();
    assert_eq!(parent_layout.content_width, 180 * PX); // 200 - 20 (left padding) - 0 (right)
    assert_eq!(child_layout.width, 100 * PX);
}

#[test]
fn test_layout_multiple_children() {
    let mut doc = Document::new();
    let parent_idx = doc.create_element("div");
    let child1_idx = doc.create_element("span");
    let child2_idx = doc.create_element("span");
    doc.append_child(doc.root, parent_idx);
    doc.append_child(parent_idx, child1_idx);
    doc.append_child(parent_idx, child2_idx);

    let mut styles = default_styles(&doc);
    styles[parent_idx].width = Some(CSSValue::Pixels(300 * PX));

    let root_idx = doc.root;
    calculate_layout_recursive(&mut doc, root_idx, &styles, 1024 * PX, 768 * PX);

    assert!(doc.nodes[child1_idx].layout.is_some());
    assert!(doc.nodes[child2_idx].layout.is_some());
}

#[test]
fn test_layout_display_block() {
    let mut doc = Document::new();
    let elem_idx = doc.create_element("div");
    doc.append_child(doc.root, elem_idx);

    let mut styles = default_styles(&doc);
    styles[elem_idx].display = Display::Block;

    let root_idx = doc.root;
    calculate_layout_recursive(&mut doc, root_idx, &styles, 1024 * PX, 768 * PX);

    let layout = doc.nodes[elem_idx].layout.as_ref().unwrap();
    assert_eq!(layout.display, Display::Block);
}

#[test]
fn test_layout_display_inline() {
    let mut doc = Document::new();
    let elem_idx = doc.create_element("span");
    doc.append_child(doc.root, elem_idx);

    let mut styles = default_styles(&doc);
    styles[elem_idx].display = Display::Inline;

    let root_idx = doc.root;
    calculate_layout_recursive(&mut doc, root_idx, &styles, 1024 * PX, 768 * PX);

    let layout = doc.nodes[elem_idx].layout.as_ref().unwrap();
    assert_eq!(layout.display, Display::Inline);
}

#[test]
fn test_layout_zero_dimension_element() {
    let mut doc = Document::new();
    let elem_idx = doc.create_element("div");
    doc.append_child(doc.root, elem_idx);

    let mut styles = default_styles(&doc);
    styles[elem_idx].width = Some(CSSValue::Pixels(0));

    let root_idx = doc.root;
    calculate_layout_recursive(&mut doc, root_idx, &styles, 1024 * PX, 768 * PX);

    let layout = doc.nodes[elem_idx].layout.as_ref().unwrap();
    assert_eq!(layout.width, 0);
}

#[test]
fn test_layout_content_width_never_negative() {
    // Given: An element with large padding exceeding width
    let mut doc = Document::new();
    let elem_idx = doc.create_element("div");
    doc.append_child(doc.root, elem_idx);

    let mut styles = default_styles(&doc);
    styles[elem_idx].width = Some(CSSValue::Pixels(50 * PX));
    styles[elem_idx].padding_left = Some(CSSValue::Pixels(100 * PX));

    let root_idx = doc.root;
    calculate_layout_recursive(&mut doc, root_idx, &styles, 1024 * PX, 768 * PX);

    // Then: Content width should not be negative
    let layout = doc.nodes[elem_idx].layout.as_ref().unwrap();
    assert!(layout.content_width >= 0);
}

#[test]
fn test_layout_percentage_width() {
    // Given: A child element with percentage width
    let mut doc = Document::new();
    let parent_idx = doc.create_element("div");
    let child_idx = doc.create_element("div");
    doc.append_child(doc.root, parent_idx);
    doc.append_child(parent_idx, child_idx);

    let mut styles = default_styles(&doc);
    styles[parent_idx].width = Some(CSSValue::Pixels(400 * PX));
    styles[child_idx].width = Some(CSSValue::Percentage(50 * PX)); // 50% of 400 = 200

    let root_idx = doc.root;
    calculate_layout_recursive(&mut doc, root_idx, &styles, 1024 * PX, 768 * PX);

    // Then: Child width should be 50% of parent width (200px)
    let child_layout = doc.nodes[child_idx].layout.as_ref().unwrap();
    assert_eq!(child_layout.width, 200 * PX);
}

#[test]
fn test_layout_empty_document() {
    // Given: An empty document
    let mut doc = Document::new();

    // When: We calculate layout
    calculate_layout(&mut doc, 1024 * PX, 768 * PX);

    // Then: Should not panic (graceful handling)
    assert_eq!(doc.nodes.len(), 1); // Only document node
}

#[test]
fn test_layout_flex_row() {
    // Given: A flex container with two children
    let mut doc = Document::new();
    let container_idx = doc.create_element("div");
    let child1_idx = doc.create_element("div");
    let child2_idx = doc.create_element("div");
    doc.append_child(doc.root, container_idx);
    doc.append_child(container_idx, child1_idx);
    doc.append_child(container_idx, child2_idx);

    let mut styles = default_styles(&doc);
    styles[container_idx].display = Display::Flex;
    styles[child1_idx].width = Some(CSSValue::Pixels(100 * PX));
    styles[child1_idx].height = Some(CSSValue::Pixels(100 * PX));
    styles[child2_idx].width = Some(CSSValue::Pixels(100 * PX));
    styles[child2_idx].height = Some(CSSValue::Pixels(100 * PX));

    calculate_layout_recursive(&mut doc, container_idx, &styles, 1024 * PX, 768 * PX);

    // Then: The second child should be positioned to the right of the first child
    let child1_layout = doc.nodes[child1_idx].layout.as_ref().unwrap();
    let child2_layout = doc.nodes[child2_idx].layout.as_ref().unwrap();

    assert_eq!(child1_layout.x, 0);
    assert_eq!(child2_layout.x, 100 * PX);
}
