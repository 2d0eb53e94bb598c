//! Element property and method access: typed accessors over a node index,
//! all delegating to the document model's fail-soft operations.

use vstd::prelude::*;
use vstd::string::StringExecFns;
use crate::dom::{
    attr_of, node_attrs, node_is_element, node_tag, remove_attr_rel, same_doc, set_attr_rel,
    Document, NodeData, NodeType,
};

verus! {

/// A reference to an element: a plain node index into a document's arena.
#[derive(Debug, Clone, Copy, PartialEq, Eq, Structural)]
pub struct ElementRef {
    pub index: usize,
}

/// Whether writing attribute `k` to `v` on node `i` either related the two
/// documents as a write does, or, for an index that does not name an
/// element, left the document unchanged.
pub open spec fn set_attr_or_noop(d0: Document, d1: Document, i: int, k: Seq<char>, v: Seq<char>) -> bool {
    if 0 <= i < d0.nodes@.len() && node_is_element(d0.nodes@[i]) {
        set_attr_rel(d0, d1, i, k, v)
    } else {
        same_doc(d0, d1)
    }
}

/// Whether removing attribute `k` on node `i` either related the two
/// documents as a removal does, or left the document unchanged.
pub open spec fn remove_attr_or_noop(d0: Document, d1: Document, i: int, k: Seq<char>) -> bool {
    if 0 <= i < d0.nodes@.len() && node_is_element(d0.nodes@[i]) {
        remove_attr_rel(d0, d1, i, k)
    } else {
        same_doc(d0, d1)
    }
}

impl ElementRef {
    /// Wrap a node index.
    pub fn new(index: usize) -> (r: ElementRef)
        ensures
            r.index == index,
    {
        ElementRef { index }
    }

    /// Read an attribute by name.
    pub fn get_attribute(&self, document: &Document, name: &str) -> (r: Option<String>)
        ensures
            (match r {
                Some(v) => attr_of(*document, self.index as int, name@) == Some(v@),
                None => attr_of(*document, self.index as int, name@) is None,
            }),
    {
        match document.get_attribute(self.index, name) {
            Some(v) => Some(v.clone()),
            None => None,
        }
    }

    /// Write an attribute.
    pub fn set_attribute(&self, document: &mut Document, name: &str, value: &str)
        requires
            old(document).wf(),
        ensures
            final(document).wf(),
            set_attr_or_noop(*old(document), *final(document), self.index as int, name@, value@),
    {
        document.set_attribute(self.index, name, value);
    }

    /// Remove an attribute.
    pub fn remove_attribute(&self, document: &mut Document, name: &str)
        requires
            old(document).wf(),
        ensures
            final(document).wf(),
            remove_attr_or_noop(*old(document), *final(document), self.index as int, name@),
    {
        document.remove_attribute(self.index, name);
    }

    /// Whether the attribute exists.
    pub fn has_attribute(&self, document: &Document, name: &str) -> (r: bool)
        ensures
            r == (attr_of(*document, self.index as int, name@) is Some),
    {
        match self.get_attribute(document, name) {
            Some(_) => true,
            None => false,
        }
    }

    /// The element's tag name.
    pub fn tag_name(&self, document: &Document) -> (r: Option<String>)
        ensures
            (self.index < document.nodes@.len() && node_is_element(
                document.nodes@[self.index as int],
            )) ==> (r matches Some(t) && t@ == node_tag(document.nodes@[self.index as int])),
            !(self.index < document.nodes@.len() && node_is_element(
                document.nodes@[self.index as int],
            )) ==> r is None,
    {
        if self.index >= document.nodes.len() {
            return None;
        }
        match &document.nodes[self.index].data {
            Some(NodeData::Element(ed)) => Some(ed.tag_name.clone()),
            _ => None,
        }
    }

    /// The element's `id` attribute.
    pub fn id(&self, document: &Document) -> (r: Option<String>)
        ensures
            (match r {
                Some(v) => attr_of(*document, self.index as int, "id"@) == Some(v@),
                None => attr_of(*document, self.index as int, "id"@) is None,
            }),
    {
        self.get_attribute(document, "id")
    }

    /// Write the element's `id` attribute.
    pub fn set_id(&self, document: &mut Document, value: &str)
        requires
            old(document).wf(),
        ensures
            final(document).wf(),
            set_attr_or_noop(*old(document), *final(document), self.index as int, "id"@, value@),
    {
        self.set_attribute(document, "id", value);
    }

    /// The element's `class` attribute.
    pub fn class_name(&self, document: &Document) -> (r: Option<String>)
        ensures
            (match r {
                Some(v) => attr_of(*document, self.index as int, "class"@) == Some(v@),
                None => attr_of(*document, self.index as int, "class"@) is None,
            }),
    {
        self.get_attribute(document, "class")
    }

    /// Write the element's `class` attribute.
    pub fn set_class_name(&self, document: &mut Document, value: &str)
        requires
            old(document).wf(),
        ensures
            final(document).wf(),
            set_attr_or_noop(*old(document), *final(document), self.index as int, "class"@, value@),
    {
        self.set_attribute(document, "class", value);
    }

    /// The element's `value` attribute.
    pub fn value(&self, document: &Document) -> (r: Option<String>)
        ensures
            (match r {
                Some(v) => attr_of(*document, self.index as int, "value"@) == Some(v@),
                None => attr_of(*document, self.index as int, "value"@) is None,
            }),
    {
        self.get_attribute(document, "value")
    }

    /// Write the element's `value` attribute.
    pub fn set_value(&self, document: &mut Document, value: &str)
        requires
            old(document).wf(),
        ensures
            final(document).wf(),
            set_attr_or_noop(*old(document), *final(document), self.index as int, "value"@, value@),
    {
        self.set_attribute(document, "value", value);
    }

    /// The element's `placeholder` attribute.
    pub fn placeholder(&self, document: &Document) -> (r: Option<String>)
        ensures
            (match r {
                Some(v) => attr_of(*document, self.index as int, "placeholder"@) == Some(v@),
                None => attr_of(*document, self.index as int, "placeholder"@) is None,
            }),
    {
        self.get_attribute(document, "placeholder")
    }

    /// Write the element's `placeholder` attribute.
    pub fn set_placeholder(&self, document: &mut Document, value: &str)
        requires
            old(document).wf(),
        ensures
            final(document).wf(),
            set_attr_or_noop(
                *old(document),
                *final(document),
                self.index as int,
                "placeholder"@,
                value@,
            ),
    {
        self.set_attribute(document, "placeholder", value);
    }

    /// Whether the element carries the `disabled` attribute.
    pub fn disabled(&self, document: &Document) -> (r: bool)
        ensures
            r == (attr_of(*document, self.index as int, "disabled"@) is Some),
    {
        self.has_attribute(document, "disabled")
    }

    /// Set or remove the `disabled` attribute.
    pub fn set_disabled(&self, document: &mut Document, disabled: bool)
        requires
            old(document).wf(),
        ensures
            final(document).wf(),
            disabled ==> set_attr_or_noop(
                *old(document),
                *final(document),
                self.index as int,
                "disabled"@,
                ""@,
            ),
            !disabled ==> remove_attr_or_noop(
                *old(document),
                *final(document),
                self.index as int,
                "disabled"@,
            ),
    {
        if disabled {
            self.set_attribute(document, "disabled", "");
        } else {
            self.remove_attribute(document, "disabled");
        }
    }

    /// The element's `type` attribute.
    pub fn type_attr(&self, document: &Document) -> (r: Option<String>)
        ensures
            (match r {
                Some(v) => attr_of(*document, self.index as int, "type"@) == Some(v@),
                None => attr_of(*document, self.index as int, "type"@) is None,
            }),
    {
        self.get_attribute(document, "type")
    }

    /// Write the element's `type` attribute.
    pub fn set_type(&self, document: &mut Document, value: &str)
        requires
            old(document).wf(),
        ensures
            final(document).wf(),
            set_attr_or_noop(*old(document), *final(document), self.index as int, "type"@, value@),
    {
        self.set_attribute(document, "type", value);
    }

    /// The element's `data-*` attribute under `key`.
    pub fn data(&self, document: &Document, key: &str) -> (r: Option<String>)
        ensures
            (match r {
                Some(v) => attr_of(*document, self.index as int, "data-"@ + key@) == Some(v@),
                None => attr_of(*document, self.index as int, "data-"@ + key@) is None,
            }),
    {
        let mut attr_name = String::from_str("data-");
        attr_name.append(key);
        self.get_attribute(document, attr_name.as_str())
    }

    /// Write the element's `data-*` attribute under `key`.
    pub fn set_data(&self, document: &mut Document, key: &str, value: &str)
        requires
            old(document).wf(),
        ensures
            final(document).wf(),
            set_attr_or_noop(
                *old(document),
                *final(document),
                self.index as int,
                "data-"@ + key@,
                value@,
            ),
    {
        let mut attr_name = String::from_str("data-");
        attr_name.append(key);
        self.set_attribute(document, attr_name.as_str(), value);
    }

    /// All attribute entries of the element, in storage order.
    pub fn attributes(&self, document: &Document) -> (r: Option<Vec<(String, String)>>)
        ensures
            (self.index < document.nodes@.len() && node_is_element(
                document.nodes@[self.index as int],
            )) ==> (r matches Some(m) && m@ == node_attrs(document.nodes@[self.index as int])),
            !(self.index < document.nodes@.len() && node_is_element(
                document.nodes@[self.index as int],
            )) ==> r is None,
    {
        if self.index >= document.nodes.len() {
            return None;
        }
        match &document.nodes[self.index].data {
            Some(NodeData::Element(ed)) => {
                let n = ed.attributes.len();
                let mut out: Vec<(String, String)> = Vec::new();
                let mut i: usize = 0;
                while i < n
                    invariant
                        i <= n,
                        n == ed.attributes@.len(),
                        out@ == ed.attributes@.subrange(0, i as int),
                    decreases n - i,
                {
                    let pair = (ed.attributes[i].0.clone(), ed.attributes[i].1.clone());
                    proof {
                        assert(pair == ed.attributes@[i as int]);
                    }
                    out.push(pair);
                    i = i + 1;
                    assert(out@ =~= ed.attributes@.subrange(0, i as int));
                }
                proof {
                    assert(ed.attributes@.subrange(0, n as int) =~= ed.attributes@);
                }
                Some(out)
            },
            _ => None,
        }
    }

    /// Whether the index names an element node.
    pub fn is_valid(&self, document: &Document) -> (r: bool)
        ensures
            r == (self.index < document.nodes@.len() && document.nodes@[self.index as int].node_type
                == NodeType::Element),
    {
        if self.index >= document.nodes.len() {
            return false;
        }
        document.nodes[self.index].node_type == NodeType::Element
    }
}

} // verus!
