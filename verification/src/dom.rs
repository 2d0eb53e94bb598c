//! The document model: an arena of nodes addressed by index, owned by a
//! single `Document`.
//!
//! Every tree edge points from a node to a strictly larger index, which keeps
//! the arena acyclic and gives every traversal a termination measure; the
//! well-formedness predicate [`Document::wf`] records this together with the
//! agreement between a node's type tag and its payload.

use vstd::prelude::*;
use vstd::string::StringExecFns;

verus! {

#[derive(Debug, PartialEq, Eq, Structural, Clone, Copy)]
pub enum NodeType {
    Document,
    Element,
    Text,
}

#[derive(Debug, PartialEq, Clone)]
pub struct ElementData {
    pub tag_name: String,
    /// Attribute entries in insertion order; a lookup takes the first entry
    /// with a matching key, and writes update that entry in place.
    pub attributes: Vec<(String, String)>,
}

#[derive(Debug, PartialEq, Clone)]
pub enum NodeData {
    Element(ElementData),
    Text(String),
}

#[derive(Debug, PartialEq, Eq, Structural, Clone, Copy)]
pub enum ShadowRootMode {
    Open,
    Closed,
}

#[derive(Debug, PartialEq, Clone)]
pub struct ShadowRoot {
    pub mode: ShadowRootMode,
    pub children: Vec<usize>,
}

#[derive(Debug, PartialEq, Eq, Structural, Clone, Copy)]
pub enum Display {
    Block,
    Inline,
    InlineBlock,
    Flex,
    Grid,
    NoDisplay,
}

impl Default for Display {
    fn default() -> (r: Self)
        ensures
            r == Display::Block,
    {
        Display::Block
    }
}

/// One pixel is `PX` length units: lengths are fixed-point numbers in
/// hundredths of a pixel.
pub const PX: i64 = 100;

/// Per-node geometry written by the layout pass. All lengths are in
/// hundredths of a pixel (see [`PX`]).
#[derive(Debug, PartialEq, Eq, Structural, Clone, Copy)]
pub struct Layout {
    pub x: i64,
    pub y: i64,
    pub width: i64,
    pub height: i64,
    pub content_width: i64,
    pub content_height: i64,
    pub padding_top: i64,
    pub padding_right: i64,
    pub padding_bottom: i64,
    pub padding_left: i64,
    pub margin_top: i64,
    pub margin_right: i64,
    pub margin_bottom: i64,
    pub margin_left: i64,
    pub border_width: i64,
    pub font_size: i64,
    pub display: Display,
}

#[derive(Debug, PartialEq, Clone)]
pub struct Node {
    pub node_type: NodeType,
    pub parent: Option<usize>,
    pub children: Vec<usize>,
    pub data: Option<NodeData>,
    pub shadow_root: Option<ShadowRoot>,
    /// Event-type name to listener indices, first entry with a key wins.
    pub event_listeners: Vec<(String, Vec<usize>)>,
    pub layout: Option<Layout>,
}

#[derive(Debug)]
pub struct Document {
    pub nodes: Vec<Node>,
    pub root: usize,
}

/// Whether the node holds element data.
pub open spec fn node_is_element(n: Node) -> bool {
    n.data matches Some(NodeData::Element(_))
}

/// Whether the node holds text data.
pub open spec fn node_is_text(n: Node) -> bool {
    n.data matches Some(NodeData::Text(_))
}

/// The element's tag name, or the empty sequence for a non-element.
pub open spec fn node_tag(n: Node) -> Seq<char> {
    match n.data {
        Some(NodeData::Element(ed)) => ed.tag_name@,
        _ => Seq::empty(),
    }
}

/// The element's attribute entries, or the empty sequence for a non-element.
pub open spec fn node_attrs(n: Node) -> Seq<(String, String)> {
    match n.data {
        Some(NodeData::Element(ed)) => ed.attributes@,
        _ => Seq::empty(),
    }
}

/// The value under the first entry whose key reads `k`.
pub open spec fn attr_lookup(s: Seq<(String, String)>, k: Seq<char>) -> Option<Seq<char>>
    decreases s.len(),
{
    if s.len() == 0 {
        None
    } else if s[0].0@ == k {
        Some(s[0].1@)
    } else {
        attr_lookup(s.drop_first(), k)
    }
}

/// The listener list under the first entry whose key reads `k`.
pub open spec fn listener_lookup(s: Seq<(String, Vec<usize>)>, k: Seq<char>) -> Option<Seq<usize>>
    decreases s.len(),
{
    if s.len() == 0 {
        None
    } else if s[0].0@ == k {
        Some(s[0].1@)
    } else {
        listener_lookup(s.drop_first(), k)
    }
}

/// The attribute value of node `i` of `d` under key `k`, absent for an
/// out-of-range index, a non-element node, or a key the element lacks.
pub open spec fn attr_of(d: Document, i: int, k: Seq<char>) -> Option<Seq<char>> {
    if 0 <= i < d.nodes@.len() && node_is_element(d.nodes@[i]) {
        attr_lookup(node_attrs(d.nodes@[i]), k)
    } else {
        None
    }
}

/// Structural conditions on one node of the arena: every child and parent
/// link stays inside the arena and child links point strictly forward, and
/// the type tag agrees with the payload.
pub open spec fn node_wf(n: Node, i: int, len: int) -> bool {
    &&& forall|j: int| 0 <= j < n.children@.len() ==> i < #[trigger] n.children@[j] < len
    &&& (n.parent matches Some(p) ==> p < i)
    &&& (n.node_type == NodeType::Document ==> n.data is None)
    &&& (n.node_type == NodeType::Element ==> node_is_element(n))
    &&& (n.node_type == NodeType::Text ==> node_is_text(n))
    &&& (node_is_element(n) ==> n.node_type == NodeType::Element)
    &&& (node_is_text(n) ==> n.node_type == NodeType::Text)
}

/// The two documents hold the same root index and the same node sequence.
pub open spec fn same_doc(a: Document, b: Document) -> bool {
    a.root == b.root && a.nodes@ == b.nodes@
}

/// Everything of `b` but the element data equals `a`, and element data, when
/// present in `a`, is still present with the same tag.
pub open spec fn node_same_but_attrs(a: Node, b: Node) -> bool {
    &&& b.node_type == a.node_type
    &&& b.parent == a.parent
    &&& b.children == a.children
    &&& b.shadow_root == a.shadow_root
    &&& b.event_listeners == a.event_listeners
    &&& b.layout == a.layout
    &&& node_is_element(a) <==> node_is_element(b)
    &&& node_is_text(a) <==> node_is_text(b)
    &&& node_tag(b) == node_tag(a)
}

/// The relation that `Document::set_attribute` establishes between the
/// document before (`d0`) and after (`d1`) the write of `v` under `k` on
/// element `i`: only that element's attribute entries change, and a lookup on
/// them now reads `v` under `k` and is elsewhere as before.
pub open spec fn set_attr_rel(d0: Document, d1: Document, i: int, k: Seq<char>, v: Seq<char>) -> bool {
    &&& d1.root == d0.root
    &&& d1.nodes@.len() == d0.nodes@.len()
    &&& forall|j: int|
        0 <= j < d0.nodes@.len() && j != i ==> #[trigger] d1.nodes@[j] == d0.nodes@[j]
    &&& 0 <= i < d0.nodes@.len()
    &&& node_same_but_attrs(d0.nodes@[i], d1.nodes@[i])
    &&& forall|k2: Seq<char>|
        #[trigger] attr_lookup(node_attrs(d1.nodes@[i]), k2) == if k2 == k {
            Some(v)
        } else {
            attr_lookup(node_attrs(d0.nodes@[i]), k2)
        }
}

/// The relation that `Document::remove_attribute` establishes: only element
/// `i`'s attribute entries change, and a lookup on them is now absent under
/// `k` and elsewhere as before.
pub open spec fn remove_attr_rel(d0: Document, d1: Document, i: int, k: Seq<char>) -> bool {
    &&& d1.root == d0.root
    &&& d1.nodes@.len() == d0.nodes@.len()
    &&& forall|j: int|
        0 <= j < d0.nodes@.len() && j != i ==> #[trigger] d1.nodes@[j] == d0.nodes@[j]
    &&& 0 <= i < d0.nodes@.len()
    &&& node_same_but_attrs(d0.nodes@[i], d1.nodes@[i])
    &&& forall|k2: Seq<char>|
        #[trigger] attr_lookup(node_attrs(d1.nodes@[i]), k2) == if k2 == k {
            None::<Seq<char>>
        } else {
            attr_lookup(node_attrs(d0.nodes@[i]), k2)
        }
}

impl Document {
    /// The arena is rooted at index 0 in a `Document`-typed node and every
    /// node's links are in bounds with children pointing strictly forward.
    pub open spec fn wf(&self) -> bool {
        &&& self.root == 0
        &&& self.nodes@.len() >= 1
        &&& self.nodes@[0].node_type == NodeType::Document
        &&& forall|i: int|
            0 <= i < self.nodes@.len() ==> node_wf(#[trigger] self.nodes@[i], i, self.nodes@.len() as int)
    }

    /// A fresh document holding only the root node.
    pub fn new() -> (d: Document)
        ensures
            d.wf(),
            d.nodes@.len() == 1,
            d.root == 0,
            d.nodes@[0].node_type == NodeType::Document,
            d.nodes@[0].parent is None,
            d.nodes@[0].children@ == Seq::<usize>::empty(),
            d.nodes@[0].data is None,
            d.nodes@[0].shadow_root is None,
            d.nodes@[0].event_listeners@ == Seq::<(String, Vec<usize>)>::empty(),
            d.nodes@[0].layout is None,
    {
        let document_node = Node {
            node_type: NodeType::Document,
            parent: None,
            children: Vec::new(),
            data: None,
            shadow_root: None,
            event_listeners: Vec::new(),
            layout: None,
        };
        let mut nodes: Vec<Node> = Vec::new();
        nodes.push(document_node);
        Document { nodes, root: 0 }
    }

    /// Append a fresh element node with the given tag and no attributes;
    /// returns its index.
    pub fn create_element(&mut self, tag_name: &str) -> (idx: usize)
        requires
            old(self).wf(),
        ensures
            final(self).wf(),
            idx == old(self).nodes@.len(),
            final(self).root == old(self).root,
            final(self).nodes@.len() == old(self).nodes@.len() + 1,
            forall|i: int|
                0 <= i < old(self).nodes@.len() ==> #[trigger] final(self).nodes@[i] == old(
                    self,
                ).nodes@[i],
            final(self).nodes@[idx as int].node_type == NodeType::Element,
            final(self).nodes@[idx as int].parent is None,
            final(self).nodes@[idx as int].children@ == Seq::<usize>::empty(),
            node_is_element(final(self).nodes@[idx as int]),
            node_tag(final(self).nodes@[idx as int]) == tag_name@,
            node_attrs(final(self).nodes@[idx as int]) == Seq::<(String, String)>::empty(),
            final(self).nodes@[idx as int].shadow_root is None,
            final(self).nodes@[idx as int].event_listeners@ == Seq::<(String, Vec<usize>)>::empty(),
            final(self).nodes@[idx as int].layout is None,
    {
        let element_data = ElementData { tag_name: String::from_str(tag_name), attributes: Vec::new() };
        let node = Node {
            node_type: NodeType::Element,
            parent: None,
            children: Vec::new(),
            data: Some(NodeData::Element(element_data)),
            shadow_root: None,
            event_listeners: Vec::new(),
            layout: None,
        };
        let idx = self.nodes.len();
        self.nodes.push(node);
        idx
    }

    /// Append a fresh text node with the given content; returns its index.
    pub fn create_text_node(&mut self, text_content: &str) -> (idx: usize)
        requires
            old(self).wf(),
        ensures
            final(self).wf(),
            idx == old(self).nodes@.len(),
            final(self).root == old(self).root,
            final(self).nodes@.len() == old(self).nodes@.len() + 1,
            forall|i: int|
                0 <= i < old(self).nodes@.len() ==> #[trigger] final(self).nodes@[i] == old(
                    self,
                ).nodes@[i],
            final(self).nodes@[idx as int].node_type == NodeType::Text,
            final(self).nodes@[idx as int].parent is None,
            final(self).nodes@[idx as int].children@ == Seq::<usize>::empty(),
            (final(self).nodes@[idx as int].data matches Some(NodeData::Text(t)) && t@
                == text_content@),
            final(self).nodes@[idx as int].shadow_root is None,
            final(self).nodes@[idx as int].event_listeners@ == Seq::<(String, Vec<usize>)>::empty(),
            final(self).nodes@[idx as int].layout is None,
    {
        let node = Node {
            node_type: NodeType::Text,
            parent: None,
            children: Vec::new(),
            data: Some(NodeData::Text(String::from_str(text_content))),
            shadow_root: None,
            event_listeners: Vec::new(),
            layout: None,
        };
        let idx = self.nodes.len();
        self.nodes.push(node);
        idx
    }

    /// Register `child_idx` as the last child of `parent_idx` and point the
    /// child's parent link back. The child must be the younger node, which
    /// keeps the arena free of cycles; the engine does not check more.
    pub fn append_child(&mut self, parent_idx: usize, child_idx: usize)
        requires
            old(self).wf(),
            parent_idx < old(self).nodes@.len(),
            child_idx < old(self).nodes@.len(),
            parent_idx < child_idx,
        ensures
            final(self).wf(),
            final(self).root == old(self).root,
            final(self).nodes@.len() == old(self).nodes@.len(),
            forall|i: int|
                0 <= i < old(self).nodes@.len() && i != parent_idx && i != child_idx
                    ==> #[trigger] final(self).nodes@[i] == old(self).nodes@[i],
            final(self).nodes@[parent_idx as int] == (Node {
                children: final(self).nodes@[parent_idx as int].children,
                ..old(self).nodes@[parent_idx as int]
            }),
            final(self).nodes@[parent_idx as int].children@ == old(
                self,
            ).nodes@[parent_idx as int].children@.push(child_idx),
            final(self).nodes@[child_idx as int] == (Node {
                parent: Some(parent_idx),
                ..old(self).nodes@[child_idx as int]
            }),
    {
        self.nodes[parent_idx].children.push(child_idx);
        self.nodes[child_idx].parent = Some(parent_idx);
        assert forall|i: int|
            0 <= i < final(self).nodes@.len() implies node_wf(
            #[trigger] final(self).nodes@[i],
            i,
            final(self).nodes@.len() as int,
        ) by {
            let n_old = old(self).nodes@[i];
            let n_new = final(self).nodes@[i];
            if i == parent_idx {
                assert(n_new.children@ == n_old.children@.push(child_idx));
                assert forall|j: int| 0 <= j < n_new.children@.len() implies i
                    < #[trigger] n_new.children@[j] < final(self).nodes@.len() by {
                    if j < n_old.children@.len() {
                        assert(n_new.children@[j] == n_old.children@[j]);
                    } else {
                        assert(n_new.children@[j] == child_idx);
                    }
                }
            }
        }
    }

    /// A reference to node `idx`, absent for an out-of-range index.
    pub fn get_node(&self, idx: usize) -> (r: Option<&Node>)
        ensures
            idx < self.nodes@.len() ==> (r matches Some(n) && *n == self.nodes@[idx as int]),
            idx >= self.nodes@.len() ==> r is None,
    {
        if idx < self.nodes.len() {
            Some(&self.nodes[idx])
        } else {
            None
        }
    }

    /// Write attribute `name` of element `element_idx` to `value`, replacing
    /// an earlier value; silently a no-op when the index does not name an
    /// element.
    pub fn set_attribute(&mut self, element_idx: usize, name: &str, value: &str)
        requires
            old(self).wf(),
        ensures
            final(self).wf(),
            (element_idx < old(self).nodes@.len() && node_is_element(
                old(self).nodes@[element_idx as int],
            )) ==> set_attr_rel(*old(self), *final(self), element_idx as int, name@, value@),
            !(element_idx < old(self).nodes@.len() && node_is_element(
                old(self).nodes@[element_idx as int],
            )) ==> same_doc(*old(self), *final(self)),
    {
        if element_idx >= self.nodes.len() {
            return ;
        }
        let key = String::from_str(name);
        let val = String::from_str(value);
        let probe: Option<Option<usize>> = match &self.nodes[element_idx].data {
            Some(NodeData::Element(ed)) => Some(attr_index(&ed.attributes, &key)),
            _ => None,
        };
        match probe {
            None => {},
            Some(found) => {
                let ghost d0 = *self;
                let node = &mut self.nodes[element_idx];
                match &mut node.data {
                    Some(NodeData::Element(ed)) => {
                        let ghost before = ed.attributes@;
                        match found {
                            Some(i) => {
                                ed.attributes[i] = (key, val);
                                proof {
                                    lemma_attr_lookup_update(
                                        before,
                                        ed.attributes@,
                                        i as int,
                                        name@,
                                        value@,
                                    );
                                }
                            },
                            None => {
                                ed.attributes.push((key, val));
                                proof {
                                    lemma_attr_lookup_append(before, ed.attributes@, name@, value@);
                                }
                            },
                        }
                    },
                    _ => {
                        proof {
                            assert(false);
                        }
                    },
                }
                proof {
                    let i = element_idx as int;
                    let len = final(self).nodes@.len() as int;
                    assert forall|j: int| 0 <= j < len implies node_wf(
                        #[trigger] final(self).nodes@[j],
                        j,
                        len,
                    ) by {
                        assert(node_wf(d0.nodes@[j], j, len));
                        if j != i {
                            assert(final(self).nodes@[j] == d0.nodes@[j]);
                        }
                    }
                }
            },
        }
    }

    /// Read attribute `name` of element `element_idx`; absent for a missing
    /// attribute, a non-element node, or an out-of-range index.
    pub fn get_attribute(&self, element_idx: usize, name: &str) -> (r: Option<&String>)
        ensures
            match r {
                Some(v) => attr_of(*self, element_idx as int, name@) == Some(v@),
                None => attr_of(*self, element_idx as int, name@) is None,
            },
    {
        if element_idx >= self.nodes.len() {
            return None;
        }
        let key = String::from_str(name);
        match &self.nodes[element_idx].data {
            Some(NodeData::Element(ed)) => {
                match attr_index(&ed.attributes, &key) {
                    Some(i) => {
                        proof {
                            lemma_attr_lookup_found(ed.attributes@, i as int, name@);
                        }
                        Some(&ed.attributes[i].1)
                    },
                    None => {
                        proof {
                            lemma_attr_lookup_missing(ed.attributes@, name@);
                        }
                        None
                    },
                }
            },
            _ => None,
        }
    }

    /// Drop attribute `name` of element `element_idx`; silently a no-op when
    /// the index does not name an element.
    pub fn remove_attribute(&mut self, element_idx: usize, name: &str)
        requires
            old(self).wf(),
        ensures
            final(self).wf(),
            (element_idx < old(self).nodes@.len() && node_is_element(
                old(self).nodes@[element_idx as int],
            )) ==> remove_attr_rel(*old(self), *final(self), element_idx as int, name@),
            !(element_idx < old(self).nodes@.len() && node_is_element(
                old(self).nodes@[element_idx as int],
            )) ==> same_doc(*old(self), *final(self)),
    {
        if element_idx >= self.nodes.len() {
            return ;
        }
        let key = String::from_str(name);
        let kept: Option<Vec<(String, String)>> = match &self.nodes[element_idx].data {
            Some(NodeData::Element(ed)) => Some(attrs_without(&ed.attributes, &key)),
            _ => None,
        };
        match kept {
            None => {},
            Some(out) => {
                let ghost d0 = *self;
                let ghost out_view = out@;
                let node = &mut self.nodes[element_idx];
                match &mut node.data {
                    Some(NodeData::Element(ed)) => {
                        let ghost before = ed.attributes@;
                        ed.attributes = out;
                        proof {
                            assert forall|k2: Seq<char>|
                                #[trigger] attr_lookup(ed.attributes@, k2) == (if k2 == name@ {
                                    None::<Seq<char>>
                                } else {
                                    attr_lookup(before, k2)
                                }) by {
                                lemma_attr_lookup_remove(before, name@, k2);
                            }
                        }
                    },
                    _ => {
                        proof {
                            assert(false);
                        }
                    },
                }
                proof {
                    let i = element_idx as int;
                    let len = final(self).nodes@.len() as int;
                    assert forall|j: int| 0 <= j < len implies node_wf(
                        #[trigger] final(self).nodes@[j],
                        j,
                        len,
                    ) by {
                        assert(node_wf(d0.nodes@[j], j, len));
                        if j != i {
                            assert(final(self).nodes@[j] == d0.nodes@[j]);
                        }
                    }
                }
            },
        }
    }

    /// Attach a shadow root to element `host_idx`, failing when the host
    /// already has one, is not an element, or is out of range; on success the
    /// host's index is returned.
    pub fn attach_shadow(&mut self, host_idx: usize, mode: ShadowRootMode) -> (r: Result<
        usize,
        &'static str,
    >)
        requires
            old(self).wf(),
        ensures
            final(self).wf(),
            final(self).root == old(self).root,
            final(self).nodes@.len() == old(self).nodes@.len(),
            host_idx >= old(self).nodes@.len() ==> (r matches Err(m) && m@
                == "Host node not found."@ && *final(self) == *old(self)),
            host_idx < old(self).nodes@.len() && old(self).nodes@[host_idx as int].node_type
                != NodeType::Element ==> (r matches Err(m) && m@
                == "Cannot attach shadow root to a non-element node."@ && *final(self) == *old(
                self,
            )),
            host_idx < old(self).nodes@.len() && old(self).nodes@[host_idx as int].node_type
                == NodeType::Element && (old(self).nodes@[host_idx as int].shadow_root is Some) ==> (
            r matches Err(m) && m@ == "Shadow root already exists for this host."@ && *final(self)
                == *old(self)),
            host_idx < old(self).nodes@.len() && old(self).nodes@[host_idx as int].node_type
                == NodeType::Element && (old(self).nodes@[host_idx as int].shadow_root is None) ==> {
                &&& r == Ok::<usize, &'static str>(host_idx)
                &&& final(self).nodes@[host_idx as int] == (Node {
                    shadow_root: final(self).nodes@[host_idx as int].shadow_root,
                    ..old(self).nodes@[host_idx as int]
                })
                &&& (final(self).nodes@[host_idx as int].shadow_root matches Some(sr) && sr.mode
                    == mode && sr.children@ == Seq::<usize>::empty())
                &&& forall|i: int|
                    0 <= i < old(self).nodes@.len() && i != host_idx
                        ==> #[trigger] final(self).nodes@[i] == old(self).nodes@[i]
            },
    {
        if host_idx >= self.nodes.len() {
            return Err("Host node not found.");
        }
        let is_element = self.nodes[host_idx].node_type == NodeType::Element;
        if !is_element {
            return Err("Cannot attach shadow root to a non-element node.");
        }
        if self.nodes[host_idx].shadow_root.is_some() {
            return Err("Shadow root already exists for this host.");
        }
        let shadow_root = ShadowRoot { mode, children: Vec::new() };
        self.nodes[host_idx].shadow_root = Some(shadow_root);
        Ok(host_idx)
    }

    /// Record listener `listener_idx` for events named `event_type` on node
    /// `node_idx`; silently a no-op for an out-of-range index.
    pub fn add_event_listener(&mut self, node_idx: usize, event_type: &str, listener_idx: usize)
        requires
            old(self).wf(),
        ensures
            final(self).wf(),
            node_idx >= old(self).nodes@.len() ==> same_doc(*old(self), *final(self)),
            node_idx < old(self).nodes@.len() ==> {
                &&& final(self).root == old(self).root
                &&& final(self).nodes@.len() == old(self).nodes@.len()
                &&& forall|i: int|
                    0 <= i < old(self).nodes@.len() && i != node_idx
                        ==> #[trigger] final(self).nodes@[i] == old(self).nodes@[i]
                &&& final(self).nodes@[node_idx as int] == (Node {
                    event_listeners: final(self).nodes@[node_idx as int].event_listeners,
                    ..old(self).nodes@[node_idx as int]
                })
                &&& listener_lookup(final(self).nodes@[node_idx as int].event_listeners@, event_type@)
                    == Some(
                    match listener_lookup(
                        old(self).nodes@[node_idx as int].event_listeners@,
                        event_type@,
                    ) {
                        Some(l) => l.push(listener_idx),
                        None => seq![listener_idx],
                    },
                )
                &&& forall|k2: Seq<char>|
                    k2 != event_type@ ==> #[trigger] listener_lookup(
                        final(self).nodes@[node_idx as int].event_listeners@,
                        k2,
                    ) == listener_lookup(old(self).nodes@[node_idx as int].event_listeners@, k2)
            },
    {
        if node_idx >= self.nodes.len() {
            return ;
        }
        let key = String::from_str(event_type);
        let found = listener_index(&self.nodes[node_idx].event_listeners, &key);
        let ghost d0 = *self;
        let node = &mut self.nodes[node_idx];
        let ghost before = node.event_listeners@;
        match found {
            Some(i) => {
                node.event_listeners[i].1.push(listener_idx);
                proof {
                    lemma_listener_lookup_update(
                        before,
                        node.event_listeners@,
                        i as int,
                        event_type@,
                        listener_idx,
                    );
                }
            },
            None => {
                let mut listeners: Vec<usize> = Vec::new();
                listeners.push(listener_idx);
                node.event_listeners.push((key, listeners));
                proof {
                    lemma_listener_lookup_append(
                        before,
                        node.event_listeners@,
                        event_type@,
                        listener_idx,
                    );
                }
            },
        }
        proof {
            let len = final(self).nodes@.len() as int;
            assert forall|j: int| 0 <= j < len implies node_wf(
                #[trigger] final(self).nodes@[j],
                j,
                len,
            ) by {
                assert(node_wf(d0.nodes@[j], j, len));
                if j != node_idx {
                    assert(final(self).nodes@[j] == d0.nodes@[j]);
                }
            }
        }
    }

    /// The nodes on the propagation path from `target_idx` up to the root, in
    /// order, that hold at least one listener for `event_type`; the caller
    /// delivers the event to them.
    pub fn dispatch_event(&self, target_idx: usize, event_type: &str) -> (r: Vec<usize>)
        requires
            self.wf(),
        ensures
            r@ == dispatch_path(*self, target_idx as int, event_type@),
    {
        let mut r: Vec<usize> = Vec::new();
        if target_idx < self.nodes.len() {
            let key = String::from_str(event_type);
            self.dispatch_collect(target_idx, &key, &mut r);
            proof {
                assert(Seq::<usize>::empty() + dispatch_path(*self, target_idx as int, event_type@)
                    =~= dispatch_path(*self, target_idx as int, event_type@));
            }
        }
        r
    }

    /// Push onto `out`, in walking order, the nodes from `idx` up to the root
    /// that hold a listener entry for `key`.
    fn dispatch_collect(&self, idx: usize, key: &String, out: &mut Vec<usize>)
        requires
            self.wf(),
            idx < self.nodes@.len(),
        ensures
            final(out)@ == old(out)@ + dispatch_path(*self, idx as int, key@),
        decreases idx,
    {
        proof {
            assert(node_wf(self.nodes@[idx as int], idx as int, self.nodes@.len() as int));
        }
        let node = &self.nodes[idx];
        let has = has_listener(node, key);
        if has {
            out.push(idx);
        }
        let ghost here: Seq<usize> = if has {
            seq![idx]
        } else {
            Seq::empty()
        };
        match node.parent {
            Some(p) => {
                self.dispatch_collect(p, key, out);
                proof {
                    assert(dispatch_path(*self, idx as int, key@) == here + dispatch_path(
                        *self,
                        p as int,
                        key@,
                    ));
                    assert(final(out)@ =~= old(out)@ + (here + dispatch_path(
                        *self,
                        p as int,
                        key@,
                    )));
                }
            },
            None => {
                proof {
                    assert(dispatch_path(*self, idx as int, key@) == here);
                    assert(final(out)@ =~= old(out)@ + here);
                }
            },
        }
    }
}

/// The first index of an attribute entry whose key reads as `key`.
pub(crate) fn attr_index(attrs: &Vec<(String, String)>, key: &String) -> (r: Option<usize>)
    ensures
        match r {
            Some(i) => i < attrs@.len() && attrs@[i as int].0@ == key@ && (forall|j: int|
                0 <= j < i ==> #[trigger] attrs@[j].0@ != key@),
            None => forall|j: int| 0 <= j < attrs@.len() ==> #[trigger] attrs@[j].0@ != key@,
        },
{
    let n = attrs.len();
    let mut i: usize = 0;
    while i < n
        invariant
            n == attrs@.len(),
            i <= n,
            forall|j: int| 0 <= j < i ==> #[trigger] attrs@[j].0@ != key@,
        decreases n - i,
    {
        if attrs[i].0 == *key {
            return Some(i);
        }
        i = i + 1;
    }
    None
}

/// The first index of a listener entry whose key reads as `key`.
fn listener_index(listeners: &Vec<(String, Vec<usize>)>, key: &String) -> (r: Option<usize>)
    ensures
        match r {
            Some(i) => i < listeners@.len() && listeners@[i as int].0@ == key@ && (forall|j: int|
                0 <= j < i ==> #[trigger] listeners@[j].0@ != key@),
            None => forall|j: int| 0 <= j < listeners@.len() ==> #[trigger] listeners@[j].0@ != key@,
        },
{
    let n = listeners.len();
    let mut i: usize = 0;
    while i < n
        invariant
            n == listeners@.len(),
            i <= n,
            forall|j: int| 0 <= j < i ==> #[trigger] listeners@[j].0@ != key@,
        decreases n - i,
    {
        if listeners[i].0 == *key {
            return Some(i);
        }
        i = i + 1;
    }
    None
}

/// The attribute entries with every entry under key `k` dropped.
pub open spec fn remove_entries(s: Seq<(String, String)>, k: Seq<char>) -> Seq<(String, String)>
    decreases s.len(),
{
    if s.len() == 0 {
        Seq::empty()
    } else if s[0].0@ == k {
        remove_entries(s.drop_first(), k)
    } else {
        seq![s[0]] + remove_entries(s.drop_first(), k)
    }
}

proof fn lemma_remove_entries_push(s: Seq<(String, String)>, p: (String, String), k: Seq<char>)
    ensures
        remove_entries(s.push(p), k) == remove_entries(s, k) + (if p.0@ == k {
            Seq::<(String, String)>::empty()
        } else {
            seq![p]
        }),
    decreases s.len(),
{
    let tailpart: Seq<(String, String)> = if p.0@ == k {
        Seq::empty()
    } else {
        seq![p]
    };
    if s.len() == 0 {
        assert(s.push(p)[0] == p);
        assert(s.push(p).drop_first() =~= Seq::<(String, String)>::empty());
        assert(remove_entries(Seq::<(String, String)>::empty(), k) == Seq::<(
            String,
            String,
        )>::empty());
        assert(remove_entries(s.push(p).drop_first(), k) == Seq::<(String, String)>::empty());
        if p.0@ == k {
            assert(remove_entries(s.push(p), k) =~= remove_entries(s, k) + tailpart);
        } else {
            assert(remove_entries(s.push(p), k) == seq![p] + Seq::<(String, String)>::empty());
            assert(remove_entries(s.push(p), k) =~= remove_entries(s, k) + tailpart);
        }
    } else {
        assert(s.push(p)[0] == s[0]);
        assert(s.push(p).drop_first() =~= s.drop_first().push(p));
        lemma_remove_entries_push(s.drop_first(), p, k);
        if s[0].0@ == k {
        } else {
            assert(seq![s[0]] + (remove_entries(s.drop_first(), k) + tailpart) =~= (seq![s[0]]
                + remove_entries(s.drop_first(), k)) + tailpart);
        }
    }
}

proof fn lemma_attr_lookup_remove(s: Seq<(String, String)>, k: Seq<char>, k2: Seq<char>)
    ensures
        attr_lookup(remove_entries(s, k), k2) == (if k2 == k {
            None::<Seq<char>>
        } else {
            attr_lookup(s, k2)
        }),
    decreases s.len(),
{
    if s.len() == 0 {
    } else {
        lemma_attr_lookup_remove(s.drop_first(), k, k2);
        if s[0].0@ == k {
        } else {
            let r = seq![s[0]] + remove_entries(s.drop_first(), k);
            assert(r[0] == s[0]);
            assert(r.drop_first() =~= remove_entries(s.drop_first(), k));
        }
    }
}

/// The attribute entries with every entry under `key` dropped, each kept
/// entry cloned.
fn attrs_without(attrs: &Vec<(String, String)>, key: &String) -> (out: Vec<(String, String)>)
    ensures
        out@ == remove_entries(attrs@, key@),
{
    let mut out: Vec<(String, String)> = Vec::new();
    let n = attrs.len();
    let mut i: usize = 0;
    proof {
        assert(attrs@.subrange(0, 0) =~= Seq::<(String, String)>::empty());
    }
    while i < n
        invariant
            n == attrs@.len(),
            i <= n,
            out@ == remove_entries(attrs@.subrange(0, i as int), key@),
        decreases n - i,
    {
        proof {
            assert(attrs@.subrange(0, i + 1) =~= attrs@.subrange(0, i as int).push(
                attrs@[i as int],
            ));
            lemma_remove_entries_push(attrs@.subrange(0, i as int), attrs@[i as int], key@);
        }
        if !(attrs[i].0 == *key) {
            let pair = (attrs[i].0.clone(), attrs[i].1.clone());
            proof {
                assert(pair == attrs@[i as int]);
            }
            out.push(pair);
            proof {
                assert(out@ =~= remove_entries(attrs@.subrange(0, i + 1), key@));
            }
        } else {
            proof {
                assert(out@ =~= remove_entries(attrs@.subrange(0, i + 1), key@));
            }
        }
        i = i + 1;
    }
    proof {
        assert(attrs@.subrange(0, n as int) =~= attrs@);
    }
    out
}

/// Whether node `n` holds a listener entry whose key reads as `key`.
fn has_listener(n: &Node, key: &String) -> (r: bool)
    ensures
        r == (listener_lookup(n.event_listeners@, key@) is Some),
{
    match listener_index(&n.event_listeners, key) {
        Some(i) => {
            proof {
                lemma_listener_lookup_found(n.event_listeners@, i as int, key@);
            }
            true
        },
        None => {
            proof {
                lemma_listener_lookup_missing(n.event_listeners@, key@);
            }
            false
        },
    }
}

/// The value under `key` in an attribute entry list.
pub(crate) fn alist_get<'a>(attrs: &'a Vec<(String, String)>, key: &String) -> (r: Option<
    &'a String,
>)
    ensures
        (match r {
            Some(v) => attr_lookup(attrs@, key@) == Some(v@),
            None => attr_lookup(attrs@, key@) is None,
        }),
{
    match attr_index(attrs, key) {
        Some(i) => {
            proof {
                lemma_attr_lookup_found(attrs@, i as int, key@);
            }
            Some(&attrs[i].1)
        },
        None => {
            proof {
                lemma_attr_lookup_missing(attrs@, key@);
            }
            None
        },
    }
}

/// The node indices with a listener for `ev` on the parent chain starting at
/// `i` (inclusive), in walking order.
pub open spec fn dispatch_path(d: Document, i: int, ev: Seq<char>) -> Seq<usize>
    decreases i + 1 when d.wf() via dispatch_path_via
{
    if 0 <= i < d.nodes@.len() {
        let here: Seq<usize> = if listener_lookup(d.nodes@[i].event_listeners@, ev) is Some {
            seq![i as usize]
        } else {
            Seq::empty()
        };
        match d.nodes@[i].parent {
            Some(p) => here + dispatch_path(d, p as int, ev),
            None => here,
        }
    } else {
        Seq::empty()
    }
}

#[via_fn]
proof fn dispatch_path_via(d: Document, i: int, ev: Seq<char>) {
    if d.wf() && 0 <= i < d.nodes@.len() {
        assert(node_wf(d.nodes@[i], i, d.nodes@.len() as int));
    }
}


pub(crate) proof fn lemma_attr_lookup_found(s: Seq<(String, String)>, i: int, k: Seq<char>)
    requires
        0 <= i < s.len(),
        s[i].0@ == k,
        forall|j: int| 0 <= j < i ==> #[trigger] s[j].0@ != k,
    ensures
        attr_lookup(s, k) == Some(s[i].1@),
    decreases i,
{
    if i > 0 {
        let t = s.drop_first();
        lemma_attr_lookup_found(t, i - 1, k);
    }
}

pub(crate) proof fn lemma_attr_lookup_missing(s: Seq<(String, String)>, k: Seq<char>)
    requires
        forall|j: int| 0 <= j < s.len() ==> #[trigger] s[j].0@ != k,
    ensures
        attr_lookup(s, k) is None,
    decreases s.len(),
{
    if s.len() > 0 {
        lemma_attr_lookup_missing(s.drop_first(), k);
    }
}

pub(crate) proof fn lemma_attr_lookup_update(
    s0: Seq<(String, String)>,
    s1: Seq<(String, String)>,
    i: int,
    k: Seq<char>,
    v: Seq<char>,
)
    requires
        0 <= i < s0.len(),
        s1.len() == s0.len(),
        forall|j: int| 0 <= j < s0.len() && j != i ==> #[trigger] s1[j] == s0[j],
        forall|j: int| 0 <= j < i ==> #[trigger] s0[j].0@ != k,
        s0[i].0@ == k,
        s1[i].0@ == k,
        s1[i].1@ == v,
    ensures
        forall|k2: Seq<char>|
            #[trigger] attr_lookup(s1, k2) == if k2 == k {
                Some(v)
            } else {
                attr_lookup(s0, k2)
            },
    decreases i,
{
    if i == 0 {
        assert forall|k2: Seq<char>|
            #[trigger] attr_lookup(s1, k2) == if k2 == k {
                Some(v)
            } else {
                attr_lookup(s0, k2)
            } by {
            if k2 == k {
            } else {
                assert(s1.drop_first() =~= s0.drop_first());
            }
        }
    } else {
        lemma_attr_lookup_update(s0.drop_first(), s1.drop_first(), i - 1, k, v);
        assert forall|k2: Seq<char>|
            #[trigger] attr_lookup(s1, k2) == if k2 == k {
                Some(v)
            } else {
                attr_lookup(s0, k2)
            } by {
            assert(s1[0] == s0[0]);
            assert(s0[0].0@ != k);
            assert(attr_lookup(s1.drop_first(), k2) == if k2 == k {
                Some(v)
            } else {
                attr_lookup(s0.drop_first(), k2)
            });
        }
    }
}

pub(crate) proof fn lemma_attr_lookup_append(
    s0: Seq<(String, String)>,
    s1: Seq<(String, String)>,
    k: Seq<char>,
    v: Seq<char>,
)
    requires
        s1.len() == s0.len() + 1,
        forall|j: int| 0 <= j < s0.len() ==> #[trigger] s1[j] == s0[j],
        forall|j: int| 0 <= j < s0.len() ==> #[trigger] s0[j].0@ != k,
        s1[s0.len() as int].0@ == k,
        s1[s0.len() as int].1@ == v,
    ensures
        forall|k2: Seq<char>|
            #[trigger] attr_lookup(s1, k2) == if k2 == k {
                Some(v)
            } else {
                attr_lookup(s0, k2)
            },
    decreases s0.len(),
{
    if s0.len() == 0 {
        assert forall|k2: Seq<char>|
            #[trigger] attr_lookup(s1, k2) == if k2 == k {
                Some(v)
            } else {
                attr_lookup(s0, k2)
            } by {
            if k2 != k {
                assert(attr_lookup(s1.drop_first(), k2) is None);
            }
        }
    } else {
        lemma_attr_lookup_append(s0.drop_first(), s1.drop_first(), k, v);
        assert forall|k2: Seq<char>|
            #[trigger] attr_lookup(s1, k2) == if k2 == k {
                Some(v)
            } else {
                attr_lookup(s0, k2)
            } by {
            assert(s1[0] == s0[0]);
            assert(s0[0].0@ != k);
            assert(attr_lookup(s1.drop_first(), k2) == if k2 == k {
                Some(v)
            } else {
                attr_lookup(s0.drop_first(), k2)
            });
        }
    }
}

proof fn lemma_listener_lookup_found(s: Seq<(String, Vec<usize>)>, i: int, k: Seq<char>)
    requires
        0 <= i < s.len(),
        s[i].0@ == k,
        forall|j: int| 0 <= j < i ==> #[trigger] s[j].0@ != k,
    ensures
        listener_lookup(s, k) == Some(s[i].1@),
    decreases i,
{
    if i > 0 {
        lemma_listener_lookup_found(s.drop_first(), i - 1, k);
    }
}

proof fn lemma_listener_lookup_missing(s: Seq<(String, Vec<usize>)>, k: Seq<char>)
    requires
        forall|j: int| 0 <= j < s.len() ==> #[trigger] s[j].0@ != k,
    ensures
        listener_lookup(s, k) is None,
    decreases s.len(),
{
    if s.len() > 0 {
        lemma_listener_lookup_missing(s.drop_first(), k);
    }
}

proof fn lemma_listener_lookup_update(
    s0: Seq<(String, Vec<usize>)>,
    s1: Seq<(String, Vec<usize>)>,
    i: int,
    k: Seq<char>,
    x: usize,
)
    requires
        0 <= i < s0.len(),
        s1.len() == s0.len(),
        forall|j: int| 0 <= j < s0.len() && j != i ==> #[trigger] s1[j] == s0[j],
        forall|j: int| 0 <= j < i ==> #[trigger] s0[j].0@ != k,
        s0[i].0@ == k,
        s1[i].0@ == k,
        s1[i].1@ == s0[i].1@.push(x),
    ensures
        listener_lookup(s1, k) == Some(listener_lookup(s0, k)->0.push(x)),
        listener_lookup(s0, k) is Some,
        forall|k2: Seq<char>|
            k2 != k ==> #[trigger] listener_lookup(s1, k2) == listener_lookup(s0, k2),
    decreases i,
{
    lemma_listener_lookup_found(s0, i, k);
    lemma_listener_lookup_found(s1, i, k);
    assert forall|k2: Seq<char>| k2 != k implies #[trigger] listener_lookup(s1, k2)
        == listener_lookup(s0, k2) by {
        lemma_listener_lookup_frame(s0, s1, i, k2);
    }
}

proof fn lemma_listener_lookup_frame(
    s0: Seq<(String, Vec<usize>)>,
    s1: Seq<(String, Vec<usize>)>,
    i: int,
    k2: Seq<char>,
)
    requires
        0 <= i < s0.len(),
        s1.len() == s0.len(),
        forall|j: int| 0 <= j < s0.len() && j != i ==> #[trigger] s1[j] == s0[j],
        s0[i].0@ != k2,
        s1[i].0@ != k2,
    ensures
        listener_lookup(s1, k2) == listener_lookup(s0, k2),
    decreases i,
{
    if i == 0 {
        assert(s1.drop_first() =~= s0.drop_first());
    } else {
        assert(s1[0] == s0[0]);
        lemma_listener_lookup_frame(s0.drop_first(), s1.drop_first(), i - 1, k2);
    }
}

proof fn lemma_listener_lookup_append(
    s0: Seq<(String, Vec<usize>)>,
    s1: Seq<(String, Vec<usize>)>,
    k: Seq<char>,
    x: usize,
)
    requires
        s1.len() == s0.len() + 1,
        forall|j: int| 0 <= j < s0.len() ==> #[trigger] s1[j] == s0[j],
        forall|j: int| 0 <= j < s0.len() ==> #[trigger] s0[j].0@ != k,
        s1[s0.len() as int].0@ == k,
        s1[s0.len() as int].1@ == seq![x],
    ensures
        listener_lookup(s1, k) == Some(seq![x]),
        listener_lookup(s0, k) is None,
        forall|k2: Seq<char>|
            k2 != k ==> #[trigger] listener_lookup(s1, k2) == listener_lookup(s0, k2),
    decreases s0.len(),
{
    lemma_listener_lookup_found(s1, s0.len() as int, k);
    lemma_listener_lookup_missing(s0, k);
    assert forall|k2: Seq<char>| k2 != k implies #[trigger] listener_lookup(s1, k2)
        == listener_lookup(s0, k2) by {
        lemma_listener_lookup_drop_last(s0, s1, k2, k);
    }
}

proof fn lemma_listener_lookup_drop_last(
    s0: Seq<(String, Vec<usize>)>,
    s1: Seq<(String, Vec<usize>)>,
    k2: Seq<char>,
    k: Seq<char>,
)
    requires
        s1.len() == s0.len() + 1,
        forall|j: int| 0 <= j < s0.len() ==> #[trigger] s1[j] == s0[j],
        s1[s0.len() as int].0@ == k,
        k2 != k,
    ensures
        listener_lookup(s1, k2) == listener_lookup(s0, k2),
    decreases s0.len(),
{
    if s0.len() == 0 {
    } else {
        assert(s1[0] == s0[0]);
        lemma_listener_lookup_drop_last(s0.drop_first(), s1.drop_first(), k2, k);
    }
}

/// For all valid element indices, a read of an attribute right after a write
/// of it returns the written value, and a read of any other key is as before
/// the write: the round trip of `set_attribute` then `get_attribute`.
pub proof fn lemma_attribute_round_trip(
    d0: Document,
    d1: Document,
    i: int,
    k: Seq<char>,
    v: Seq<char>,
)
    requires
        set_attr_rel(d0, d1, i, k, v),
    ensures
        attr_of(d1, i, k) == Some(v),
        forall|k2: Seq<char>| k2 != k ==> #[trigger] attr_of(d1, i, k2) == attr_of(d0, i, k2),
        forall|j: int, k2: Seq<char>|
            0 <= j < d0.nodes@.len() && j != i ==> #[trigger] attr_of(d1, j, k2) == attr_of(
                d0,
                j,
                k2,
            ),
{
    assert(node_is_element(d1.nodes@[i]));
}

/// After a removal of an attribute the element no longer has it: the round
/// trip of `remove_attribute` then `get_attribute`, on which `has_attribute`
/// rests.
pub proof fn lemma_attribute_remove_round_trip(d0: Document, d1: Document, i: int, k: Seq<char>)
    requires
        remove_attr_rel(d0, d1, i, k),
    ensures
        attr_of(d1, i, k) is None,
        forall|k2: Seq<char>| k2 != k ==> #[trigger] attr_of(d1, i, k2) == attr_of(d0, i, k2),
{
    assert(node_is_element(d1.nodes@[i]) == node_is_element(d0.nodes@[i]));
}

} // verus!
