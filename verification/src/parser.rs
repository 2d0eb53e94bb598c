//! The markup parser: a single left-to-right character scan with no
//! backtracking, whose only state is the current insertion parent.
//!
//! The scan is specified by the machine [`parse_rec`]: it says, for the
//! input characters, exactly which tree of elements and text runs the parser
//! builds, and [`parse_rel`] carries the correspondence between that machine
//! and the `Document` under construction.

use vstd::prelude::*;
use crate::dom::{
    attr_lookup, node_attrs, node_is_element, node_tag, Document, NodeData, NodeType,
};
use crate::text::{
    alphanumeric, char_is_alphanumeric, char_is_whitespace, chars_eq, chars_to_string, pairs_map,
    str_to_chars, trim_chars, trim_spec, white_space,
};

verus! {

/// Whether `c` may appear in a tag name: alphanumeric, `-`, `_` or `:`.
pub open spec fn tag_char(c: char) -> bool {
    alphanumeric(c) || c == '-' || c == '_' || c == ':'
}

/// Whether `c` may appear in an attribute name: alphanumeric or `-`.
pub open spec fn attr_char(c: char) -> bool {
    alphanumeric(c) || c == '-'
}

/// Whether `c` ends an unquoted attribute value: whitespace or `>`.
pub open spec fn value_stop(c: char) -> bool {
    white_space(c) || c == '>'
}

/// The end of the tag-name run starting at `i`.
pub open spec fn tag_name_end(s: Seq<char>, i: int) -> int
    decreases s.len() - i
        when 0 <= i <= s.len()
{
    if i < s.len() && tag_char(s[i]) {
        tag_name_end(s, i + 1)
    } else {
        i
    }
}

/// The end of the attribute-name run starting at `i`.
pub open spec fn attr_name_end(s: Seq<char>, i: int) -> int
    decreases s.len() - i
        when 0 <= i <= s.len()
{
    if i < s.len() && attr_char(s[i]) {
        attr_name_end(s, i + 1)
    } else {
        i
    }
}

/// The first position at or after `i` holding `c`, or the end of the input.
pub open spec fn scan_until(s: Seq<char>, i: int, c: char) -> int
    decreases s.len() - i
        when 0 <= i <= s.len()
{
    if i < s.len() && s[i] != c {
        scan_until(s, i + 1, c)
    } else {
        i
    }
}

/// The end of the unquoted-value run starting at `i`.
pub open spec fn value_end(s: Seq<char>, i: int) -> int
    decreases s.len() - i
        when 0 <= i <= s.len()
{
    if i < s.len() && !value_stop(s[i]) {
        value_end(s, i + 1)
    } else {
        i
    }
}

/// The attribute value starting at `i` and the position after it: a quoted
/// run loses its quotes, an unquoted run ends at whitespace or `>`.
pub open spec fn scan_attr_value(s: Seq<char>, i: int) -> (Seq<char>, int) {
    if i < s.len() && (s[i] == '\'' || s[i] == '"') {
        let j = scan_until(s, i + 1, s[i]);
        (s.subrange(i + 1, j), if j < s.len() {
            j + 1
        } else {
            j
        })
    } else {
        let j = value_end(s, i);
        (s.subrange(i, j), j)
    }
}

/// The `name=value` pairs of an attribute list starting at `i`, in scan
/// order, and the position after them: the scan stops before `>` or `/` or
/// at the end of the input.
pub open spec fn scan_attrs(s: Seq<char>, i: int) -> (Seq<(Seq<char>, Seq<char>)>, int)
    decreases s.len() - i
        when 0 <= i <= s.len() via scan_attrs_via
{
    if i < s.len() {
        if white_space(s[i]) {
            scan_attrs(s, i + 1)
        } else if s[i] == '>' || s[i] == '/' {
            (Seq::empty(), i)
        } else {
            let j = attr_name_end(s, i);
            let name = s.subrange(i, j);
            let j2 = scan_until(s, j, '=');
            let j3: int = if j2 < s.len() {
                j2 + 1
            } else {
                j2
            };
            let va = scan_attr_value(s, j3);
            let rest = scan_attrs(s, va.1);
            (seq![(name, va.0)] + rest.0, rest.1)
        }
    } else {
        (Seq::empty(), i)
    }
}

proof fn lemma_tag_name_end(s: Seq<char>, i: int)
    requires
        0 <= i <= s.len(),
    ensures
        i <= tag_name_end(s, i) <= s.len(),
    decreases s.len() - i,
{
    if i < s.len() && tag_char(s[i]) {
        lemma_tag_name_end(s, i + 1);
    }
}

proof fn lemma_attr_name_end(s: Seq<char>, i: int)
    requires
        0 <= i <= s.len(),
    ensures
        i <= attr_name_end(s, i) <= s.len(),
    decreases s.len() - i,
{
    if i < s.len() && attr_char(s[i]) {
        lemma_attr_name_end(s, i + 1);
    }
}

proof fn lemma_scan_until(s: Seq<char>, i: int, c: char)
    requires
        0 <= i <= s.len(),
    ensures
        i <= scan_until(s, i, c) <= s.len(),
    decreases s.len() - i,
{
    if i < s.len() && s[i] != c {
        lemma_scan_until(s, i + 1, c);
    }
}

proof fn lemma_value_end(s: Seq<char>, i: int)
    requires
        0 <= i <= s.len(),
    ensures
        i <= value_end(s, i) <= s.len(),
    decreases s.len() - i,
{
    if i < s.len() && !value_stop(s[i]) {
        lemma_value_end(s, i + 1);
    }
}

proof fn lemma_scan_attr_value(s: Seq<char>, i: int)
    requires
        0 <= i <= s.len(),
    ensures
        i <= scan_attr_value(s, i).1 <= s.len(),
{
    if i < s.len() && (s[i] == '\'' || s[i] == '"') {
        lemma_scan_until(s, i + 1, s[i]);
    } else {
        lemma_value_end(s, i);
    }
}

#[via_fn]
proof fn scan_attrs_via(s: Seq<char>, i: int) {
    if 0 <= i <= s.len() && i < s.len() && !white_space(s[i]) && !(s[i] == '>' || s[i] == '/') {
        let j = attr_name_end(s, i);
        lemma_attr_name_end(s, i);
        let j2 = scan_until(s, j, '=');
        lemma_scan_until(s, j, '=');
        let j3: int = if j2 < s.len() {
            j2 + 1
        } else {
            j2
        };
        lemma_scan_attr_value(s, j3);
    }
}

proof fn lemma_scan_attrs(s: Seq<char>, i: int)
    requires
        0 <= i <= s.len(),
    ensures
        i <= scan_attrs(s, i).1 <= s.len(),
    decreases s.len() - i,
{
    if i < s.len() {
        if white_space(s[i]) {
            lemma_scan_attrs(s, i + 1);
        } else if s[i] == '>' || s[i] == '/' {
        } else {
            let j = attr_name_end(s, i);
            lemma_attr_name_end(s, i);
            let j2 = scan_until(s, j, '=');
            lemma_scan_until(s, j, '=');
            let j3: int = if j2 < s.len() {
                j2 + 1
            } else {
                j2
            };
            lemma_scan_attr_value(s, j3);
            lemma_scan_attrs(s, scan_attr_value(s, j3).1);
        }
    }
}

/// One node of the parse machine: a text run, or an element with its tag
/// name and attribute mapping; the root is node 0.
pub struct MarkupNode {
    pub is_text: bool,
    pub name: Seq<char>,
    pub text: Seq<char>,
    pub attrs: Map<Seq<char>, Seq<char>>,
    pub parent: Option<int>,
    pub children: Seq<int>,
}

/// The parse machine's state: the nodes built so far and the current
/// insertion parent.
pub struct MarkupState {
    pub nodes: Seq<MarkupNode>,
    pub cur: Option<int>,
}

/// The machine's initial state: only the root, which is the insertion
/// parent.
pub open spec fn init_state() -> MarkupState {
    MarkupState {
        nodes: seq![
            MarkupNode {
                is_text: false,
                name: Seq::empty(),
                text: Seq::empty(),
                attrs: Map::empty(),
                parent: None,
                children: Seq::empty(),
            }
        ],
        cur: Some(0int),
    }
}

/// Append an element under the current insertion parent and make it the new
/// insertion parent.
pub open spec fn st_append_element(
    st: MarkupState,
    name: Seq<char>,
    attrs: Map<Seq<char>, Seq<char>>,
) -> MarkupState {
    let n = st.nodes.len() as int;
    match st.cur {
        Some(p) => {
            let parent_node = st.nodes[p];
            let node = MarkupNode {
                is_text: false,
                name,
                text: Seq::empty(),
                attrs,
                parent: Some(p),
                children: Seq::empty(),
            };
            MarkupState {
                nodes: st.nodes.update(
                    p,
                    MarkupNode { children: parent_node.children.push(n), ..parent_node },
                ).push(node),
                cur: Some(n),
            }
        },
        None => {
            let node = MarkupNode {
                is_text: false,
                name,
                text: Seq::empty(),
                attrs,
                parent: None,
                children: Seq::empty(),
            };
            MarkupState { nodes: st.nodes.push(node), cur: Some(n) }
        },
    }
}

/// Append a text node under the current insertion parent, which stays the
/// insertion parent.
pub open spec fn st_append_text(st: MarkupState, text: Seq<char>) -> MarkupState {
    let n = st.nodes.len() as int;
    match st.cur {
        Some(p) => {
            let parent_node = st.nodes[p];
            let node = MarkupNode {
                is_text: true,
                name: Seq::empty(),
                text,
                attrs: Map::empty(),
                parent: Some(p),
                children: Seq::empty(),
            };
            MarkupState {
                nodes: st.nodes.update(
                    p,
                    MarkupNode { children: parent_node.children.push(n), ..parent_node },
                ).push(node),
                cur: st.cur,
            }
        },
        None => {
            let node = MarkupNode {
                is_text: true,
                name: Seq::empty(),
                text,
                attrs: Map::empty(),
                parent: None,
                children: Seq::empty(),
            };
            MarkupState { nodes: st.nodes.push(node), cur: st.cur }
        },
    }
}

/// Handle a close tag: only when it names the current insertion parent does
/// the parent pop to its own parent; otherwise it is silently ignored.
pub open spec fn st_pop(st: MarkupState, name: Seq<char>) -> MarkupState {
    match st.cur {
        Some(p) => {
            if 0 < p < st.nodes.len() && !st.nodes[p].is_text && st.nodes[p].name == name {
                MarkupState { nodes: st.nodes, cur: st.nodes[p].parent }
            } else {
                st
            }
        },
        None => st,
    }
}

/// The parse machine: one step per markup construct, left to right.
pub open spec fn parse_rec(s: Seq<char>, i: int, st: MarkupState) -> MarkupState
    decreases s.len() - i
        when 0 <= i <= s.len() via parse_rec_via
{
    if i < s.len() {
        if s[i] == '<' {
            if i + 1 < s.len() && s[i + 1] == '/' {
                let j = tag_name_end(s, i + 2);
                let name = s.subrange(i + 2, j);
                let j2 = scan_until(s, j, '>');
                let i2: int = if j2 < s.len() {
                    j2 + 1
                } else {
                    j2
                };
                parse_rec(s, i2, st_pop(st, name))
            } else {
                let j = tag_name_end(s, i + 1);
                let name = s.subrange(i + 1, j);
                let sa = scan_attrs(s, j);
                let j2 = scan_until(s, sa.1, '>');
                let i2: int = if j2 < s.len() {
                    j2 + 1
                } else {
                    j2
                };
                parse_rec(s, i2, st_append_element(st, name, pairs_map(sa.0)))
            }
        } else {
            let j = scan_until(s, i, '<');
            let content = s.subrange(i, j);
            if trim_spec(content).len() > 0 {
                parse_rec(s, j, st_append_text(st, content))
            } else {
                parse_rec(s, j, st)
            }
        }
    } else {
        st
    }
}

#[via_fn]
proof fn parse_rec_via(s: Seq<char>, i: int, st: MarkupState) {
    if 0 <= i < s.len() {
        if s[i] == '<' {
            if i + 1 < s.len() && s[i + 1] == '/' {
                lemma_tag_name_end(s, i + 2);
                lemma_scan_until(s, tag_name_end(s, i + 2), '>');
            } else {
                lemma_tag_name_end(s, i + 1);
                lemma_scan_attrs(s, tag_name_end(s, i + 1));
                lemma_scan_until(s, scan_attrs(s, tag_name_end(s, i + 1)).1, '>');
            }
        } else {
            lemma_scan_until(s, i, '<');
            assert(scan_until(s, i, '<') == scan_until(s, i + 1, '<'));
            lemma_scan_until(s, i + 1, '<');
        }
    }
}

/// Whether document node `j` realises machine node `mn`: same links, same
/// payload, and for an element the same attribute mapping.
pub open spec fn mnode_matches(mn: MarkupNode, n: crate::dom::Node, j: int) -> bool {
    &&& (match mn.parent {
        Some(q) => n.parent matches Some(p) && p as int == q,
        None => n.parent is None,
    })
    &&& n.children@.map_values(|u: usize| u as int) == mn.children
    &&& n.shadow_root is None
    &&& n.event_listeners@ == Seq::<(String, Vec<usize>)>::empty()
    &&& n.layout is None
    &&& (if j == 0 {
        n.node_type == NodeType::Document && n.data is None && !mn.is_text && mn.name
            == Seq::<char>::empty()
    } else if mn.is_text {
        n.node_type == NodeType::Text && (n.data matches Some(NodeData::Text(t)) && t@ == mn.text)
    } else {
        n.node_type == NodeType::Element && node_is_element(n) && node_tag(n) == mn.name && (forall|
            k: Seq<char>,
        |
            #[trigger] attr_lookup(node_attrs(n), k) == (if mn.attrs.dom().contains(k) {
                Some(mn.attrs[k])
            } else {
                None
            }))
    })
}

/// Whether `d` realises the machine state `m`, node for node.
pub open spec fn doc_matches(m: MarkupState, d: Document) -> bool {
    &&& d.wf()
    &&& m.nodes.len() == d.nodes@.len()
    &&& forall|j: int| 0 <= j < m.nodes.len() ==> mnode_matches(#[trigger] m.nodes[j], d.nodes@[j], j)
}

/// `doc_matches` together with the correspondence of the insertion parent.
pub open spec fn parse_rel(m: MarkupState, d: Document, cur: Option<usize>) -> bool {
    &&& doc_matches(m, d)
    &&& (match m.cur {
        Some(q) => cur matches Some(p) && p as int == q && 0 <= q < m.nodes.len(),
        None => cur is None,
    })
}

/// Whether `c` may appear in a tag name.
fn is_tag_char(c: char) -> (r: bool)
    ensures
        r == tag_char(c),
{
    char_is_alphanumeric(c) || c == '-' || c == '_' || c == ':'
}

/// Whether `c` may appear in an attribute name.
fn is_attr_char(c: char) -> (r: bool)
    ensures
        r == attr_char(c),
{
    char_is_alphanumeric(c) || c == '-'
}

/// The end of the tag-name run starting at `start`.
fn tag_end_exec(v: &Vec<char>, start: usize) -> (r: usize)
    requires
        start <= v@.len(),
    ensures
        r as int == tag_name_end(v@, start as int),
        start <= r <= v@.len(),
{
    let n = v.len();
    let mut i: usize = start;
    while i < n && is_tag_char(v[i])
        invariant
            start <= i <= n,
            n == v@.len(),
            tag_name_end(v@, start as int) == tag_name_end(v@, i as int),
        decreases n - i,
    {
        i = i + 1;
    }
    i
}

/// The end of the attribute-name run starting at `start`.
fn attr_name_end_exec(v: &Vec<char>, start: usize) -> (r: usize)
    requires
        start <= v@.len(),
    ensures
        r as int == attr_name_end(v@, start as int),
        start <= r <= v@.len(),
{
    let n = v.len();
    let mut i: usize = start;
    while i < n && is_attr_char(v[i])
        invariant
            start <= i <= n,
            n == v@.len(),
            attr_name_end(v@, start as int) == attr_name_end(v@, i as int),
        decreases n - i,
    {
        i = i + 1;
    }
    i
}

/// The first position at or after `start` holding `c`.
fn until_exec(v: &Vec<char>, start: usize, c: char) -> (r: usize)
    requires
        start <= v@.len(),
    ensures
        r as int == scan_until(v@, start as int, c),
        start <= r <= v@.len(),
        r < v@.len() ==> v@[r as int] == c,
{
    let n = v.len();
    let mut i: usize = start;
    while i < n && v[i] != c
        invariant
            start <= i <= n,
            n == v@.len(),
            scan_until(v@, start as int, c) == scan_until(v@, i as int, c),
        decreases n - i,
    {
        i = i + 1;
    }
    i
}

/// The end of the unquoted-value run starting at `start`.
fn value_end_exec(v: &Vec<char>, start: usize) -> (r: usize)
    requires
        start <= v@.len(),
    ensures
        r as int == value_end(v@, start as int),
        start <= r <= v@.len(),
{
    let n = v.len();
    let mut i: usize = start;
    while i < n && !(char_is_whitespace(v[i]) || v[i] == '>')
        invariant
            start <= i <= n,
            n == v@.len(),
            value_end(v@, start as int) == value_end(v@, i as int),
        decreases n - i,
    {
        i = i + 1;
    }
    i
}

/// Copy `v[from..to]` into a fresh vector.
fn copy_span(v: &Vec<char>, from: usize, to: usize) -> (r: Vec<char>)
    requires
        from <= to <= v@.len(),
    ensures
        r@ == v@.subrange(from as int, to as int),
{
    let mut r: Vec<char> = Vec::new();
    let mut i: usize = from;
    proof {
        assert(v@.subrange(from as int, from as int) =~= Seq::<char>::empty());
    }
    while i < to
        invariant
            from <= i <= to <= v@.len(),
            r@ == v@.subrange(from as int, i as int),
        decreases to - i,
    {
        r.push(v[i]);
        i = i + 1;
        assert(r@ =~= v@.subrange(from as int, i as int));
    }
    r
}

/// The attribute value starting at `start` and the position after it.
fn attr_value_exec(v: &Vec<char>, start: usize) -> (r: (Vec<char>, usize))
    requires
        start <= v@.len(),
    ensures
        r.0@ == scan_attr_value(v@, start as int).0,
        r.1 as int == scan_attr_value(v@, start as int).1,
        start <= r.1 <= v@.len(),
{
    let n = v.len();
    if start < n && (v[start] == '\'' || v[start] == '"') {
        let q = v[start];
        let j = until_exec(v, start + 1, q);
        let value = copy_span(v, start + 1, j);
        let after = if j < n {
            j + 1
        } else {
            j
        };
        (value, after)
    } else {
        let j = value_end_exec(v, start);
        let value = copy_span(v, start, j);
        (value, j)
    }
}

/// The view of an attribute pair list.
pub open spec fn pairs_view(pairs: Seq<(String, String)>) -> Seq<(Seq<char>, Seq<char>)> {
    pairs.map_values(|p: (String, String)| (p.0@, p.1@))
}

/// The `name=value` pairs of the attribute list starting at `start`, and
/// the position after it.
fn attrs_exec(v: &Vec<char>, start: usize) -> (r: (Vec<(String, String)>, usize))
    requires
        start <= v@.len(),
    ensures
        pairs_view(r.0@) == scan_attrs(v@, start as int).0,
        r.1 as int == scan_attrs(v@, start as int).1,
        start <= r.1 <= v@.len(),
{
    let n = v.len();
    let mut out: Vec<(String, String)> = Vec::new();
    let mut i: usize = start;
    proof {
        assert(pairs_view(out@) =~= Seq::<(Seq<char>, Seq<char>)>::empty());
        lemma_scan_attrs(v@, start as int);
    }
    loop
        invariant
            start <= i <= n,
            n == v@.len(),
            scan_attrs(v@, start as int).0 =~= pairs_view(out@) + scan_attrs(v@, i as int).0,
            scan_attrs(v@, start as int).1 == scan_attrs(v@, i as int).1,
        decreases n - i,
    {
        if i >= n {
            proof {
                assert(pairs_view(out@) + scan_attrs(v@, i as int).0 =~= pairs_view(out@));
            }
            return (out, i);
        }
        let c = v[i];
        if char_is_whitespace(c) {
            i = i + 1;
        } else if c == '>' || c == '/' {
            proof {
                assert(pairs_view(out@) + scan_attrs(v@, i as int).0 =~= pairs_view(out@));
            }
            return (out, i);
        } else {
            let ghost i0 = i as int;
            let j = attr_name_end_exec(v, i);
            let name = copy_span(v, i, j);
            let j2 = until_exec(v, j, '=');
            let j3 = if j2 < n {
                j2 + 1
            } else {
                j2
            };
            let va = attr_value_exec(v, j3);
            let ghost before = out@;
            out.push((chars_to_string(&name), chars_to_string(&va.0)));
            proof {
                let sa = scan_attrs(v@, i0);
                assert(sa.0 == seq![(name@, va.0@)] + scan_attrs(v@, va.1 as int).0);
                assert(pairs_view(out@) =~= pairs_view(before).push((name@, va.0@)));
                assert(pairs_view(before).push((name@, va.0@)) + scan_attrs(v@, va.1 as int).0
                    =~= pairs_view(before) + (seq![(name@, va.0@)] + scan_attrs(
                    v@,
                    va.1 as int,
                ).0));
            }
            i = va.1;
        }
    }
}

/// Parse a markup string into a document: elements push a new insertion
/// point, a close tag naming the insertion parent pops it, and non-empty
/// text runs become text nodes. The parser cannot fail.
pub fn parse_html(html: &str) -> (d: Document)
    ensures
        doc_matches(parse_rec(html@, 0, init_state()), d),
{
    let mut document = Document::new();
    let chars = str_to_chars(html);
    let n = chars.len();
    let mut current_parent: Option<usize> = Some(document.root);
    let ghost mut st = init_state();
    let mut i: usize = 0;
    proof {
        assert(st.nodes[0].children =~= Seq::<int>::empty());
        assert(document.nodes@[0].children@.map_values(|u: usize| u as int) =~= Seq::<
            int,
        >::empty());
        assert(parse_rel(st, document, current_parent));
    }
    while i < n
        invariant
            n == chars@.len(),
            chars@ == html@,
            i <= n,
            parse_rel(st, document, current_parent),
            parse_rec(html@, i as int, st) == parse_rec(html@, 0, init_state()),
        decreases n - i,
    {
        let ghost st0 = st;
        let c = chars[i];
        if c == '<' {
            if i + 1 < n && chars[i + 1] == '/' {
                // close tag: pop only on a match with the insertion parent
                let j = tag_end_exec(&chars, i + 2);
                let name = copy_span(&chars, i + 2, j);
                proof {
                    st = st_pop(st0, name@);
                }
                match current_parent {
                    Some(p) => {
                        proof {
                            assert(mnode_matches(st0.nodes[p as int], document.nodes@[p as int], p as int));
                        }
                        let is_match = match &document.nodes[p].data {
                            Some(NodeData::Element(ed)) => {
                                let tag_chars = str_to_chars(ed.tag_name.as_str());
                                chars_eq(&tag_chars, &name)
                            },
                            _ => false,
                        };
                        if is_match {
                            current_parent = document.nodes[p].parent;
                        }
                    },
                    None => {},
                }
                proof {
                    assert(parse_rel(st, document, current_parent));
                }
                let j2 = until_exec(&chars, j, '>');
                let i2 = if j2 < n {
                    j2 + 1
                } else {
                    j2
                };
                i = i2;
            } else {
                // open tag: create the element, give it its attributes,
                // append it, and make it the insertion parent
                let j = tag_end_exec(&chars, i + 1);
                let name = copy_span(&chars, i + 1, j);
                let at = attrs_exec(&chars, j);
                let j2 = until_exec(&chars, at.1, '>');
                let i2 = if j2 < n {
                    j2 + 1
                } else {
                    j2
                };
                let ghost pairs = scan_attrs(chars@, j as int).0;
                proof {
                    st = st_append_element(st0, name@, pairs_map(pairs));
                }
                let ghost doc_before = document;
                let name_string = chars_to_string(&name);
                let new_idx = document.create_element(name_string.as_str());
                let n_attrs = at.0.len();
                let mut m: usize = 0;
                proof {
                    assert(pairs_view(at.0@).subrange(0, 0) =~= Seq::<(Seq<char>, Seq<char>)>::empty());
                }
                while m < n_attrs
                    invariant
                        document.wf(),
                        m <= n_attrs,
                        n_attrs == at.0@.len(),
                        new_idx < document.nodes@.len(),
                        node_is_element(document.nodes@[new_idx as int]),
                        document.nodes@.len() == doc_before.nodes@.len() + 1,
                        new_idx == doc_before.nodes@.len(),
                        forall|k: Seq<char>|
                            #[trigger] attr_lookup(
                                node_attrs(document.nodes@[new_idx as int]),
                                k,
                            ) == (if pairs_map(pairs_view(at.0@).subrange(0, m as int)).dom().contains(
                                k,
                            ) {
                                Some(pairs_map(pairs_view(at.0@).subrange(0, m as int))[k])
                            } else {
                                None
                            }),
                        node_tag(document.nodes@[new_idx as int]) == name@,
                        document.nodes@[new_idx as int].parent is None,
                        document.nodes@[new_idx as int].children@ == Seq::<usize>::empty(),
                        document.nodes@[new_idx as int].shadow_root is None,
                        document.nodes@[new_idx as int].event_listeners@ == Seq::<(
                            String,
                            Vec<usize>,
                        )>::empty(),
                        document.nodes@[new_idx as int].layout is None,
                        document.nodes@[new_idx as int].node_type == NodeType::Element,
                        forall|jj: int|
                            0 <= jj < new_idx ==> #[trigger] document.nodes@[jj]
                                == doc_before.nodes@[jj],
                        document.root == 0,
                    decreases n_attrs - m,
                {
                    let ghost before_attrs = node_attrs(document.nodes@[new_idx as int]);
                    let ghost key = at.0@[m as int].0@;
                    let ghost val = at.0@[m as int].1@;
                    document.set_attribute(new_idx, at.0[m].0.as_str(), at.0[m].1.as_str());
                    proof {
                        let pv = pairs_view(at.0@);
                        let pref0 = pv.subrange(0, m as int);
                        let pref1 = pv.subrange(0, m + 1);
                        assert(pref1.drop_last() =~= pref0);
                        assert(pref1.last() == (key, val));
                        assert(pairs_map(pref1) == pairs_map(pref0).insert(key, val));
                        assert forall|k: Seq<char>|
                            #[trigger] attr_lookup(
                                node_attrs(document.nodes@[new_idx as int]),
                                k,
                            ) == (if pairs_map(pref1).dom().contains(k) {
                                Some(pairs_map(pref1)[k])
                            } else {
                                None
                            }) by {
                            if k == key {
                            } else {
                                assert(attr_lookup(
                                    node_attrs(document.nodes@[new_idx as int]),
                                    k,
                                ) == attr_lookup(before_attrs, k));
                            }
                        }
                    }
                    m = m + 1;
                }
                proof {
                    assert(pairs_view(at.0@).subrange(0, n_attrs as int) =~= pairs_view(at.0@));
                }
                let ghost parent_opt = current_parent;
                let ghost doc_mid = document;
                match current_parent {
                    Some(p) => {
                        document.append_child(p, new_idx);
                    },
                    None => {},
                }
                current_parent = Some(new_idx);
                proof {
                    let pv = pairs_view(at.0@);
                    assert(pv.subrange(0, at.0@.len() as int) =~= pv);
                    assert(pv == pairs);
                    let nn = new_idx as int;
                    assert forall|jj: int|
                        0 <= jj < st.nodes.len() implies mnode_matches(
                        #[trigger] st.nodes[jj],
                        document.nodes@[jj],
                        jj,
                    ) by {
                        match parent_opt {
                            Some(p) => {
                                if jj == p as int {
                                    assert(mnode_matches(st0.nodes[jj], doc_before.nodes@[jj], jj));
                                    assert(doc_mid.nodes@[jj] == doc_before.nodes@[jj]);
                                    assert(document.nodes@[jj].children@
                                        == doc_mid.nodes@[jj].children@.push(new_idx));
                                    assert(document.nodes@[jj].children@.map_values(
                                        |u: usize| u as int,
                                    ) =~= st0.nodes[jj].children.push(nn));
                                    assert(mnode_matches(st.nodes[jj], document.nodes@[jj], jj));
                                } else if jj == nn {
                                    assert(document.nodes@[jj].children@.map_values(
                                        |u: usize| u as int,
                                    ) =~= Seq::<int>::empty());
                                    assert(document.nodes@[jj].data == doc_mid.nodes@[jj].data);
                                    assert(node_attrs(document.nodes@[jj]) == node_attrs(
                                        doc_mid.nodes@[jj],
                                    ));
                                    assert(node_tag(document.nodes@[jj]) == node_tag(
                                        doc_mid.nodes@[jj],
                                    ));
                                    assert(mnode_matches(st.nodes[jj], document.nodes@[jj], jj));
                                } else {
                                    assert(document.nodes@[jj] == doc_mid.nodes@[jj]);
                                    assert(doc_mid.nodes@[jj] == doc_before.nodes@[jj]);
                                    assert(st.nodes[jj] == st0.nodes[jj]);
                                    assert(mnode_matches(st0.nodes[jj], doc_before.nodes@[jj], jj));
                                    assert(mnode_matches(st.nodes[jj], document.nodes@[jj], jj));
                                }
                            },
                            None => {
                                if jj == nn {
                                    assert(document.nodes@[jj].children@.map_values(
                                        |u: usize| u as int,
                                    ) =~= Seq::<int>::empty());
                                    assert(mnode_matches(st.nodes[jj], document.nodes@[jj], jj));
                                } else {
                                    assert(document.nodes@[jj] == doc_before.nodes@[jj]);
                                    assert(st.nodes[jj] == st0.nodes[jj]);
                                    assert(mnode_matches(st0.nodes[jj], doc_before.nodes@[jj], jj));
                                    assert(mnode_matches(st.nodes[jj], document.nodes@[jj], jj));
                                }
                            },
                        }
                    }
                    assert(parse_rel(st, document, current_parent));
                }
                i = i2;
            }
        } else {
            // text run up to the next tag open
            let j = until_exec(&chars, i, '<');
            let content = copy_span(&chars, i, j);
            let trimmed = trim_chars(&content);
            if trimmed.len() > 0 {
                proof {
                    st = st_append_text(st0, content@);
                }
                let ghost doc_before = document;
                let text_string = chars_to_string(&content);
                let new_idx = document.create_text_node(text_string.as_str());
                let ghost doc_mid = document;
                let ghost parent_opt = current_parent;
                match current_parent {
                    Some(p) => {
                        document.append_child(p, new_idx);
                    },
                    None => {},
                }
                proof {
                    let nn = new_idx as int;
                    assert forall|jj: int|
                        0 <= jj < st.nodes.len() implies mnode_matches(
                        #[trigger] st.nodes[jj],
                        document.nodes@[jj],
                        jj,
                    ) by {
                        match parent_opt {
                            Some(p) => {
                                if jj == p as int {
                                    assert(mnode_matches(st0.nodes[jj], doc_before.nodes@[jj], jj));
                                    assert(doc_mid.nodes@[jj] == doc_before.nodes@[jj]);
                                    assert(document.nodes@[jj].children@
                                        == doc_mid.nodes@[jj].children@.push(new_idx));
                                    assert(document.nodes@[jj].children@.map_values(
                                        |u: usize| u as int,
                                    ) =~= st0.nodes[jj].children.push(nn));
                                } else if jj == nn {
                                    assert(document.nodes@[jj].children@.map_values(
                                        |u: usize| u as int,
                                    ) =~= Seq::<int>::empty());
                                } else {
                                    assert(document.nodes@[jj] == doc_mid.nodes@[jj]);
                                    assert(doc_mid.nodes@[jj] == doc_before.nodes@[jj]);
                                    assert(st.nodes[jj] == st0.nodes[jj]);
                                    assert(mnode_matches(st0.nodes[jj], doc_before.nodes@[jj], jj));
                                }
                            },
                            None => {
                                if jj == nn {
                                    assert(document.nodes@[jj].children@.map_values(
                                        |u: usize| u as int,
                                    ) =~= Seq::<int>::empty());
                                } else {
                                    assert(document.nodes@[jj] == doc_before.nodes@[jj]);
                                    assert(st.nodes[jj] == st0.nodes[jj]);
                                    assert(mnode_matches(st0.nodes[jj], doc_before.nodes@[jj], jj));
                                }
                            },
                        }
                    }
                    assert(parse_rel(st, document, current_parent));
                }
            }
            i = j;
        }
    }
    document
}

} // verus!
