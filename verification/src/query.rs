//! The selector engine: parsing of simple selectors and matching them
//! against single nodes, and the pre-order document queries built on both.

use vstd::prelude::*;
use crate::dom::{
    attr_lookup, node_attrs, node_is_element, node_tag, node_wf, Document, NodeData, NodeType,
};
use crate::text::{
    chars_to_string, contains_word, has_word, lower_of, lowercase, str_to_chars, trim_chars,
    trim_spec,
};

verus! {

/// A simple selector: an element name, an id, a class token, or an
/// attribute test. Combinators are not part of the grammar: the parser never
/// produces one and the matcher evaluates none.
#[derive(Debug, PartialEq, Clone)]
pub enum Selector {
    Element(String),
    Id(String),
    Class(String),
    Attribute(String, String),
    AttributeExists(String),
}

/// Query result for a single element.
pub struct QueryResult {
    pub node_index: usize,
}

/// The first index of `c` in `s`.
pub open spec fn find_char(s: Seq<char>, c: char) -> Option<int>
    decreases s.len(),
{
    if s.len() == 0 {
        None
    } else if s[0] == c {
        Some(0int)
    } else {
        match find_char(s.drop_first(), c) {
            Some(i) => Some(i + 1),
            None => None,
        }
    }
}

/// The sequence with one layer of matching single or double quotes removed.
pub open spec fn unquote(s: Seq<char>) -> Seq<char> {
    if s.len() >= 2 && ((s[0] == '"' && s[s.len() - 1] == '"') || (s[0] == '\'' && s[s.len() - 1]
        == '\'')) {
        s.subrange(1, s.len() - 1)
    } else {
        s
    }
}

/// What the selector parser yields for the trimmed input `t`: the grammar is
/// checked in the order id (`#`), class (`.`), bracketed attribute, and
/// element name as the remainder.
pub open spec fn sel_parse_rel(t: Seq<char>, sel: Selector) -> bool {
    if t.len() == 0 {
        false
    } else if t[0] == '#' {
        sel matches Selector::Id(x) && x@ == t.drop_first()
    } else if t[0] == '.' {
        sel matches Selector::Class(x) && x@ == t.drop_first()
    } else if t[0] == '[' && t[t.len() - 1] == ']' && t.len() >= 2 {
        let content = t.subrange(1, t.len() - 1);
        match find_char(content, '=') {
            Some(e) => sel matches Selector::Attribute(a, v) && a@ == trim_spec(
                content.subrange(0, e),
            ) && v@ == unquote(trim_spec(content.subrange(e + 1, content.len() as int))),
            None => sel matches Selector::AttributeExists(a) && a@ == content,
        }
    } else {
        sel matches Selector::Element(x) && x@ == t
    }
}

/// Parse a simple selector; fails exactly on an input that is empty after
/// trimming.
pub fn parse_selector(selector: &str) -> (r: Result<Selector, String>)
    ensures
        trim_spec(selector@).len() == 0 ==> (r matches Err(e) && e@ == "Empty selector"@),
        trim_spec(selector@).len() > 0 ==> (r matches Ok(sel) && sel_parse_rel(
            trim_spec(selector@),
            sel,
        )),
{
    let chars = str_to_chars(selector);
    let t = trim_chars(&chars);
    let n = t.len();
    if n == 0 {
        return Err(String::from_str("Empty selector"));
    }
    if t[0] == '#' {
        let rest = copy_range(&t, 1, n);
        proof {
            assert(rest@ =~= t@.drop_first());
        }
        return Ok(Selector::Id(chars_to_string(&rest)));
    }
    if t[0] == '.' {
        let rest = copy_range(&t, 1, n);
        proof {
            assert(rest@ =~= t@.drop_first());
        }
        return Ok(Selector::Class(chars_to_string(&rest)));
    }
    if t[0] == '[' && t[n - 1] == ']' && n >= 2 {
        let content = copy_range(&t, 1, n - 1);
        proof {
            assert(content@ =~= t@.subrange(1, t@.len() - 1));
        }
        match index_of_char(&content, '=') {
            Some(e) => {
                let raw_attr = copy_range(&content, 0, e);
                proof {
                    assert(raw_attr@ =~= content@.subrange(0, e as int));
                }
                let attr = trim_chars(&raw_attr);
                let raw_value = copy_range(&content, e + 1, content.len());
                proof {
                    assert(raw_value@ =~= content@.subrange(e + 1, content@.len() as int));
                }
                let trimmed_value = trim_chars(&raw_value);
                let value = strip_quotes(&trimmed_value);
                return Ok(Selector::Attribute(
                    chars_to_string(&attr),
                    chars_to_string(&value),
                ));
            },
            None => {
                return Ok(Selector::AttributeExists(chars_to_string(&content)));
            },
        }
    }
    Ok(Selector::Element(chars_to_string(&t)))
}

/// Copy `v[from..to]` into a fresh vector.
fn copy_range(v: &Vec<char>, from: usize, to: usize) -> (r: Vec<char>)
    requires
        from <= to <= v@.len(),
    ensures
        r@ == v@.subrange(from as int, to as int),
{
    let mut r: Vec<char> = Vec::new();
    let mut i: usize = from;
    proof {
        assert(v@.subrange(from as int, from as int) =~= Seq::<char>::empty());
    }
    while i < to
        invariant
            from <= i <= to <= v@.len(),
            r@ == v@.subrange(from as int, i as int),
        decreases to - i,
    {
        r.push(v[i]);
        i = i + 1;
        assert(r@ =~= v@.subrange(from as int, i as int));
    }
    r
}

/// The first index of `c` in `v`.
fn index_of_char(v: &Vec<char>, c: char) -> (r: Option<usize>)
    ensures
        match r {
            Some(i) => i < v@.len() && v@[i as int] == c && find_char(v@, c) == Some(i as int),
            None => find_char(v@, c) is None,
        },
{
    let n = v.len();
    let mut i: usize = 0;
    while i < n
        invariant
            n == v@.len(),
            i <= n,
            forall|j: int| 0 <= j < i ==> v@[j] != c,
        decreases n - i,
    {
        if v[i] == c {
            proof {
                lemma_find_char_at(v@, c, i as int);
            }
            return Some(i);
        }
        i = i + 1;
    }
    proof {
        lemma_find_char_none(v@, c);
    }
    None
}

proof fn lemma_find_char_at(s: Seq<char>, c: char, i: int)
    requires
        0 <= i < s.len(),
        s[i] == c,
        forall|j: int| 0 <= j < i ==> s[j] != c,
    ensures
        find_char(s, c) == Some(i),
    decreases i,
{
    if i > 0 {
        lemma_find_char_at(s.drop_first(), c, i - 1);
    }
}

proof fn lemma_find_char_none(s: Seq<char>, c: char)
    requires
        forall|j: int| 0 <= j < s.len() ==> s[j] != c,
    ensures
        find_char(s, c) is None,
    decreases s.len(),
{
    if s.len() > 0 {
        lemma_find_char_none(s.drop_first(), c);
    }
}

/// Remove one layer of matching quotes.
fn strip_quotes(v: &Vec<char>) -> (r: Vec<char>)
    ensures
        r@ == unquote(v@),
{
    let n = v.len();
    if n >= 2 && ((v[0] == '"' && v[n - 1] == '"') || (v[0] == '\'' && v[n - 1] == '\'')) {
        copy_range(v, 1, n - 1)
    } else {
        let mut r: Vec<char> = Vec::new();
        let mut i: usize = 0;
        while i < n
            invariant
                n == v@.len(),
                i <= n,
                r@ == v@.subrange(0, i as int),
            decreases n - i,
        {
            r.push(v[i]);
            i = i + 1;
            assert(r@ =~= v@.subrange(0, i as int));
        }
        proof {
            assert(v@.subrange(0, n as int) =~= v@);
        }
        r
    }
}

/// Whether node `i` of `d` satisfies `sel`: only element nodes match; an
/// element-name selector compares tag names lowercased, an id or
/// attribute-value selector compares the attribute exactly, a class selector
/// looks for the exact token among the whitespace-separated class words, and
/// the combinator variants never match.
pub open spec fn sel_matches(d: Document, i: int, sel: Selector) -> bool {
    if 0 <= i < d.nodes@.len() && d.nodes@[i].node_type == NodeType::Element && node_is_element(
        d.nodes@[i],
    ) {
        let n = d.nodes@[i];
        match sel {
            Selector::Element(tag) => lower_of(node_tag(n)) == lower_of(tag@),
            Selector::Id(id) => attr_lookup(node_attrs(n), "id"@) == Some(id@),
            Selector::Class(cls) => (attr_lookup(node_attrs(n), "class"@) matches Some(cl)
                && has_word(cl, cls@)),
            Selector::Attribute(a, v) => attr_lookup(node_attrs(n), a@) == Some(v@),
            Selector::AttributeExists(a) => attr_lookup(node_attrs(n), a@) is Some,
        }
    } else {
        false
    }
}

/// Whether node `node_idx` of `document` satisfies `selector`.
pub fn matches_selector(document: &Document, node_idx: usize, selector: &Selector) -> (r: bool)
    ensures
        r == sel_matches(*document, node_idx as int, *selector),
{
    if node_idx >= document.nodes.len() {
        return false;
    }
    let node = &document.nodes[node_idx];
    if !(node.node_type == NodeType::Element) {
        return false;
    }
    let ed = match &node.data {
        Some(NodeData::Element(e)) => e,
        _ => {
            return false;
        },
    };
    match selector {
        Selector::Element(tag) => {
            let lt = lowercase(ed.tag_name.as_str());
            let ls = lowercase(tag.as_str());
            lt == ls
        },
        Selector::Id(id) => {
            match document.get_attribute(node_idx, "id") {
                Some(v) => *v == *id,
                None => false,
            }
        },
        Selector::Class(cls) => {
            match document.get_attribute(node_idx, "class") {
                Some(cl) => {
                    let cl_chars = str_to_chars(cl.as_str());
                    let cls_chars = str_to_chars(cls.as_str());
                    contains_word(&cl_chars, &cls_chars)
                },
                None => false,
            }
        },
        Selector::Attribute(a, v) => {
            match document.get_attribute(node_idx, a.as_str()) {
                Some(found) => *found == *v,
                None => false,
            }
        },
        Selector::AttributeExists(a) => {
            match document.get_attribute(node_idx, a.as_str()) {
                Some(_) => true,
                None => false,
            }
        },
    }
}

/// The matches of `sel` in the subtree rooted at node `i`, in pre-order: the
/// node itself first, then each child's subtree in child order.
pub open spec fn query_from(d: Document, i: int, sel: Selector) -> Seq<usize>
    decreases d.nodes@.len() - i, 1int, 0int
        when d.wf() && 0 <= i < d.nodes@.len() via query_from_via
{
    let here: Seq<usize> = if sel_matches(d, i, sel) {
        seq![i as usize]
    } else {
        Seq::empty()
    };
    here + query_kids(d, i, 0, sel)
}

/// The matches of `sel` in the subtrees of the children of node `i` from
/// child position `k` on.
pub open spec fn query_kids(d: Document, i: int, k: int, sel: Selector) -> Seq<usize>
    decreases d.nodes@.len() - i, 0int, d.nodes@[i].children@.len() - k
        when d.wf() && 0 <= i < d.nodes@.len() && 0 <= k via query_kids_via
{
    if k < d.nodes@[i].children@.len() {
        query_from(d, d.nodes@[i].children@[k] as int, sel) + query_kids(d, i, k + 1, sel)
    } else {
        Seq::empty()
    }
}

#[via_fn]
proof fn query_from_via(d: Document, i: int, sel: Selector) {
}

#[via_fn]
proof fn query_kids_via(d: Document, i: int, k: int, sel: Selector) {
    if d.wf() && 0 <= i < d.nodes@.len() && 0 <= k < d.nodes@[i].children@.len() {
        assert(node_wf(d.nodes@[i], i, d.nodes@.len() as int));
    }
}

/// The matches of `sel` in the whole document, in pre-order document order;
/// the root node itself is never tested.
pub open spec fn query_spec(d: Document, sel: Selector) -> Seq<usize> {
    query_kids(d, 0, 0, sel)
}

/// Find every node matching the selector, in pre-order document order; fails
/// exactly when selector parsing fails.
pub fn query_selector_all(document: &Document, selector: &str) -> (r: Result<Vec<usize>, String>)
    requires
        document.wf(),
    ensures
        trim_spec(selector@).len() == 0 ==> (r matches Err(e) && e@ == "Empty selector"@),
        trim_spec(selector@).len() > 0 ==> (r matches Ok(v) && (exists|sel: Selector|
            #[trigger] sel_parse_rel(trim_spec(selector@), sel) && v@ == query_spec(
                *document,
                sel,
            ))),
{
    let parsed = match parse_selector(selector) {
        Ok(s) => s,
        Err(e) => {
            return Err(e);
        },
    };
    let mut results: Vec<usize> = Vec::new();
    let root = document.root;
    let n_children = document.nodes[root].children.len();
    let mut k: usize = 0;
    proof {
        assert(results@ =~= Seq::<usize>::empty());
    }
    while k < n_children
        invariant
            document.wf(),
            n_children == document.nodes@[document.root as int].children@.len(),
            k <= n_children,
            root == document.root,
            results@ + query_kids(*document, 0, k as int, parsed) == query_spec(
                *document,
                parsed,
            ),
        decreases n_children - k,
    {
        proof {
            assert(node_wf(
                document.nodes@[0],
                0,
                document.nodes@.len() as int,
            ));
        }
        let child = document.nodes[root].children[k];
        let ghost pre = results@;
        search_recursive(document, child, &parsed, &mut results);
        proof {
            assert(query_kids(*document, 0, k as int, parsed) == query_from(
                *document,
                child as int,
                parsed,
            ) + query_kids(*document, 0, k as int + 1, parsed));
            assert(results@ + query_kids(*document, 0, k as int + 1, parsed) =~= pre + query_kids(
                *document,
                0,
                k as int,
                parsed,
            ));
        }
        k = k + 1;
    }
    proof {
        assert(results@ + Seq::<usize>::empty() =~= results@);
    }
    Ok(results)
}

/// Push onto `results`, in pre-order, every node of the subtree at
/// `node_idx` that matches.
fn search_recursive(
    document: &Document,
    node_idx: usize,
    selector: &Selector,
    results: &mut Vec<usize>,
)
    requires
        document.wf(),
        node_idx < document.nodes@.len(),
    ensures
        final(results)@ == old(results)@ + query_from(*document, node_idx as int, *selector),
    decreases document.nodes@.len() - node_idx,
{
    proof {
        assert(node_wf(
            document.nodes@[node_idx as int],
            node_idx as int,
            document.nodes@.len() as int,
        ));
    }
    let matched = matches_selector(document, node_idx, selector);
    if matched {
        results.push(node_idx);
    }
    let ghost here: Seq<usize> = if matched {
        seq![node_idx]
    } else {
        Seq::empty()
    };
    let ghost base = results@;
    let n_children = document.nodes[node_idx].children.len();
    let mut k: usize = 0;
    while k < n_children
        invariant
            document.wf(),
            node_idx < document.nodes@.len(),
            n_children == document.nodes@[node_idx as int].children@.len(),
            k <= n_children,
            results@ + query_kids(*document, node_idx as int, k as int, *selector) == base
                + query_kids(*document, node_idx as int, 0, *selector),
        decreases n_children - k,
    {
        proof {
            assert(node_wf(
                document.nodes@[node_idx as int],
                node_idx as int,
                document.nodes@.len() as int,
            ));
        }
        let child = document.nodes[node_idx].children[k];
        let ghost pre = results@;
        search_recursive(document, child, selector, results);
        proof {
            assert(query_kids(*document, node_idx as int, k as int, *selector) == query_from(
                *document,
                child as int,
                *selector,
            ) + query_kids(*document, node_idx as int, k as int + 1, *selector));
            assert(results@ + query_kids(*document, node_idx as int, k as int + 1, *selector) =~= pre
                + query_kids(*document, node_idx as int, k as int, *selector));
        }
        k = k + 1;
    }
    proof {
        assert(results@ + Seq::<usize>::empty() =~= results@);
        assert(old(results)@ + query_from(*document, node_idx as int, *selector) =~= (old(
            results,
        )@ + here) + query_kids(*document, node_idx as int, 0, *selector));
    }
}

/// Find the first node matching the selector in pre-order document order;
/// fails exactly when selector parsing fails.
pub fn query_selector(document: &Document, selector: &str) -> (r: Result<Option<usize>, String>)
    requires
        document.wf(),
    ensures
        trim_spec(selector@).len() == 0 ==> (r matches Err(e) && e@ == "Empty selector"@),
        trim_spec(selector@).len() > 0 ==> (r matches Ok(v) && (exists|sel: Selector|
            #[trigger] sel_parse_rel(trim_spec(selector@), sel) && v == (if query_spec(
                *document,
                sel,
            ).len() > 0 {
                Some(query_spec(*document, sel)[0])
            } else {
                None
            }))),
{
    match query_selector_all(document, selector) {
        Ok(results) => {
            if results.len() > 0 {
                Ok(Some(results[0]))
            } else {
                Ok(None)
            }
        },
        Err(e) => Err(e),
    }
}

/// All nodes of the subtree rooted at `i`, in pre-order: the node first,
/// then each child's subtree in child order.
pub open spec fn preorder_from(d: Document, i: int) -> Seq<usize>
    decreases d.nodes@.len() - i, 1int, 0int
        when d.wf() && 0 <= i < d.nodes@.len() via preorder_from_via
{
    seq![i as usize] + preorder_kids(d, i, 0)
}

/// All nodes of the subtrees of the children of node `i` from child
/// position `k` on, in pre-order.
pub open spec fn preorder_kids(d: Document, i: int, k: int) -> Seq<usize>
    decreases d.nodes@.len() - i, 0int, d.nodes@[i].children@.len() - k
        when d.wf() && 0 <= i < d.nodes@.len() && 0 <= k via preorder_kids_via
{
    if k < d.nodes@[i].children@.len() {
        preorder_from(d, d.nodes@[i].children@[k] as int) + preorder_kids(d, i, k + 1)
    } else {
        Seq::empty()
    }
}

#[via_fn]
proof fn preorder_from_via(d: Document, i: int) {
}

#[via_fn]
proof fn preorder_kids_via(d: Document, i: int, k: int) {
    if d.wf() && 0 <= i < d.nodes@.len() && 0 <= k < d.nodes@[i].children@.len() {
        assert(node_wf(d.nodes@[i], i, d.nodes@.len() as int));
    }
}

/// The pre-order traversal of the whole document below the root: the
/// sequence of nodes a query walks, in document order.
pub open spec fn preorder_spec(d: Document) -> Seq<usize> {
    preorder_kids(d, 0, 0)
}

proof fn lemma_filter_singleton<A>(x: A, pred: spec_fn(A) -> bool)
    ensures
        seq![x].filter(pred) == (if pred(x) {
            seq![x]
        } else {
            Seq::<A>::empty()
        }),
{
    reveal(Seq::filter);
    assert(seq![x].drop_last() =~= Seq::<A>::empty());
    assert(seq![x].last() == x);
    assert(Seq::<A>::empty().filter(pred) =~= Seq::<A>::empty());
    if pred(x) {
        assert(seq![x].filter(pred) =~= Seq::<A>::empty().push(x));
        assert(Seq::<A>::empty().push(x) =~= seq![x]);
    }
}

proof fn lemma_query_preorder_from(d: Document, i: int, sel: Selector)
    requires
        d.wf(),
        0 <= i < d.nodes@.len(),
    ensures
        query_from(d, i, sel) == preorder_from(d, i).filter(
            |x: usize| sel_matches(d, x as int, sel),
        ),
    decreases d.nodes@.len() - i, 1int, 0int,
{
    let pred = |x: usize| sel_matches(d, x as int, sel);
    lemma_query_preorder_kids(d, i, 0, sel);
    Seq::filter_distributes_over_add(seq![i as usize], preorder_kids(d, i, 0), pred);
    lemma_filter_singleton(i as usize, pred);
    assert(preorder_from(d, i) == seq![i as usize] + preorder_kids(d, i, 0));
    assert(preorder_from(d, i).filter(pred) == seq![i as usize].filter(pred) + preorder_kids(
        d,
        i,
        0,
    ).filter(pred));
    assert(d.nodes@.len() <= usize::MAX) by {
        assert(d.nodes.len() == d.nodes@.len());
    }
    assert((i as usize) as int == i);
    assert(pred(i as usize) == sel_matches(d, i, sel));
    if sel_matches(d, i, sel) {
        assert(query_from(d, i, sel) =~= seq![i as usize] + query_kids(d, i, 0, sel));
    } else {
        assert(query_from(d, i, sel) =~= Seq::<usize>::empty() + query_kids(d, i, 0, sel));
        assert(Seq::<usize>::empty() + query_kids(d, i, 0, sel) =~= query_kids(d, i, 0, sel));
        assert(Seq::<usize>::empty() + preorder_kids(d, i, 0).filter(pred) =~= preorder_kids(
            d,
            i,
            0,
        ).filter(pred));
    }
}

proof fn lemma_query_preorder_kids(d: Document, i: int, k: int, sel: Selector)
    requires
        d.wf(),
        0 <= i < d.nodes@.len(),
        0 <= k,
    ensures
        query_kids(d, i, k, sel) == preorder_kids(d, i, k).filter(
            |x: usize| sel_matches(d, x as int, sel),
        ),
    decreases d.nodes@.len() - i, 0int, d.nodes@[i].children@.len() - k,
{
    let pred = |x: usize| sel_matches(d, x as int, sel);
    if k < d.nodes@[i].children@.len() {
        assert(node_wf(d.nodes@[i], i, d.nodes@.len() as int));
        let c = d.nodes@[i].children@[k] as int;
        lemma_query_preorder_from(d, c, sel);
        lemma_query_preorder_kids(d, i, k + 1, sel);
        Seq::filter_distributes_over_add(preorder_from(d, c), preorder_kids(d, i, k + 1), pred);
    } else {
        reveal(Seq::filter);
        assert(Seq::<usize>::empty().filter(pred) =~= Seq::<usize>::empty());
    }
}

/// `querySelectorAll` returns nodes in pre-order document order: its result
/// is exactly the pre-order traversal of the document filtered by the
/// selector, so matches appear in traversal order.
pub proof fn lemma_query_is_preorder_filter(d: Document, sel: Selector)
    requires
        d.wf(),
    ensures
        query_spec(d, sel) == preorder_spec(d).filter(|x: usize| sel_matches(d, x as int, sel)),
{
    lemma_query_preorder_kids(d, 0, 0, sel);
}

proof fn lemma_filter_congruence<A>(s: Seq<A>, p1: spec_fn(A) -> bool, p2: spec_fn(A) -> bool)
    requires
        forall|x: A| #[trigger] p1(x) == p2(x),
    ensures
        s.filter(p1) == s.filter(p2),
    decreases s.len(),
{
    reveal(Seq::filter);
    if s.len() == 0 {
        assert(s.filter(p1) =~= s.filter(p2));
    } else {
        lemma_filter_congruence(s.drop_last(), p1, p2);
    }
}

/// Whether two selectors are the same pattern: the same variant with fields
/// that read the same.
pub open spec fn sel_equiv(s1: Selector, s2: Selector) -> bool {
    match (s1, s2) {
        (Selector::Element(a), Selector::Element(b)) => a@ == b@,
        (Selector::Id(a), Selector::Id(b)) => a@ == b@,
        (Selector::Class(a), Selector::Class(b)) => a@ == b@,
        (Selector::Attribute(a, v), Selector::Attribute(b, w)) => a@ == b@ && v@ == w@,
        (Selector::AttributeExists(a), Selector::AttributeExists(b)) => a@ == b@,
        _ => false,
    }
}

/// Re-running a query without mutation yields the identical sequence: two
/// parses of the same selector text are the same pattern, and the matches of
/// a pattern are a function of the document alone.
pub proof fn lemma_query_idempotent(d: Document, t: Seq<char>, s1: Selector, s2: Selector)
    requires
        d.wf(),
        sel_parse_rel(t, s1),
        sel_parse_rel(t, s2),
    ensures
        query_spec(d, s1) == query_spec(d, s2),
{
    assert(sel_equiv(s1, s2));
    let p1 = |x: usize| sel_matches(d, x as int, s1);
    let p2 = |x: usize| sel_matches(d, x as int, s2);
    assert forall|x: usize| #[trigger] p1(x) == p2(x) by {
        assert(sel_matches(d, x as int, s1) == sel_matches(d, x as int, s2));
    }
    lemma_query_is_preorder_filter(d, s1);
    lemma_query_is_preorder_filter(d, s2);
    lemma_filter_congruence(preorder_spec(d), p1, p2);
}

/// Element-name matching is case-insensitive: two element selectors whose
/// names agree up to lowercasing match the same nodes. Id, class and
/// attribute-value matching are case-sensitive: an id or attribute-value
/// selector matches exactly the stored value, and a class selector matches
/// exactly the stored token, so values differing anywhere, case included,
/// never both match.
pub proof fn lemma_selector_case_sensitivity(
    d: Document,
    i: int,
    a: String,
    b: String,
    v: String,
    w: String,
)
    ensures
        lower_of(a@) == lower_of(b@) ==> sel_matches(d, i, Selector::Element(a)) == sel_matches(
            d,
            i,
            Selector::Element(b),
        ),
        a@ != b@ ==> !(sel_matches(d, i, Selector::Id(a)) && sel_matches(d, i, Selector::Id(b))),
        a@ == b@ && v@ != w@ ==> !(sel_matches(d, i, Selector::Attribute(a, v)) && sel_matches(
            d,
            i,
            Selector::Attribute(b, w),
        )),
        sel_matches(d, i, Selector::Class(a)) == (0 <= i < d.nodes@.len() && d.nodes@[i].node_type
            == NodeType::Element && node_is_element(d.nodes@[i]) && (attr_lookup(
            node_attrs(d.nodes@[i]),
            "class"@,
        ) matches Some(cl) && has_word(cl, a@))),
{
}

} // verus!
