//! The cascade resolver: which rules of a sheet apply to a node, in which
//! order they overwrite one another, and the styled mirror of the document
//! tree built from that.
//!
//! Matched rules are ordered by their literal joined selector-list string — a
//! stable but semantically arbitrary key, not CSS specificity — and applied
//! in that order, each later rule overwriting earlier ones property by
//! property. Only the `color` property is mapped onto the computed style.

use vstd::prelude::*;
use crate::css::{alist_map, sels_view, ComputedStyle, CSSValue, Rule, StyleSheet};
use crate::dom::{
    alist_get, attr_lookup, node_attrs, node_is_element, node_tag, node_wf, Display, Document,
    Node, NodeData,
};
use crate::text::{chars_eq, contains_word, str_to_chars};

verus! {

/// Whether a node satisfies one raw selector string of the cascade's simple
/// matcher: the exact tag name, `.` and an exact class word, or `#` and the
/// exact id.
pub open spec fn style_sel_matches(n: Node, sel: Seq<char>) -> bool {
    &&& node_is_element(n)
    &&& {
        ||| node_tag(n) == sel
        ||| (sel.len() >= 1 && sel[0] == '.' && (attr_lookup(node_attrs(n), "class"@) matches Some(
            cl,
        ) && crate::text::has_word(cl, sel.drop_first())))
        ||| (sel.len() >= 1 && sel[0] == '#' && attr_lookup(node_attrs(n), "id"@) == Some(
            sel.drop_first(),
        ))
    }
}

/// Whether a node satisfies one raw selector string.
fn style_matches(node: &Node, selector: &String) -> (r: bool)
    ensures
        r == style_sel_matches(*node, selector@),
{
    let ed = match &node.data {
        Some(NodeData::Element(e)) => e,
        _ => {
            return false;
        },
    };
    let sel_chars = str_to_chars(selector.as_str());
    let tag_chars = str_to_chars(ed.tag_name.as_str());
    if chars_eq(&tag_chars, &sel_chars) {
        return true;
    }
    if sel_chars.len() >= 1 && sel_chars[0] == '.' {
        let key = String::from_str("class");
        match alist_get(&ed.attributes, &key) {
            Some(cl) => {
                let cl_chars = str_to_chars(cl.as_str());
                let mut rest: Vec<char> = Vec::new();
                let mut k: usize = 1;
                while k < sel_chars.len()
                    invariant
                        1 <= k <= sel_chars@.len(),
                        rest@ == sel_chars@.subrange(1, k as int),
                    decreases sel_chars@.len() - k,
                {
                    rest.push(sel_chars[k]);
                    k = k + 1;
                    assert(rest@ =~= sel_chars@.subrange(1, k as int));
                }
                proof {
                    assert(rest@ =~= sel_chars@.drop_first());
                }
                if contains_word(&cl_chars, &rest) {
                    return true;
                }
            },
            None => {},
        }
    }
    if sel_chars.len() >= 1 && sel_chars[0] == '#' {
        let key = String::from_str("id");
        match alist_get(&ed.attributes, &key) {
            Some(id) => {
                let id_chars = str_to_chars(id.as_str());
                let mut rest: Vec<char> = Vec::new();
                let mut k: usize = 1;
                while k < sel_chars.len()
                    invariant
                        1 <= k <= sel_chars@.len(),
                        rest@ == sel_chars@.subrange(1, k as int),
                    decreases sel_chars@.len() - k,
                {
                    rest.push(sel_chars[k]);
                    k = k + 1;
                    assert(rest@ =~= sel_chars@.subrange(1, k as int));
                }
                proof {
                    assert(rest@ =~= sel_chars@.drop_first());
                }
                if chars_eq(&id_chars, &rest) {
                    return true;
                }
            },
            None => {},
        }
    }
    false
}

/// Whether at least one selector string of the rule matches the node.
pub open spec fn rule_matched(r: Rule, n: Node) -> bool {
    exists|k: int| 0 <= k < r.selectors@.len() && style_sel_matches(n, #[trigger] r.selectors@[k]@)
}

/// The indices of the rules that match the node, in sheet order.
pub open spec fn matched_list(rules: Seq<Rule>, n: Node) -> Seq<int>
    decreases rules.len(),
{
    if rules.len() == 0 {
        Seq::empty()
    } else {
        matched_list(rules.drop_last(), n) + (if rule_matched(rules.last(), n) {
            seq![rules.len() - 1]
        } else {
            Seq::empty()
        })
    }
}

/// The joined selector-list string of a rule: the sort key of the cascade.
pub open spec fn join_sels(sels: Seq<Seq<char>>) -> Seq<char>
    decreases sels.len(),
{
    if sels.len() == 0 {
        Seq::empty()
    } else if sels.len() == 1 {
        sels[0]
    } else {
        join_sels(sels.drop_last()) + seq![','] + sels.last()
    }
}

/// The sort key of rule `idx`.
pub open spec fn key_at(rules: Seq<Rule>, idx: int) -> Seq<char> {
    join_sels(sels_view(rules[idx].selectors@))
}

/// Lexicographic order on character sequences by scalar value, as the
/// standard ordering on strings reads.
pub open spec fn lex_le(a: Seq<char>, b: Seq<char>) -> bool
    decreases a.len(),
{
    if a.len() == 0 {
        true
    } else if b.len() == 0 {
        false
    } else if (a[0] as u32) < (b[0] as u32) {
        true
    } else if (a[0] as u32) > (b[0] as u32) {
        false
    } else {
        lex_le(a.drop_first(), b.drop_first())
    }
}

/// Rule index `x` inserted into the key-sorted index list `l`, after every
/// index whose key is less or equal: a stable insertion.
pub open spec fn ins_idx(rules: Seq<Rule>, l: Seq<int>, x: int) -> Seq<int>
    decreases l.len(),
{
    if l.len() > 0 && lex_le(key_at(rules, l[0]), key_at(rules, x)) {
        seq![l[0]] + ins_idx(rules, l.drop_first(), x)
    } else {
        seq![x] + l
    }
}

/// The index list stably sorted by rule key: matched rules are applied in
/// this order.
pub open spec fn sort_idx(rules: Seq<Rule>, l: Seq<int>) -> Seq<int>
    decreases l.len(),
{
    if l.len() == 0 {
        Seq::empty()
    } else {
        ins_idx(rules, sort_idx(rules, l.drop_last()), l.last())
    }
}

/// The `color` value left after applying the rules of `order` in order, each
/// later rule overwriting an earlier one when it declares the property.
pub open spec fn cascade_color(rules: Seq<Rule>, order: Seq<int>) -> Option<Seq<char>>
    decreases order.len(),
{
    if order.len() == 0 {
        None
    } else {
        let d = alist_map(rules[order.last()].declarations@);
        if d.dom().contains("color"@) {
            Some(d["color"@])
        } else {
            cascade_color(rules, order.drop_last())
        }
    }
}

/// The resolved color the cascade leaves on a node: the `color` declaration
/// of the last matched rule, in key order, that declares one.
pub open spec fn resolved_color(ss: StyleSheet, n: Node) -> Option<Seq<char>> {
    cascade_color(ss.rules@, sort_idx(ss.rules@, matched_list(ss.rules@, n)))
}

/// All fields of the computed style are the defaults, except the color,
/// which is what the cascade resolves for the node.
pub open spec fn style_fields(cs: ComputedStyle, n: Node, ss: StyleSheet) -> bool {
    &&& cs.width is None
    &&& cs.height is None
    &&& cs.padding_top is None
    &&& cs.padding_right is None
    &&& cs.padding_bottom is None
    &&& cs.padding_left is None
    &&& cs.margin_top is None
    &&& cs.margin_right is None
    &&& cs.margin_bottom is None
    &&& cs.margin_left is None
    &&& cs.border_width is None
    &&& cs.border_color is None
    &&& cs.display == Display::Block
    &&& cs.font_size == Some(CSSValue::Pixels(1600))
    &&& cs.background_color is None
    &&& (match cs.color {
        Some(c) => resolved_color(ss, n) == Some(c@),
        None => resolved_color(ss, n) is None,
    })
}

/// The sort key of one rule.
fn rule_key(r: &Rule) -> (key: Vec<char>)
    ensures
        key@ == join_sels(sels_view(r.selectors@)),
{
    let mut key: Vec<char> = Vec::new();
    let n = r.selectors.len();
    let mut k: usize = 0;
    proof {
        assert(sels_view(r.selectors@).subrange(0, 0) =~= Seq::<Seq<char>>::empty());
    }
    while k < n
        invariant
            k <= n,
            n == r.selectors@.len(),
            key@ == join_sels(sels_view(r.selectors@).subrange(0, k as int)),
        decreases n - k,
    {
        let ghost pre = sels_view(r.selectors@).subrange(0, k as int);
        if k > 0 {
            key.push(',');
        }
        let sc = str_to_chars(r.selectors[k].as_str());
        let mut m: usize = 0;
        let ghost key0 = key@;
        while m < sc.len()
            invariant
                m <= sc@.len(),
                key@ == key0 + sc@.subrange(0, m as int),
            decreases sc@.len() - m,
        {
            key.push(sc[m]);
            m = m + 1;
            assert(key@ =~= key0 + sc@.subrange(0, m as int));
        }
        proof {
            let post = sels_view(r.selectors@).subrange(0, k + 1);
            assert(sc@ =~= sc@.subrange(0, sc@.len() as int));
            assert(post.drop_last() =~= pre);
            assert(post.last() == r.selectors@[k as int]@);
            if k == 0 {
                assert(key@ =~= join_sels(post));
            } else {
                assert(key@ =~= join_sels(pre) + seq![','] + r.selectors@[k as int]@);
            }
        }
        k = k + 1;
    }
    proof {
        assert(sels_view(r.selectors@).subrange(0, n as int) =~= sels_view(r.selectors@));
    }
    key
}

/// Whether `a` is at most `b` in lexicographic order.
fn lex_le_exec(a: &Vec<char>, b: &Vec<char>) -> (r: bool)
    ensures
        r == lex_le(a@, b@),
{
    let na = a.len();
    let nb = b.len();
    let mut i: usize = 0;
    proof {
        assert(a@.subrange(0, na as int) =~= a@);
        assert(b@.subrange(0, nb as int) =~= b@);
    }
    while i < na && i < nb
        invariant
            i <= na,
            i <= nb,
            na == a@.len(),
            nb == b@.len(),
            lex_le(a@, b@) == lex_le(
                a@.subrange(i as int, na as int),
                b@.subrange(i as int, nb as int),
            ),
        decreases na - i,
    {
        let ca = a[i];
        let cb = b[i];
        let ghost ra = a@.subrange(i as int, na as int);
        let ghost rb = b@.subrange(i as int, nb as int);
        proof {
            assert(ra.drop_first() =~= a@.subrange(i + 1, na as int));
            assert(rb.drop_first() =~= b@.subrange(i + 1, nb as int));
        }
        if (ca as u32) < (cb as u32) {
            return true;
        }
        if (ca as u32) > (cb as u32) {
            return false;
        }
        i = i + 1;
    }
    proof {
        if i >= na {
            assert(a@.subrange(i as int, na as int) =~= Seq::<char>::empty());
        } else {
            assert(b@.subrange(i as int, nb as int) =~= Seq::<char>::empty());
        }
    }
    na <= nb && i >= na || na > nb && false || i >= na && na <= nb
}

proof fn lemma_ins_idx_at(rules: Seq<Rule>, l: Seq<int>, x: int, pos: int)
    requires
        0 <= pos <= l.len(),
        forall|q: int| 0 <= q < pos ==> lex_le(key_at(rules, #[trigger] l[q]), key_at(rules, x)),
        pos < l.len() ==> !lex_le(key_at(rules, l[pos]), key_at(rules, x)),
    ensures
        ins_idx(rules, l, x) == l.insert(pos, x),
    decreases pos,
{
    if pos == 0 {
        if l.len() > 0 && lex_le(key_at(rules, l[0]), key_at(rules, x)) {
            assert(false);
        }
        assert(seq![x] + l =~= l.insert(0, x));
    } else {
        assert(lex_le(key_at(rules, l[0]), key_at(rules, x)));
        let t = l.drop_first();
        assert forall|q: int| 0 <= q < pos - 1 implies lex_le(
            key_at(rules, #[trigger] t[q]),
            key_at(rules, x),
        ) by {
            assert(t[q] == l[q + 1]);
        }
        if pos - 1 < t.len() {
            assert(t[pos - 1] == l[pos]);
        }
        lemma_ins_idx_at(rules, t, x, pos - 1);
        assert(seq![l[0]] + t.insert(pos - 1, x) =~= l.insert(pos, x));
    }
}


/// The position before the first already-sorted rule whose key exceeds
/// `xkey`: where a stable insertion places the new rule.
fn find_insert_pos(rules: &Vec<Rule>, sorted: &Vec<usize>, xkey: &Vec<char>) -> (pos: usize)
    requires
        forall|q: int| 0 <= q < sorted@.len() ==> #[trigger] sorted@[q] < rules@.len(),
    ensures
        pos <= sorted@.len(),
        forall|q: int|
            0 <= q < pos ==> lex_le(key_at(rules@, #[trigger] sorted@[q] as int), xkey@),
        pos < sorted@.len() ==> !lex_le(key_at(rules@, sorted@[pos as int] as int), xkey@),
{
    let n = sorted.len();
    let mut pos: usize = 0;
    while pos < n
        invariant
            pos <= n,
            n == sorted@.len(),
            forall|q: int| 0 <= q < sorted@.len() ==> #[trigger] sorted@[q] < rules@.len(),
            forall|q: int|
                0 <= q < pos ==> lex_le(key_at(rules@, #[trigger] sorted@[q] as int), xkey@),
        decreases n - pos,
    {
        let pkey = rule_key(&rules[sorted[pos]]);
        if !lex_le_exec(&pkey, xkey) {
            return pos;
        }
        pos = pos + 1;
    }
    pos
}

/// The computed style the cascade gives a node against a sheet: everything
/// at its default except the resolved color.
pub fn specified_values(node: &Node, stylesheet: &StyleSheet) -> (r: ComputedStyle)
    ensures
        style_fields(r, *node, *stylesheet),
{
    let mut style = ComputedStyle::default();
    let n_rules = stylesheet.rules.len();
    let mut matched: Vec<usize> = Vec::new();
    let mut ri: usize = 0;
    proof {
        assert(matched@.map_values(|u: usize| u as int) =~= Seq::<int>::empty());
        assert(stylesheet.rules@.subrange(0, 0) =~= Seq::<Rule>::empty());
    }
    while ri < n_rules
        invariant
            ri <= n_rules,
            n_rules == stylesheet.rules@.len(),
            matched@.map_values(|u: usize| u as int) == matched_list(
                stylesheet.rules@.subrange(0, ri as int),
                *node,
            ),
            forall|q: int| 0 <= q < matched@.len() ==> #[trigger] matched@[q] < ri,
        decreases n_rules - ri,
    {
        let rule = &stylesheet.rules[ri];
        let n_sels = rule.selectors.len();
        let mut si: usize = 0;
        let mut hit = false;
        while si < n_sels && !hit
            invariant
                si <= n_sels,
                n_sels == rule.selectors@.len(),
                rule == stylesheet.rules@[ri as int],
                hit ==> rule_matched(stylesheet.rules@[ri as int], *node),
                !hit ==> forall|q: int|
                    0 <= q < si ==> !style_sel_matches(
                        *node,
                        #[trigger] rule.selectors@[q]@,
                    ),
            decreases n_sels - si, (if hit {
                0int
            } else {
                1int
            }),
        {
            if style_matches(node, &rule.selectors[si]) {
                hit = true;
            } else {
                si = si + 1;
            }
        }
        let ghost pre = stylesheet.rules@.subrange(0, ri as int);
        let ghost post = stylesheet.rules@.subrange(0, ri + 1);
        proof {
            assert(post.drop_last() =~= pre);
            assert(post.last() == stylesheet.rules@[ri as int]);
            if !hit {
                assert(!rule_matched(stylesheet.rules@[ri as int], *node));
            }
        }
        if hit {
            let ghost m0 = matched@.map_values(|u: usize| u as int);
            matched.push(ri);
            proof {
                assert(matched@.map_values(|u: usize| u as int) =~= m0.push(ri as int));
                assert(matched_list(post, *node) =~= m0 + seq![ri as int]);
                assert(m0.push(ri as int) =~= m0 + seq![ri as int]);
            }
        } else {
            proof {
                assert(matched_list(post, *node) =~= matched@.map_values(|u: usize| u as int));
            }
        }
        ri = ri + 1;
    }
    proof {
        assert(stylesheet.rules@.subrange(0, n_rules as int) =~= stylesheet.rules@);
    }
    // stable sort of the matched rules by their joined selector-list string
    let mut sorted: Vec<usize> = Vec::new();
    let n_matched = matched.len();
    let mut mi: usize = 0;
    proof {
        assert(sorted@.map_values(|u: usize| u as int) =~= Seq::<int>::empty());
        assert(matched@.map_values(|u: usize| u as int).subrange(0, 0) =~= Seq::<int>::empty());
    }
    while mi < n_matched
        invariant
            mi <= n_matched,
            n_matched == matched@.len(),
            forall|q: int| 0 <= q < matched@.len() ==> #[trigger] matched@[q] < stylesheet.rules@.len(),
            forall|q: int|
                0 <= q < sorted@.len() ==> #[trigger] sorted@[q] < stylesheet.rules@.len(),
            sorted@.map_values(|u: usize| u as int) == sort_idx(
                stylesheet.rules@,
                matched@.map_values(|u: usize| u as int).subrange(0, mi as int),
            ),
        decreases n_matched - mi,
    {
        let x = matched[mi];
        let xkey = rule_key(&stylesheet.rules[x]);
        let pos = find_insert_pos(&stylesheet.rules, &sorted, &xkey);
        let ghost s0 = sorted@.map_values(|u: usize| u as int);
        sorted.insert(pos, x);
        proof {
            assert(xkey@ == key_at(stylesheet.rules@, x as int));
            lemma_ins_idx_at(stylesheet.rules@, s0, x as int, pos as int);
            assert(sorted@.map_values(|u: usize| u as int) =~= s0.insert(pos as int, x as int));
            let mv = matched@.map_values(|u: usize| u as int);
            assert(mv.subrange(0, mi + 1).drop_last() =~= mv.subrange(0, mi as int));
            assert(mv.subrange(0, mi + 1).last() == x as int);
        }
        mi = mi + 1;
    }
    proof {
        let mv = matched@.map_values(|u: usize| u as int);
        assert(mv.subrange(0, n_matched as int) =~= mv);
    }
    // apply the sorted rules: the color of a later rule overwrites
    let n_sorted = sorted.len();
    let mut ci: usize = 0;
    let color_key = String::from_str("color");
    proof {
        assert(sorted@.map_values(|u: usize| u as int).subrange(0, 0) =~= Seq::<int>::empty());
    }
    while ci < n_sorted
        invariant
            ci <= n_sorted,
            n_sorted == sorted@.len(),
            color_key@ == "color"@,
            forall|q: int|
                0 <= q < sorted@.len() ==> #[trigger] sorted@[q] < stylesheet.rules@.len(),
            (match style.color {
                Some(c) => cascade_color(
                    stylesheet.rules@,
                    sorted@.map_values(|u: usize| u as int).subrange(0, ci as int),
                ) == Some(c@),
                None => cascade_color(
                    stylesheet.rules@,
                    sorted@.map_values(|u: usize| u as int).subrange(0, ci as int),
                ) is None,
            }),
            style.width is None,
            style.height is None,
            style.padding_top is None,
            style.padding_right is None,
            style.padding_bottom is None,
            style.padding_left is None,
            style.margin_top is None,
            style.margin_right is None,
            style.margin_bottom is None,
            style.margin_left is None,
            style.border_width is None,
            style.border_color is None,
            style.display == Display::Block,
            style.font_size == Some(CSSValue::Pixels(1600)),
            style.background_color is None,
        decreases n_sorted - ci,
    {
        let idx = sorted[ci];
        let ghost sv = sorted@.map_values(|u: usize| u as int);
        proof {
            assert(sv.subrange(0, ci + 1).drop_last() =~= sv.subrange(0, ci as int));
            assert(sv.subrange(0, ci + 1).last() == idx as int);
        }
        match alist_get(&stylesheet.rules[idx].declarations, &color_key) {
            Some(v) => {
                style.color = Some(v.clone());
            },
            None => {},
        }
        ci = ci + 1;
    }
    proof {
        let sv = sorted@.map_values(|u: usize| u as int);
        assert(sv.subrange(0, n_sorted as int) =~= sv);
    }
    style
}

/// A node of the styled mirror of the document tree: the node, its computed
/// style, and its styled children.
#[derive(Debug)]
pub struct StyledNode<'a> {
    pub node: &'a Node,
    pub specified_values: ComputedStyle,
    pub children: Vec<StyledNode<'a>>,
}

/// Whether `sn` is the styled mirror of the subtree of `d` at `idx` under
/// sheet `ss`: the node itself, the cascade's computed style, and mirrored
/// children in order.
pub open spec fn styled_ok(sn: StyledNode, d: Document, idx: int, ss: StyleSheet) -> bool
    decreases sn,
{
    &&& 0 <= idx < d.nodes@.len()
    &&& *sn.node == d.nodes@[idx]
    &&& style_fields(sn.specified_values, d.nodes@[idx], ss)
    &&& sn.children@.len() == d.nodes@[idx].children@.len()
    &&& forall|k: int|
        0 <= k < sn.children@.len() ==> styled_ok(
            #[trigger] sn.children@[k],
            d,
            d.nodes@[idx].children@[k] as int,
            ss,
        )
}

/// Build the styled mirror of the subtree of `document` rooted at
/// `node_idx`, resolving every node's style against the sheet.
pub fn style_tree<'a>(
    document: &'a Document,
    node_idx: usize,
    stylesheet: &'a StyleSheet,
) -> (r: StyledNode<'a>)
    requires
        document.wf(),
        node_idx < document.nodes@.len(),
    ensures
        styled_ok(r, *document, node_idx as int, *stylesheet),
    decreases document.nodes@.len() - node_idx,
{
    proof {
        assert(node_wf(
            document.nodes@[node_idx as int],
            node_idx as int,
            document.nodes@.len() as int,
        ));
    }
    let node = &document.nodes[node_idx];
    let specified = specified_values(node, stylesheet);
    let mut children: Vec<StyledNode<'a>> = Vec::new();
    let n_children = node.children.len();
    let mut k: usize = 0;
    while k < n_children
        invariant
            document.wf(),
            node_idx < document.nodes@.len(),
            n_children == document.nodes@[node_idx as int].children@.len(),
            k <= n_children,
            node == &document.nodes@[node_idx as int],
            children@.len() == k,
            forall|q: int|
                0 <= q < k ==> styled_ok(
                    #[trigger] children@[q],
                    *document,
                    document.nodes@[node_idx as int].children@[q] as int,
                    *stylesheet,
                ),
        decreases n_children - k,
    {
        proof {
            assert(node_wf(
                document.nodes@[node_idx as int],
                node_idx as int,
                document.nodes@.len() as int,
            ));
        }
        let child_idx = node.children[k];
        let styled_child = style_tree(document, child_idx, stylesheet);
        children.push(styled_child);
        k = k + 1;
    }
    StyledNode { node, specified_values: specified, children }
}

} // verus!
