//! The layout engine: a recursive, single-pass box-model/flex algorithm that
//! writes a geometry record onto every node it visits.
//!
//! The pass is specified by a fold over the arena: [`lay_node`] says, for the
//! document's structure, the styles, and the layout column before the pass,
//! exactly which layout column the pass leaves behind.

use vstd::prelude::*;
use crate::css::{clamp_i64, clamp_len, resolve_len, trunc_div, CSSValue, ComputedStyle, LEN_LIMIT};
use crate::dom::{node_wf, Display, Document, Layout, Node, NodeType};

verus! {

/// The larger of two integers.
pub open spec fn smax(a: int, b: int) -> int {
    if a >= b {
        a
    } else {
        b
    }
}

/// What an optional CSS length resolves to: absent values resolve to zero.
pub open spec fn resolve_opt(v: Option<CSSValue>, reference: int) -> int {
    match v {
        Some(c) => resolve_len(c, reference),
        None => 0,
    }
}

/// The resolved font size: the `font-size` value against a 16-pixel
/// reference, or 16 pixels when unset.
pub open spec fn spec_font_size(style: ComputedStyle) -> int {
    match style.font_size {
        Some(v) => resolve_len(v, 1600),
        None => 1600,
    }
}

/// The border-box width: the explicit width resolved against the parent
/// content width; defaulting, for block display, to the parent content width
/// but no less than 100 pixels, and to 100 pixels otherwise.
pub open spec fn spec_width(style: ComputedStyle, pw: int) -> int {
    match style.width {
        Some(v) => resolve_len(v, pw),
        None => match style.display {
            Display::Block => smax(pw, 10000),
            _ => 10000,
        },
    }
}

/// The border-box height: the explicit height resolved against the parent
/// content height; defaulting, for a text node, to one and a half times the
/// font size, and to 100 pixels otherwise.
pub open spec fn spec_height(style: ComputedStyle, ph: int, is_text: bool) -> int {
    match style.height {
        Some(v) => resolve_len(v, ph),
        None => if is_text {
            clamp_len(trunc_div(spec_font_size(style) * 3, 2))
        } else {
            10000
        },
    }
}

/// The content length on one axis: the border-box length minus the two
/// paddings and twice the border width, clamped at zero (and at the
/// representable maximum).
pub open spec fn spec_content(len: int, pad_a: int, pad_b: int, bw: int) -> int {
    clamp_len(smax(len - pad_a - pad_b - 2 * bw, 0))
}

/// The geometry record the pass writes for one node, given its style,
/// whether it is a text node, and the parent's content-box dimensions.
pub open spec fn node_layout_spec(style: ComputedStyle, is_text: bool, pw: int, ph: int) -> Layout {
    let width = spec_width(style, pw);
    let height = spec_height(style, ph, is_text);
    let pt = resolve_opt(style.padding_top, pw);
    let pr = resolve_opt(style.padding_right, pw);
    let pb = resolve_opt(style.padding_bottom, pw);
    let pl = resolve_opt(style.padding_left, pw);
    let mt = resolve_opt(style.margin_top, pw);
    let mr = resolve_opt(style.margin_right, pw);
    let mb = resolve_opt(style.margin_bottom, pw);
    let ml = resolve_opt(style.margin_left, pw);
    let bw = resolve_opt(style.border_width, pw);
    Layout {
        x: ml as i64,
        y: mt as i64,
        width: width as i64,
        height: height as i64,
        content_width: spec_content(width, pl, pr, bw) as i64,
        content_height: spec_content(height, pt, pb, bw) as i64,
        padding_top: pt as i64,
        padding_right: pr as i64,
        padding_bottom: pb as i64,
        padding_left: pl as i64,
        margin_top: mt as i64,
        margin_right: mr as i64,
        margin_bottom: mb as i64,
        margin_left: ml as i64,
        border_width: bw as i64,
        font_size: spec_font_size(style) as i64,
        display: style.display,
    }
}

/// The child-index table of the arena.
pub open spec fn doc_kids(nodes: Seq<Node>) -> Seq<Seq<usize>> {
    nodes.map_values(|n: Node| n.children@)
}

/// Which nodes of the arena are text nodes.
pub open spec fn doc_istext(nodes: Seq<Node>) -> Seq<bool> {
    nodes.map_values(|n: Node| n.node_type == NodeType::Text)
}

/// The layout column of the arena.
pub open spec fn lay_col(nodes: Seq<Node>) -> Seq<Option<Layout>> {
    nodes.map_values(|n: Node| n.layout)
}

/// Every child link points strictly forward and stays inside the table.
pub open spec fn kids_ok(kids: Seq<Seq<usize>>) -> bool {
    forall|i: int, j: int|
        0 <= i < kids.len() && 0 <= j < kids[i].len() ==> i < #[trigger] kids[i][j] < kids.len()
}

/// The layout column after the pass visits node `i` against parent content
/// dimensions `pw`, `ph`: the node's own record is written, then its
/// children are visited against its content box, by the flex rule when its
/// display is flex.
pub open spec fn lay_node(
    kids: Seq<Seq<usize>>,
    istext: Seq<bool>,
    styles: Seq<ComputedStyle>,
    lays: Seq<Option<Layout>>,
    i: int,
    pw: int,
    ph: int,
) -> Seq<Option<Layout>>
    decreases kids.len() - i, 1int, 0int
        when kids_ok(kids) && 0 <= i < kids.len() via lay_node_via
{
    let l = node_layout_spec(styles[i], istext[i], pw, ph);
    let lays1 = lays.update(i, Some(l));
    if styles[i].display == Display::Flex {
        lay_flex_kids(kids, istext, styles, lays1, i, 0, l.content_width as int, l.content_height as int, 0)
    } else {
        lay_kids(kids, istext, styles, lays1, i, 0, l.content_width as int, l.content_height as int)
    }
}

/// The layout column after the pass visits the children of node `i` from
/// child position `k` on, each against the same parent content box.
pub open spec fn lay_kids(
    kids: Seq<Seq<usize>>,
    istext: Seq<bool>,
    styles: Seq<ComputedStyle>,
    lays: Seq<Option<Layout>>,
    i: int,
    k: int,
    pw: int,
    ph: int,
) -> Seq<Option<Layout>>
    decreases kids.len() - i, 0int, kids[i].len() - k
        when kids_ok(kids) && 0 <= i < kids.len() && 0 <= k via lay_kids_via
{
    if k < kids[i].len() {
        let lays1 = lay_node(kids, istext, styles, lays, kids[i][k] as int, pw, ph);
        lay_kids(kids, istext, styles, lays1, i, k + 1, pw, ph)
    } else {
        lays
    }
}

/// The layout column after the flex rule visits the children of node `i`
/// from child position `k` on: each child is laid out normally against the
/// container's content box, then its x-position is overwritten with the
/// running sum `cur_x` of the widths of its preceding siblings.
pub open spec fn lay_flex_kids(
    kids: Seq<Seq<usize>>,
    istext: Seq<bool>,
    styles: Seq<ComputedStyle>,
    lays: Seq<Option<Layout>>,
    i: int,
    k: int,
    pw: int,
    ph: int,
    cur_x: int,
) -> Seq<Option<Layout>>
    decreases kids.len() - i, 0int, kids[i].len() - k
        when kids_ok(kids) && 0 <= i < kids.len() && 0 <= k via lay_flex_kids_via
{
    if k < kids[i].len() {
        let c = kids[i][k] as int;
        let lays1 = lay_node(kids, istext, styles, lays, c, pw, ph);
        match lays1[c] {
            Some(l) => {
                let lays2 = lays1.update(c, Some(Layout { x: cur_x as i64, ..l }));
                lay_flex_kids(
                    kids,
                    istext,
                    styles,
                    lays2,
                    i,
                    k + 1,
                    pw,
                    ph,
                    clamp_len(cur_x + l.width as int),
                )
            },
            None => lay_flex_kids(kids, istext, styles, lays1, i, k + 1, pw, ph, cur_x),
        }
    } else {
        lays
    }
}

#[via_fn]
proof fn lay_node_via(
    kids: Seq<Seq<usize>>,
    istext: Seq<bool>,
    styles: Seq<ComputedStyle>,
    lays: Seq<Option<Layout>>,
    i: int,
    pw: int,
    ph: int,
) {
}

#[via_fn]
proof fn lay_kids_via(
    kids: Seq<Seq<usize>>,
    istext: Seq<bool>,
    styles: Seq<ComputedStyle>,
    lays: Seq<Option<Layout>>,
    i: int,
    k: int,
    pw: int,
    ph: int,
) {
}

#[via_fn]
proof fn lay_flex_kids_via(
    kids: Seq<Seq<usize>>,
    istext: Seq<bool>,
    styles: Seq<ComputedStyle>,
    lays: Seq<Option<Layout>>,
    i: int,
    k: int,
    pw: int,
    ph: int,
    cur_x: int,
) {
}

/// `b` equals `a` in everything but its layout record.
pub open spec fn node_same_but_layout(a: Node, b: Node) -> bool {
    &&& b.node_type == a.node_type
    &&& b.parent == a.parent
    &&& b.children == a.children
    &&& b.data == a.data
    &&& b.shadow_root == a.shadow_root
    &&& b.event_listeners == a.event_listeners
}

/// `b` is `a` with at most the layout records changed.
pub open spec fn same_struct(a: Seq<Node>, b: Seq<Node>) -> bool {
    &&& b.len() == a.len()
    &&& forall|j: int| 0 <= j < a.len() ==> node_same_but_layout(#[trigger] a[j], b[j])
}

proof fn lemma_same_struct_tables(a: Seq<Node>, b: Seq<Node>)
    requires
        same_struct(a, b),
    ensures
        doc_kids(b) == doc_kids(a),
        doc_istext(b) == doc_istext(a),
    decreases a.len(),
{
    assert(doc_kids(b) =~= doc_kids(a)) by {
        assert forall|j: int| 0 <= j < a.len() implies doc_kids(b)[j] == doc_kids(a)[j] by {
            assert(node_same_but_layout(a[j], b[j]));
        }
    }
    assert(doc_istext(b) =~= doc_istext(a)) by {
        assert forall|j: int| 0 <= j < a.len() implies doc_istext(b)[j] == doc_istext(a)[j] by {
            assert(node_same_but_layout(a[j], b[j]));
        }
    }
}

proof fn lemma_lay_node_frame(
    kids: Seq<Seq<usize>>,
    istext: Seq<bool>,
    styles: Seq<ComputedStyle>,
    lays: Seq<Option<Layout>>,
    i: int,
    pw: int,
    ph: int,
)
    requires
        kids_ok(kids),
        0 <= i < kids.len(),
        lays.len() == kids.len(),
    ensures
        lay_node(kids, istext, styles, lays, i, pw, ph).len() == lays.len(),
        forall|j: int|
            0 <= j < i ==> #[trigger] lay_node(kids, istext, styles, lays, i, pw, ph)[j] == lays[j],
        lay_node(kids, istext, styles, lays, i, pw, ph)[i] == Some(
            node_layout_spec(styles[i], istext[i], pw, ph),
        ),
    decreases kids.len() - i, 1int, 0int,
{
    let l = node_layout_spec(styles[i], istext[i], pw, ph);
    let lays1 = lays.update(i, Some(l));
    if styles[i].display == Display::Flex {
        lemma_lay_flex_kids_frame(
            kids,
            istext,
            styles,
            lays1,
            i,
            0,
            l.content_width as int,
            l.content_height as int,
            0,
        );
    } else {
        lemma_lay_kids_frame(
            kids,
            istext,
            styles,
            lays1,
            i,
            0,
            l.content_width as int,
            l.content_height as int,
        );
    }
}

proof fn lemma_lay_kids_frame(
    kids: Seq<Seq<usize>>,
    istext: Seq<bool>,
    styles: Seq<ComputedStyle>,
    lays: Seq<Option<Layout>>,
    i: int,
    k: int,
    pw: int,
    ph: int,
)
    requires
        kids_ok(kids),
        0 <= i < kids.len(),
        0 <= k,
        lays.len() == kids.len(),
    ensures
        lay_kids(kids, istext, styles, lays, i, k, pw, ph).len() == lays.len(),
        forall|j: int|
            0 <= j <= i ==> #[trigger] lay_kids(kids, istext, styles, lays, i, k, pw, ph)[j]
                == lays[j],
    decreases kids.len() - i, 0int, kids[i].len() - k,
{
    if k < kids[i].len() {
        let c = kids[i][k] as int;
        lemma_lay_node_frame(kids, istext, styles, lays, c, pw, ph);
        let lays1 = lay_node(kids, istext, styles, lays, c, pw, ph);
        lemma_lay_kids_frame(kids, istext, styles, lays1, i, k + 1, pw, ph);
    }
}

proof fn lemma_lay_flex_kids_frame(
    kids: Seq<Seq<usize>>,
    istext: Seq<bool>,
    styles: Seq<ComputedStyle>,
    lays: Seq<Option<Layout>>,
    i: int,
    k: int,
    pw: int,
    ph: int,
    cur_x: int,
)
    requires
        kids_ok(kids),
        0 <= i < kids.len(),
        0 <= k,
        lays.len() == kids.len(),
    ensures
        lay_flex_kids(kids, istext, styles, lays, i, k, pw, ph, cur_x).len() == lays.len(),
        forall|j: int|
            0 <= j <= i ==> #[trigger] lay_flex_kids(kids, istext, styles, lays, i, k, pw, ph, cur_x)[j]
                == lays[j],
    decreases kids.len() - i, 0int, kids[i].len() - k,
{
    if k < kids[i].len() {
        let c = kids[i][k] as int;
        lemma_lay_node_frame(kids, istext, styles, lays, c, pw, ph);
        let lays1 = lay_node(kids, istext, styles, lays, c, pw, ph);
        match lays1[c] {
            Some(l) => {
                let lays2 = lays1.update(c, Some(Layout { x: cur_x as i64, ..l }));
                lemma_lay_flex_kids_frame(
                    kids,
                    istext,
                    styles,
                    lays2,
                    i,
                    k + 1,
                    pw,
                    ph,
                    clamp_len(cur_x + l.width as int),
                );
            },
            None => {
                lemma_lay_flex_kids_frame(kids, istext, styles, lays1, i, k + 1, pw, ph, cur_x);
            },
        }
    }
}

/// Resolve an optional CSS length, absent meaning zero.
fn opt_pixels(v: &Option<CSSValue>, reference: i64) -> (r: i64)
    ensures
        r == resolve_opt(*v, reference as int),
        -(LEN_LIMIT as int) <= r as int <= LEN_LIMIT as int,
{
    match v {
        Some(c) => c.as_pixels(reference),
        None => 0,
    }
}

/// The resolved font size of a style, 16 pixels when unset.
fn font_pixels(v: &Option<CSSValue>) -> (r: i64)
    ensures
        r == match *v {
            Some(c) => resolve_len(c, 1600),
            None => 1600int,
        },
        -(LEN_LIMIT as int) <= r as int <= LEN_LIMIT as int,
{
    match v {
        Some(c) => c.as_pixels(1600),
        None => 1600,
    }
}

/// One axis of the content box.
fn content_pixels(len: i64, pad_a: i64, pad_b: i64, bw: i64) -> (r: i64)
    requires
        -(LEN_LIMIT as int) <= len as int <= LEN_LIMIT as int,
        -(LEN_LIMIT as int) <= pad_a as int <= LEN_LIMIT as int,
        -(LEN_LIMIT as int) <= pad_b as int <= LEN_LIMIT as int,
        -(LEN_LIMIT as int) <= bw as int <= LEN_LIMIT as int,
    ensures
        r == spec_content(len as int, pad_a as int, pad_b as int, bw as int),
        0 <= r as int <= LEN_LIMIT as int,
{
    let raw = len - pad_a - pad_b - 2 * bw;
    let nonneg = if raw >= 0 {
        raw
    } else {
        0
    };
    clamp_i64(nonneg)
}

/// The saturating sum of two resolved lengths.
fn clamp_add(a: i64, b: i64) -> (r: i64)
    requires
        -(LEN_LIMIT as int) <= a as int <= LEN_LIMIT as int,
        -(LEN_LIMIT as int) <= b as int <= LEN_LIMIT as int,
    ensures
        r == clamp_len(a as int + b as int),
        -(LEN_LIMIT as int) <= r as int <= LEN_LIMIT as int,
{
    clamp_i64(a + b)
}

/// The border-box width and height of a node, by the defaulting rules of
/// [`spec_width`] and [`spec_height`].
pub fn calculate_dimensions(
    style: &ComputedStyle,
    parent_width: i64,
    parent_height: i64,
    node: &Node,
) -> (r: (i64, i64))
    requires
        -(LEN_LIMIT as int) <= parent_width as int <= LEN_LIMIT as int,
    ensures
        r.0 == spec_width(*style, parent_width as int),
        r.1 == spec_height(*style, parent_height as int, node.node_type == NodeType::Text),
        -(LEN_LIMIT as int) <= r.0 as int <= LEN_LIMIT as int,
        -(LEN_LIMIT as int) <= r.1 as int <= LEN_LIMIT as int,
{
    let width: i64 = match &style.width {
        Some(v) => v.as_pixels(parent_width),
        None => {
            match style.display {
                Display::Block => {
                    if parent_width >= 10000 {
                        parent_width
                    } else {
                        10000
                    }
                },
                _ => 10000,
            }
        },
    };
    let height: i64 = match &style.height {
        Some(v) => v.as_pixels(parent_height),
        None => {
            if node.node_type == NodeType::Text {
                let font = font_pixels(&style.font_size);
                let tripled = font * 3;
                let half = if tripled >= 0 {
                    tripled / 2
                } else {
                    -((-tripled) / 2)
                };
                clamp_i64(half)
            } else {
                10000
            }
        },
    };
    (width, height)
}

/// Compute layout for every node reachable from the root, against the
/// given viewport dimensions; every other part of every node is left as
/// it was.
pub fn calculate_layout(document: &mut Document, viewport_width: i64, viewport_height: i64)
    requires
        old(document).wf(),
    ensures
        final(document).wf(),
        final(document).root == old(document).root,
        same_struct(old(document).nodes@, final(document).nodes@),
        lay_col(final(document).nodes@) == lay_node(
            doc_kids(old(document).nodes@),
            doc_istext(old(document).nodes@),
            Seq::new(old(document).nodes@.len(), |i: int| default_style()),
            lay_col(old(document).nodes@),
            0,
            clamp_len(viewport_width as int),
            clamp_len(viewport_height as int),
        ),
{
    if document.nodes.len() == 0 {
        return ;
    }
    let n = document.nodes.len();
    let mut styles: Vec<ComputedStyle> = Vec::new();
    while styles.len() < n
        invariant
            styles@.len() <= n,
            styles@ =~= Seq::new(styles@.len() as nat, |i: int| default_style()),
        decreases n - styles@.len(),
    {
        styles.push(ComputedStyle::default());
        assert(styles@ =~= Seq::new(styles@.len() as nat, |i: int| default_style()));
    }
    let root = document.root;
    let vw = clamp_i64(viewport_width);
    let vh = clamp_i64(viewport_height);
    calculate_layout_recursive(document, root, &styles, vw, vh);
}

/// Lay out the subtree rooted at `node_idx` against the parent content
/// box `parent_width` by `parent_height`, using `styles` as the per-node
/// computed styles.
pub fn calculate_layout_recursive(
    document: &mut Document,
    node_idx: usize,
    styles: &Vec<ComputedStyle>,
    parent_width: i64,
    parent_height: i64,
)
    requires
        old(document).wf(),
        node_idx < old(document).nodes@.len(),
        styles@.len() == old(document).nodes@.len(),
        -(LEN_LIMIT as int) <= parent_width as int <= LEN_LIMIT as int,
        -(LEN_LIMIT as int) <= parent_height as int <= LEN_LIMIT as int,
    ensures
        final(document).wf(),
        final(document).root == old(document).root,
        same_struct(old(document).nodes@, final(document).nodes@),
        lay_col(final(document).nodes@) == lay_node(
            doc_kids(old(document).nodes@),
            doc_istext(old(document).nodes@),
            styles@,
            lay_col(old(document).nodes@),
            node_idx as int,
            parent_width as int,
            parent_height as int,
        ),
    decreases old(document).nodes@.len() - node_idx,
{
    let ghost d0 = *document;
    let ghost kids0 = doc_kids(d0.nodes@);
    let ghost istext0 = doc_istext(d0.nodes@);
    let ghost i = node_idx as int;
    proof {
        assert(node_wf(d0.nodes@[i], i, d0.nodes@.len() as int));
        assert(kids_ok(kids0)) by {
            assert forall|a: int, b: int|
                0 <= a < kids0.len() && 0 <= b < kids0[a].len() implies a
                < #[trigger] kids0[a][b] < kids0.len() by {
                assert(node_wf(d0.nodes@[a], a, d0.nodes@.len() as int));
                assert(kids0[a] == d0.nodes@[a].children@);
            }
        }
    }
    let style = &styles[node_idx];
    let dims = calculate_dimensions(
        style,
        parent_width,
        parent_height,
        &document.nodes[node_idx],
    );
    let width = dims.0;
    let height = dims.1;
    let padding_top = opt_pixels(&style.padding_top, parent_width);
    let padding_right = opt_pixels(&style.padding_right, parent_width);
    let padding_bottom = opt_pixels(&style.padding_bottom, parent_width);
    let padding_left = opt_pixels(&style.padding_left, parent_width);
    let margin_top = opt_pixels(&style.margin_top, parent_width);
    let margin_right = opt_pixels(&style.margin_right, parent_width);
    let margin_bottom = opt_pixels(&style.margin_bottom, parent_width);
    let margin_left = opt_pixels(&style.margin_left, parent_width);
    let border_width = opt_pixels(&style.border_width, parent_width);
    let content_width = content_pixels(width, padding_left, padding_right, border_width);
    let content_height = content_pixels(height, padding_top, padding_bottom, border_width);
    let font_size = font_pixels(&style.font_size);
    let layout = Layout {
        x: margin_left,
        y: margin_top,
        width,
        height,
        content_width,
        content_height,
        padding_top,
        padding_right,
        padding_bottom,
        padding_left,
        margin_top,
        margin_right,
        margin_bottom,
        margin_left,
        border_width,
        font_size,
        display: style.display,
    };
    let ghost l_spec = node_layout_spec(styles@[i], istext0[i], parent_width as int, parent_height as int);
    proof {
        assert(istext0[i] == (d0.nodes@[i].node_type == NodeType::Text));
        assert(layout == l_spec);
    }
    document.nodes[node_idx].layout = Some(layout);
    let ghost lays1 = lay_col(d0.nodes@).update(i, Some(l_spec));
    proof {
        assert(lay_col(document.nodes@) =~= lays1);
        assert(same_struct(d0.nodes@, document.nodes@));
        assert forall|j: int|
            0 <= j < document.nodes@.len() implies node_wf(
            #[trigger] document.nodes@[j],
            j,
            document.nodes@.len() as int,
        ) by {
            assert(node_wf(d0.nodes@[j], j, d0.nodes@.len() as int));
            if j != i {
                assert(document.nodes@[j] == d0.nodes@[j]);
            }
        }
    }
    let is_flex = match style.display {
        Display::Flex => true,
        _ => false,
    };
    let n_children = document.nodes[node_idx].children.len();
    if is_flex {
        let ghost cw = content_width as int;
        let ghost ch = content_height as int;
        let ghost target = lay_flex_kids(kids0, istext0, styles@, lays1, i, 0, cw, ch, 0);
        let mut cur_x: i64 = 0;
        let mut k: usize = 0;
        while k < n_children
            invariant
                d0 == *old(document),
                document.wf(),
                document.root == d0.root,
                node_idx < document.nodes@.len(),
                styles@.len() == document.nodes@.len(),
                n_children == kids0[i].len(),
                i == node_idx as int,
                k <= n_children,
                kids_ok(kids0),
                same_struct(d0.nodes@, document.nodes@),
                doc_kids(document.nodes@) == kids0,
                doc_istext(document.nodes@) == istext0,
                -(LEN_LIMIT as int) <= cur_x as int <= LEN_LIMIT as int,
                content_width as int == cw,
                content_height as int == ch,
                0 <= cw <= LEN_LIMIT as int,
                0 <= ch <= LEN_LIMIT as int,
                lay_flex_kids(
                    kids0,
                    istext0,
                    styles@,
                    lay_col(document.nodes@),
                    i,
                    k as int,
                    cw,
                    ch,
                    cur_x as int,
                ) == target,
            decreases n_children - k,
        {
            let child = document.nodes[node_idx].children[k];
            proof {
                assert(kids0[i][k as int] == child);
                assert(i < kids0[i][k as int] < kids0.len());
                assert(document.nodes@.len() == d0.nodes@.len());
                lemma_lay_node_frame(
                    kids0,
                    istext0,
                    styles@,
                    lay_col(document.nodes@),
                    child as int,
                    cw,
                    ch,
                );
            }
            let ghost col_pre = lay_col(document.nodes@);
            let ghost d_pre = *document;
            calculate_layout_recursive(document, child, styles, content_width, content_height);
            proof {
                lemma_same_struct_tables(d_pre.nodes@, document.nodes@);
                assert(lay_col(document.nodes@) == lay_node(
                    kids0,
                    istext0,
                    styles@,
                    col_pre,
                    child as int,
                    cw,
                    ch,
                ));
            }
            let ghost lays_a = lay_col(document.nodes@);
            let ghost child_l = node_layout_spec(styles@[child as int], istext0[child as int], cw, ch);
            proof {
                assert(lays_a[child as int] == Some(child_l));
            }
            let mut child_width: i64 = 0;
            match &mut document.nodes[child].layout {
                Some(cl) => {
                    cl.x = cur_x;
                    child_width = cl.width;
                },
                None => {
                    proof {
                        assert(false);
                    }
                },
            }
            proof {
                assert(child_width == child_l.width);
                assert(lay_col(document.nodes@) =~= lays_a.update(
                    child as int,
                    Some(Layout { x: cur_x, ..child_l }),
                ));
                assert(same_struct(d0.nodes@, document.nodes@));
                lemma_same_struct_tables(d0.nodes@, document.nodes@);
                assert forall|j: int|
                    0 <= j < document.nodes@.len() implies node_wf(
                    #[trigger] document.nodes@[j],
                    j,
                    document.nodes@.len() as int,
                ) by {
                    assert(node_wf(d0.nodes@[j], j, d0.nodes@.len() as int));
                    assert(node_same_but_layout(d0.nodes@[j], document.nodes@[j]));
                }
                assert(lay_flex_kids(
                    kids0,
                    istext0,
                    styles@,
                    col_pre,
                    i,
                    k as int,
                    cw,
                    ch,
                    cur_x as int,
                ) == lay_flex_kids(
                    kids0,
                    istext0,
                    styles@,
                    lay_col(document.nodes@),
                    i,
                    k as int + 1,
                    cw,
                    ch,
                    clamp_len(cur_x as int + child_l.width as int),
                ));
            }
            let new_x = clamp_add(cur_x, child_width);
            cur_x = new_x;
            k = k + 1;
        }
        proof {
            assert(lay_flex_kids(
                kids0,
                istext0,
                styles@,
                lay_col(document.nodes@),
                i,
                n_children as int,
                cw,
                ch,
                cur_x as int,
            ) == lay_col(document.nodes@));
        }
    } else {
        let ghost cw = content_width as int;
        let ghost ch = content_height as int;
        let ghost target = lay_kids(kids0, istext0, styles@, lays1, i, 0, cw, ch);
        let mut k: usize = 0;
        while k < n_children
            invariant
                d0 == *old(document),
                document.wf(),
                document.root == d0.root,
                node_idx < document.nodes@.len(),
                styles@.len() == document.nodes@.len(),
                n_children == kids0[i].len(),
                i == node_idx as int,
                k <= n_children,
                kids_ok(kids0),
                same_struct(d0.nodes@, document.nodes@),
                doc_kids(document.nodes@) == kids0,
                doc_istext(document.nodes@) == istext0,
                content_width as int == cw,
                content_height as int == ch,
                0 <= cw <= LEN_LIMIT as int,
                0 <= ch <= LEN_LIMIT as int,
                lay_kids(kids0, istext0, styles@, lay_col(document.nodes@), i, k as int, cw, ch)
                    == target,
            decreases n_children - k,
        {
            let child = document.nodes[node_idx].children[k];
            proof {
                assert(kids0[i][k as int] == child);
                assert(i < kids0[i][k as int] < kids0.len());
                assert(document.nodes@.len() == d0.nodes@.len());
            }
            let ghost col_pre = lay_col(document.nodes@);
            let ghost d_pre = *document;
            calculate_layout_recursive(document, child, styles, content_width, content_height);
            proof {
                lemma_same_struct_tables(d_pre.nodes@, document.nodes@);
                assert(lay_col(document.nodes@) == lay_node(
                    kids0,
                    istext0,
                    styles@,
                    col_pre,
                    child as int,
                    cw,
                    ch,
                ));
                assert(lay_kids(kids0, istext0, styles@, col_pre, i, k as int, cw, ch)
                    == lay_kids(
                    kids0,
                    istext0,
                    styles@,
                    lay_col(document.nodes@),
                    i,
                    k as int + 1,
                    cw,
                    ch,
                ));
            }
            k = k + 1;
        }
        proof {
            assert(lay_kids(
                kids0,
                istext0,
                styles@,
                lay_col(document.nodes@),
                i,
                n_children as int,
                cw,
                ch,
            ) == lay_col(document.nodes@));
        }
    }
}

/// The style every node starts from: everything unset, display block, font
/// size 16 pixels.
pub open spec fn default_style() -> ComputedStyle {
    ComputedStyle {
        width: None,
        height: None,
        padding_top: None,
        padding_right: None,
        padding_bottom: None,
        padding_left: None,
        margin_top: None,
        margin_right: None,
        margin_bottom: None,
        margin_left: None,
        border_width: None,
        border_color: None,
        display: Display::Block,
        font_size: Some(CSSValue::Pixels(1600)),
        color: None,
        background_color: None,
    }
}

/// For every laid-out node, the content width is the border-box width minus
/// the left and right paddings and twice the border width, clamped at zero —
/// also when the raw subtraction would be negative.
pub proof fn lemma_content_width(style: ComputedStyle, is_text: bool, pw: int, ph: int)
    requires
        -(LEN_LIMIT as int) <= pw <= LEN_LIMIT as int,
        spec_width(style, pw) - resolve_opt(style.padding_left, pw) - resolve_opt(
            style.padding_right,
            pw,
        ) - 2 * resolve_opt(style.border_width, pw) <= LEN_LIMIT as int,
    ensures
        node_layout_spec(style, is_text, pw, ph).content_width as int == smax(
            spec_width(style, pw) - resolve_opt(style.padding_left, pw) - resolve_opt(
                style.padding_right,
                pw,
            ) - 2 * resolve_opt(style.border_width, pw),
            0,
        ),
{
}

} // verus!
