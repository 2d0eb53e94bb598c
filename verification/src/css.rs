//! Style values and the style-sheet parser.
//!
//! Lengths are fixed-point numbers in hundredths of a pixel (see
//! [`crate::dom::PX`]); resolved lengths are clamped into
//! `[-LEN_LIMIT, LEN_LIMIT]` so that every box-model sum stays representable.

use vstd::prelude::*;
use crate::dom::{attr_lookup, Display};
use crate::parser::scan_until;
use crate::text::{
    char_is_whitespace, chars_to_string, pairs_map, str_to_chars, trim_chars, trim_spec,
    white_space,
};

verus! {

/// The largest magnitude a resolved length can take, in hundredths of a
/// pixel.
pub const LEN_LIMIT: i64 = 0x800_0000_0000_0000;

/// A CSS length: absolute, relative to a caller-supplied reference length,
/// or one of the two keywords that this engine resolves to zero.
#[derive(Debug, PartialEq, Eq, Structural, Clone, Copy)]
pub enum CSSValue {
    /// Hundredths of a pixel.
    Pixels(i64),
    /// Hundredths of a percent.
    Percentage(i64),
    Auto,
    Inherit,
}

/// `x` clamped into `[-LEN_LIMIT, LEN_LIMIT]`.
pub open spec fn clamp_len(x: int) -> int {
    if x > LEN_LIMIT as int {
        LEN_LIMIT as int
    } else if x < -(LEN_LIMIT as int) {
        -(LEN_LIMIT as int)
    } else {
        x
    }
}

/// Division truncating toward zero, as machine signed division rounds.
pub open spec fn trunc_div(a: int, b: int) -> int
    recommends
        b > 0,
{
    if a >= 0 {
        a / b
    } else {
        -((-a) / b)
    }
}

/// What a CSS value resolves to against `reference`: pixels stand for
/// themselves, a percentage takes its share of the reference length, and
/// `auto` and `inherit` resolve to zero.
pub open spec fn resolve_len(v: CSSValue, reference: int) -> int {
    match v {
        CSSValue::Pixels(px) => clamp_len(px as int),
        CSSValue::Percentage(pct) => clamp_len(trunc_div(reference * pct, 10000)),
        CSSValue::Auto => 0,
        CSSValue::Inherit => 0,
    }
}

impl CSSValue {
    /// Resolve this value against `reference`.
    pub fn as_pixels(&self, reference: i64) -> (r: i64)
        ensures
            r == resolve_len(*self, reference as int),
            -(LEN_LIMIT as int) <= r <= LEN_LIMIT as int,
    {
        match self {
            CSSValue::Pixels(px) => clamp_i64(*px),
            CSSValue::Percentage(pct) => mul_pct(reference, *pct),
            CSSValue::Auto => 0,
            CSSValue::Inherit => 0,
        }
    }
}

/// `x` clamped into `[-LEN_LIMIT, LEN_LIMIT]`.
pub fn clamp_i64(x: i64) -> (r: i64)
    ensures
        r == clamp_len(x as int),
{
    if x > LEN_LIMIT {
        LEN_LIMIT
    } else if x < -LEN_LIMIT {
        -LEN_LIMIT
    } else {
        x
    }
}

/// The clamped share `a * b / 10000`, truncated toward zero.
fn mul_pct(a: i64, b: i64) -> (r: i64)
    ensures
        r == clamp_len(trunc_div(a as int * b as int, 10000)),
{
    let a128: i128 = a as i128;
    let b128: i128 = b as i128;
    let neg: bool = (a < 0) != (b < 0);
    let am: u128 = if a128 < 0 {
        (-a128) as u128
    } else {
        a128 as u128
    };
    let bm: u128 = if b128 < 0 {
        (-b128) as u128
    } else {
        b128 as u128
    };
    proof {
        assert(am <= 0x8000_0000_0000_0000u128);
        assert(bm <= 0x8000_0000_0000_0000u128);
        assert(am * bm <= 0x8000_0000_0000_0000u128 * 0x8000_0000_0000_0000u128) by (nonlinear_arith)
            requires
                am <= 0x8000_0000_0000_0000u128,
                bm <= 0x8000_0000_0000_0000u128,
        ;
    }
    let mag: u128 = am * bm;
    proof {
        let prod = a as int * b as int;
        if a >= 0 && b >= 0 {
            assert(prod == am * bm) by (nonlinear_arith)
                requires
                    a >= 0,
                    b >= 0,
                    am == a as int,
                    bm == b as int,
                    prod == a as int * b as int,
            ;
        } else if a < 0 && b < 0 {
            assert(prod == am * bm) by (nonlinear_arith)
                requires
                    a < 0,
                    b < 0,
                    am == -(a as int),
                    bm == -(b as int),
                    prod == a as int * b as int,
            ;
        } else if a < 0 && b >= 0 {
            assert(prod == -(am * bm)) by (nonlinear_arith)
                requires
                    a < 0,
                    b >= 0,
                    am == -(a as int),
                    bm == b as int,
                    prod == a as int * b as int,
            ;
        } else {
            assert(prod == -(am * bm)) by (nonlinear_arith)
                requires
                    a >= 0,
                    b < 0,
                    am == a as int,
                    bm == -(b as int),
                    prod == a as int * b as int,
            ;
        }
    }
    let q: u128 = mag / 10000;
    let clamped: i64 = if q > (LEN_LIMIT as u128) {
        LEN_LIMIT
    } else {
        q as i64
    };
    let r: i64 = if neg {
        -clamped
    } else {
        clamped
    };
    proof {
        let prod = a as int * b as int;
        if neg && mag == 0 {
            assert(prod == 0);
        }
        if prod >= 0 {
            assert(mag == prod);
            assert(trunc_div(prod, 10000) == prod / 10000);
        } else {
            assert(mag == -prod);
            assert(trunc_div(prod, 10000) == -((-prod) / 10000));
        }
    }
    r
}

/// Per-node resolved property set: the layout input built by the cascade
/// resolver.
#[derive(Debug, PartialEq, Clone)]
pub struct ComputedStyle {
    pub width: Option<CSSValue>,
    pub height: Option<CSSValue>,
    pub padding_top: Option<CSSValue>,
    pub padding_right: Option<CSSValue>,
    pub padding_bottom: Option<CSSValue>,
    pub padding_left: Option<CSSValue>,
    pub margin_top: Option<CSSValue>,
    pub margin_right: Option<CSSValue>,
    pub margin_bottom: Option<CSSValue>,
    pub margin_left: Option<CSSValue>,
    pub border_width: Option<CSSValue>,
    pub border_color: Option<String>,
    pub display: Display,
    pub font_size: Option<CSSValue>,
    pub color: Option<String>,
    pub background_color: Option<String>,
}

impl Default for ComputedStyle {
    /// Everything unset, display block, font size 16 pixels.
    fn default() -> (r: Self)
        ensures
            r.width is None,
            r.height is None,
            r.padding_top is None,
            r.padding_right is None,
            r.padding_bottom is None,
            r.padding_left is None,
            r.margin_top is None,
            r.margin_right is None,
            r.margin_bottom is None,
            r.margin_left is None,
            r.border_width is None,
            r.border_color is None,
            r.display == Display::Block,
            r.font_size == Some(CSSValue::Pixels(1600)),
            r.color is None,
            r.background_color is None,
    {
        ComputedStyle {
            width: None,
            height: None,
            padding_top: None,
            padding_right: None,
            padding_bottom: None,
            padding_left: None,
            margin_top: None,
            margin_right: None,
            margin_bottom: None,
            margin_left: None,
            border_width: None,
            border_color: None,
            display: Display::Block,
            font_size: Some(CSSValue::Pixels(1600)),
            color: None,
            background_color: None,
        }
    }
}

/// A percentage value of `p` hundredths of a percent against a nonnegative
/// reference length `w` resolves to `w * p / 10000`, which in pixels is the
/// reference times the percentage over one hundred.
pub proof fn lemma_percentage_resolution(w: int, p: int)
    requires
        0 <= w,
        0 <= p <= i64::MAX as int,
        w * p <= 10000 * (LEN_LIMIT as int),
    ensures
        resolve_len(CSSValue::Percentage(p as i64), w) == w * p / 10000,
{
    let prod = w * p;
    assert(prod >= 0) by (nonlinear_arith)
        requires
            w >= 0,
            p >= 0,
            prod == w * p,
    ;
    assert(trunc_div(prod, 10000) == prod / 10000);
    assert(prod / 10000 <= LEN_LIMIT as int) by {
        assert(prod <= 10000 * (LEN_LIMIT as int));
        assert(prod / 10000 <= (10000 * (LEN_LIMIT as int)) / 10000) by (nonlinear_arith)
            requires
                prod <= 10000 * (LEN_LIMIT as int),
                prod >= 0,
        ;
        assert((10000 * (LEN_LIMIT as int)) / 10000 == LEN_LIMIT as int);
    }
    assert(prod / 10000 >= 0);
}

/// An ordered sequence of style rules.
#[derive(Debug)]
pub struct StyleSheet {
    pub rules: Vec<Rule>,
}

/// One rule: its raw selector strings and its declarations, the last value
/// written under a property name winning.
#[derive(Debug)]
pub struct Rule {
    pub selectors: Vec<String>,
    /// Declaration entries; a lookup takes the first entry with a matching
    /// key, and a repeated property updates that entry in place.
    pub declarations: Vec<(String, String)>,
}

/// The mathematical reading of one rule.
pub struct RuleView {
    pub selectors: Seq<Seq<char>>,
    pub declarations: Map<Seq<char>, Seq<char>>,
}

/// The declaration mapping an entry list holds.
pub open spec fn alist_map(s: Seq<(String, String)>) -> Map<Seq<char>, Seq<char>> {
    Map::new(
        |k: Seq<char>| attr_lookup(s, k) is Some,
        |k: Seq<char>| attr_lookup(s, k)->0,
    )
}

/// The mathematical reading of a rule value.
pub open spec fn rule_view(r: Rule) -> RuleView {
    RuleView {
        selectors: r.selectors@.map_values(|x: String| x@),
        declarations: alist_map(r.declarations@),
    }
}

/// The mathematical reading of a style sheet.
pub open spec fn sheet_view(ss: StyleSheet) -> Seq<RuleView> {
    ss.rules@.map_values(|r: Rule| rule_view(r))
}

/// The selector list flushed at the end of a scan: the trimmed pending text,
/// when any of it is left.
pub open spec fn sel_flush(cur: Seq<char>) -> Seq<Seq<char>> {
    if trim_spec(cur).len() > 0 {
        seq![trim_spec(cur)]
    } else {
        Seq::empty()
    }
}

/// The comma-separated selector list starting at `i` with pending text
/// `cur`, and the position of the `{` (or end of input) that stops it.
pub open spec fn sel_scan(s: Seq<char>, i: int, cur: Seq<char>) -> (Seq<Seq<char>>, int)
    decreases s.len() - i
        when 0 <= i <= s.len()
{
    if i < s.len() {
        if s[i] == '{' {
            (sel_flush(cur), i)
        } else if s[i] == ',' {
            let rest = sel_scan(s, i + 1, Seq::empty());
            (seq![trim_spec(cur)] + rest.0, rest.1)
        } else {
            sel_scan(s, i + 1, cur.push(s[i]))
        }
    } else {
        (sel_flush(cur), i)
    }
}

proof fn lemma_sel_scan(s: Seq<char>, i: int, cur: Seq<char>)
    requires
        0 <= i <= s.len(),
    ensures
        i <= sel_scan(s, i, cur).1 <= s.len(),
        i < s.len() && s[i] != '{' ==> sel_scan(s, i, cur).1 >= i + 1,
    decreases s.len() - i,
{
    if i < s.len() {
        if s[i] == '{' {
        } else if s[i] == ',' {
            lemma_sel_scan(s, i + 1, Seq::empty());
        } else {
            lemma_sel_scan(s, i + 1, cur.push(s[i]));
        }
    }
}

/// The end of the property-name run starting at `i`: up to whitespace or a
/// colon.
pub open spec fn prop_end(s: Seq<char>, i: int) -> int
    decreases s.len() - i
        when 0 <= i <= s.len()
{
    if i < s.len() && !(white_space(s[i]) || s[i] == ':') {
        prop_end(s, i + 1)
    } else {
        i
    }
}

/// The end of the declaration-value run starting at `i`: up to a semicolon
/// or a closing brace.
pub open spec fn css_value_end(s: Seq<char>, i: int) -> int
    decreases s.len() - i
        when 0 <= i <= s.len()
{
    if i < s.len() && !(s[i] == ';' || s[i] == '}') {
        css_value_end(s, i + 1)
    } else {
        i
    }
}

proof fn lemma_prop_end(s: Seq<char>, i: int)
    requires
        0 <= i <= s.len(),
    ensures
        i <= prop_end(s, i) <= s.len(),
    decreases s.len() - i,
{
    if i < s.len() && !(white_space(s[i]) || s[i] == ':') {
        lemma_prop_end(s, i + 1);
    }
}

proof fn lemma_css_value_end(s: Seq<char>, i: int)
    requires
        0 <= i <= s.len(),
    ensures
        i <= css_value_end(s, i) <= s.len(),
    decreases s.len() - i,
{
    if i < s.len() && !(s[i] == ';' || s[i] == '}') {
        lemma_css_value_end(s, i + 1);
    }
}

proof fn lemma_scan_until_css(s: Seq<char>, i: int, c: char)
    requires
        0 <= i <= s.len(),
    ensures
        i <= scan_until(s, i, c) <= s.len(),
    decreases s.len() - i,
{
    if i < s.len() && s[i] != c {
        lemma_scan_until_css(s, i + 1, c);
    }
}

/// The `property: value;` pairs of a declaration block starting at `i`, in
/// scan order, and the position after them: the scan stops before `}` or at
/// the end of the input; a value may end at the closing brace in place of a
/// semicolon.
pub open spec fn decl_scan(s: Seq<char>, i: int) -> (Seq<(Seq<char>, Seq<char>)>, int)
    decreases s.len() - i
        when 0 <= i <= s.len() via decl_scan_via
{
    if i < s.len() {
        if white_space(s[i]) {
            decl_scan(s, i + 1)
        } else if s[i] == '}' {
            (Seq::empty(), i)
        } else {
            let pe = prop_end(s, i);
            let prop = s.subrange(i, pe);
            let j2 = scan_until(s, pe, ':');
            let j3: int = if j2 < s.len() {
                j2 + 1
            } else {
                j2
            };
            let ve = css_value_end(s, j3);
            let value = trim_spec(s.subrange(j3, ve));
            let j5: int = if ve < s.len() && s[ve] == ';' {
                ve + 1
            } else {
                ve
            };
            let rest = decl_scan(s, j5);
            (seq![(prop, value)] + rest.0, rest.1)
        }
    } else {
        (Seq::empty(), i)
    }
}

#[via_fn]
proof fn decl_scan_via(s: Seq<char>, i: int) {
    if 0 <= i < s.len() && !white_space(s[i]) && s[i] != '}' {
        lemma_prop_end(s, i);
        lemma_scan_until_css(s, prop_end(s, i), ':');
        let j2 = scan_until(s, prop_end(s, i), ':');
        let j3: int = if j2 < s.len() {
            j2 + 1
        } else {
            j2
        };
        lemma_css_value_end(s, j3);
    }
}

proof fn lemma_decl_scan(s: Seq<char>, i: int)
    requires
        0 <= i <= s.len(),
    ensures
        i <= decl_scan(s, i).1 <= s.len(),
    decreases s.len() - i,
{
    if i < s.len() {
        if white_space(s[i]) {
            lemma_decl_scan(s, i + 1);
        } else if s[i] == '}' {
        } else {
            lemma_prop_end(s, i);
            lemma_scan_until_css(s, prop_end(s, i), ':');
            let j2 = scan_until(s, prop_end(s, i), ':');
            let j3: int = if j2 < s.len() {
                j2 + 1
            } else {
                j2
            };
            lemma_css_value_end(s, j3);
            let ve = css_value_end(s, j3);
            let j5: int = if ve < s.len() && s[ve] == ';' {
                ve + 1
            } else {
                ve
            };
            lemma_decl_scan(s, j5);
        }
    }
}

/// The rules of a style sheet starting at `i`: whitespace-separated rule
/// blocks, the scan stopping silently at the first point where no selector
/// can be read.
pub open spec fn css_rec(s: Seq<char>, i: int) -> Seq<RuleView>
    decreases s.len() - i
        when 0 <= i <= s.len() via css_rec_via
{
    if i < s.len() {
        if white_space(s[i]) {
            css_rec(s, i + 1)
        } else {
            let sc = sel_scan(s, i, Seq::empty());
            if sc.0.len() == 0 {
                Seq::empty()
            } else {
                let b1 = scan_until(s, sc.1, '{');
                let b2: int = if b1 < s.len() {
                    b1 + 1
                } else {
                    b1
                };
                let dc = decl_scan(s, b2);
                let c1 = scan_until(s, dc.1, '}');
                let c2: int = if c1 < s.len() {
                    c1 + 1
                } else {
                    c1
                };
                seq![RuleView { selectors: sc.0, declarations: pairs_map(dc.0) }] + css_rec(s, c2)
            }
        }
    } else {
        Seq::empty()
    }
}

#[via_fn]
proof fn css_rec_via(s: Seq<char>, i: int) {
    if 0 <= i < s.len() && !white_space(s[i]) {
        let sc = sel_scan(s, i, Seq::empty());
        lemma_sel_scan(s, i, Seq::empty());
        if sc.0.len() > 0 {
            lemma_scan_until_css(s, sc.1, '{');
            let b1 = scan_until(s, sc.1, '{');
            let b2: int = if b1 < s.len() {
                b1 + 1
            } else {
                b1
            };
            lemma_decl_scan(s, b2);
            lemma_scan_until_css(s, decl_scan(s, b2).1, '}');
        }
    }
}

/// The view of a selector string list.
pub open spec fn sels_view(v: Seq<String>) -> Seq<Seq<char>> {
    v.map_values(|x: String| x@)
}

/// The comma-separated selector list starting at `start`, each selector
/// trimmed, and the position of the `{` (or end of input) that stops it.
fn consume_selectors(v: &Vec<char>, start: usize) -> (r: (Vec<String>, usize))
    requires
        start <= v@.len(),
    ensures
        sels_view(r.0@) == sel_scan(v@, start as int, Seq::empty()).0,
        r.1 as int == sel_scan(v@, start as int, Seq::empty()).1,
        start <= r.1 <= v@.len(),
{
    let n = v.len();
    let mut out: Vec<String> = Vec::new();
    let mut cur: Vec<char> = Vec::new();
    let mut i: usize = start;
    proof {
        lemma_sel_scan(v@, start as int, Seq::empty());
        assert(sels_view(out@) =~= Seq::<Seq<char>>::empty());
        assert(cur@ =~= Seq::<char>::empty());
    }
    loop
        invariant
            start <= i <= n,
            n == v@.len(),
            sel_scan(v@, start as int, Seq::empty()).0 =~= sels_view(out@) + sel_scan(
                v@,
                i as int,
                cur@,
            ).0,
            sel_scan(v@, start as int, Seq::empty()).1 == sel_scan(v@, i as int, cur@).1,
        decreases n - i,
    {
        if i >= n {
            let trimmed = trim_chars(&cur);
            if trimmed.len() > 0 {
                out.push(chars_to_string(&trimmed));
                proof {
                    assert(sels_view(out@) =~= sels_view(out@.drop_last()).push(trim_spec(cur@)));
                    assert(sels_view(out@.drop_last()) + sel_flush(cur@) =~= sels_view(out@));
                }
            } else {
                proof {
                    assert(sels_view(out@) + sel_flush(cur@) =~= sels_view(out@));
                }
            }
            return (out, i);
        }
        let c = v[i];
        if c == '{' {
            let trimmed = trim_chars(&cur);
            if trimmed.len() > 0 {
                out.push(chars_to_string(&trimmed));
                proof {
                    assert(sels_view(out@) =~= sels_view(out@.drop_last()).push(trim_spec(cur@)));
                    assert(sels_view(out@.drop_last()) + sel_flush(cur@) =~= sels_view(out@));
                }
            } else {
                proof {
                    assert(sels_view(out@) + sel_flush(cur@) =~= sels_view(out@));
                }
            }
            return (out, i);
        } else if c == ',' {
            let trimmed = trim_chars(&cur);
            let ghost out0 = out@;
            let ghost cur0 = cur@;
            out.push(chars_to_string(&trimmed));
            cur = Vec::new();
            i = i + 1;
            proof {
                assert(sels_view(out@) =~= sels_view(out0).push(trim_spec(cur0)));
                assert(cur@ =~= Seq::<char>::empty());
                assert(sel_scan(v@, i - 1, cur0).0 =~= seq![trim_spec(cur0)] + sel_scan(
                    v@,
                    i as int,
                    Seq::empty(),
                ).0);
                assert(sels_view(out0) + (seq![trim_spec(cur0)] + sel_scan(
                    v@,
                    i as int,
                    Seq::empty(),
                ).0) =~= sels_view(out@) + sel_scan(v@, i as int, cur@).0);
            }
        } else {
            let ghost cur0 = cur@;
            cur.push(c);
            i = i + 1;
            proof {
                assert(cur@ =~= cur0.push(c));
            }
        }
    }
}

/// The end of the property-name run starting at `start`.
fn consume_property(v: &Vec<char>, start: usize) -> (r: usize)
    requires
        start <= v@.len(),
    ensures
        r as int == prop_end(v@, start as int),
        start <= r <= v@.len(),
{
    let n = v.len();
    let mut i: usize = start;
    while i < n && !(char_is_whitespace(v[i]) || v[i] == ':')
        invariant
            start <= i <= n,
            n == v@.len(),
            prop_end(v@, start as int) == prop_end(v@, i as int),
        decreases n - i,
    {
        i = i + 1;
    }
    i
}

/// The end of the declaration-value run starting at `start`.
fn consume_value(v: &Vec<char>, start: usize) -> (r: usize)
    requires
        start <= v@.len(),
    ensures
        r as int == css_value_end(v@, start as int),
        start <= r <= v@.len(),
{
    let n = v.len();
    let mut i: usize = start;
    while i < n && !(v[i] == ';' || v[i] == '}')
        invariant
            start <= i <= n,
            n == v@.len(),
            css_value_end(v@, start as int) == css_value_end(v@, i as int),
        decreases n - i,
    {
        i = i + 1;
    }
    i
}

/// The first position at or after `start` holding `c`.
fn consume_until(v: &Vec<char>, start: usize, c: char) -> (r: usize)
    requires
        start <= v@.len(),
    ensures
        r as int == scan_until(v@, start as int, c),
        start <= r <= v@.len(),
{
    let n = v.len();
    let mut i: usize = start;
    while i < n && v[i] != c
        invariant
            start <= i <= n,
            n == v@.len(),
            scan_until(v@, start as int, c) == scan_until(v@, i as int, c),
        decreases n - i,
    {
        i = i + 1;
    }
    i
}

/// Copy `v[from..to]` into a fresh vector.
fn copy_part(v: &Vec<char>, from: usize, to: usize) -> (r: Vec<char>)
    requires
        from <= to <= v@.len(),
    ensures
        r@ == v@.subrange(from as int, to as int),
{
    let mut r: Vec<char> = Vec::new();
    let mut i: usize = from;
    proof {
        assert(v@.subrange(from as int, from as int) =~= Seq::<char>::empty());
    }
    while i < to
        invariant
            from <= i <= to <= v@.len(),
            r@ == v@.subrange(from as int, i as int),
        decreases to - i,
    {
        r.push(v[i]);
        i = i + 1;
        assert(r@ =~= v@.subrange(from as int, i as int));
    }
    r
}

/// Write `val` under `key` into the entry list, replacing an earlier value.
fn upsert(list: &mut Vec<(String, String)>, key: String, val: String)
    ensures
        forall|k2: Seq<char>|
            #[trigger] attr_lookup(final(list)@, k2) == (if k2 == key@ {
                Some(val@)
            } else {
                attr_lookup(old(list)@, k2)
            }),
{
    match crate::dom::attr_index(list, &key) {
        Some(i) => {
            let ghost before = list@;
            let ghost kv = key@;
            let ghost vv = val@;
            list[i] = (key, val);
            proof {
                crate::dom::lemma_attr_lookup_update(before, list@, i as int, kv, vv);
            }
        },
        None => {
            let ghost before = list@;
            let ghost kv = key@;
            let ghost vv = val@;
            list.push((key, val));
            proof {
                crate::dom::lemma_attr_lookup_append(before, list@, kv, vv);
            }
        },
    }
}

/// The declaration block starting at `start`: its entries, the last value
/// written under a property winning, and the position after the block.
fn consume_declarations(v: &Vec<char>, start: usize) -> (r: (Vec<(String, String)>, usize))
    requires
        start <= v@.len(),
    ensures
        forall|k2: Seq<char>|
            #[trigger] attr_lookup(r.0@, k2) == (if pairs_map(
                decl_scan(v@, start as int).0,
            ).dom().contains(k2) {
                Some(pairs_map(decl_scan(v@, start as int).0)[k2])
            } else {
                None
            }),
        r.1 as int == decl_scan(v@, start as int).1,
        start <= r.1 <= v@.len(),
{
    let n = v.len();
    let mut out: Vec<(String, String)> = Vec::new();
    let mut i: usize = start;
    let ghost total = decl_scan(v@, start as int).0;
    proof {
        lemma_decl_scan(v@, start as int);
        assert(Seq::<(Seq<char>, Seq<char>)>::empty() + decl_scan(v@, start as int).0 =~= decl_scan(
            v@,
            start as int,
        ).0);
    }
    let ghost done: Seq<(Seq<char>, Seq<char>)> = Seq::empty();
    loop
        invariant
            start <= i <= n,
            n == v@.len(),
            total == decl_scan(v@, start as int).0,
            total =~= done + decl_scan(v@, i as int).0,
            decl_scan(v@, start as int).1 == decl_scan(v@, i as int).1,
            forall|k2: Seq<char>|
                #[trigger] attr_lookup(out@, k2) == (if pairs_map(done).dom().contains(k2) {
                    Some(pairs_map(done)[k2])
                } else {
                    None
                }),
        decreases n - i,
    {
        if i >= n {
            proof {
                assert(done + decl_scan(v@, i as int).0 =~= done);
                lemma_pairs_map_congruent(total, done);
            }
            return (out, i);
        }
        let c = v[i];
        if char_is_whitespace(c) {
            i = i + 1;
        } else if c == '}' {
            proof {
                assert(done + decl_scan(v@, i as int).0 =~= done);
                lemma_pairs_map_congruent(total, done);
            }
            return (out, i);
        } else {
            let ghost i0 = i as int;
            let pe = consume_property(v, i);
            let prop = copy_part(v, i, pe);
            let j2 = consume_until(v, pe, ':');
            let j3 = if j2 < n {
                j2 + 1
            } else {
                j2
            };
            let ve = consume_value(v, j3);
            let raw_value = copy_part(v, j3, ve);
            let value = trim_chars(&raw_value);
            let j5 = if ve < n && v[ve] == ';' {
                ve + 1
            } else {
                ve
            };
            let ghost done0 = done;
            proof {
                done = done.push((prop@, value@));
            }
            upsert(&mut out, chars_to_string(&prop), chars_to_string(&value));
            proof {
                assert(decl_scan(v@, i0).0 =~= seq![(prop@, value@)] + decl_scan(v@, j5 as int).0);
                assert(done0 + (seq![(prop@, value@)] + decl_scan(v@, j5 as int).0) =~= done
                    + decl_scan(v@, j5 as int).0);
                assert(done.drop_last() =~= done0);
                assert(pairs_map(done) == pairs_map(done0).insert(prop@, value@));
            }
            i = j5;
        }
    }
}

proof fn lemma_pairs_map_congruent(a: Seq<(Seq<char>, Seq<char>)>, b: Seq<(Seq<char>, Seq<char>)>)
    requires
        a == b,
    ensures
        pairs_map(a) == pairs_map(b),
{
}

/// Parse a style sheet: whitespace-separated rule blocks of a selector list
/// and a braced declaration block; parsing stops silently at the first point
/// where no more selectors can be read. The parser cannot fail.
pub fn parse_css(css: &str) -> (r: StyleSheet)
    ensures
        sheet_view(r) == css_rec(css@, 0),
{
    let chars = str_to_chars(css);
    let n = chars.len();
    let mut rules: Vec<Rule> = Vec::new();
    let mut i: usize = 0;
    proof {
        assert(sheet_view(StyleSheet { rules }) =~= Seq::<RuleView>::empty());
    }
    loop
        invariant
            i <= n,
            n == chars@.len(),
            chars@ == css@,
            css_rec(css@, 0) =~= rules@.map_values(|x: Rule| rule_view(x)) + css_rec(css@, i as int),
        decreases n - i,
    {
        if i >= n {
            proof {
                assert(rules@.map_values(|x: Rule| rule_view(x)) + css_rec(css@, i as int)
                    =~= rules@.map_values(|x: Rule| rule_view(x)));
            }
            return StyleSheet { rules };
        }
        let c = chars[i];
        if char_is_whitespace(c) {
            i = i + 1;
        } else {
            let ghost i0 = i as int;
            let sc = consume_selectors(&chars, i);
            let selectors = sc.0;
            if selectors.len() == 0 {
                proof {
                    assert(sel_scan(chars@, i0, Seq::empty()).0.len() == 0) by {
                        assert(sels_view(selectors@).len() == selectors@.len());
                    }
                    assert(css_rec(css@, i0) =~= Seq::<RuleView>::empty());
                    assert(rules@.map_values(|x: Rule| rule_view(x)) + css_rec(css@, i0)
                        =~= rules@.map_values(|x: Rule| rule_view(x)));
                }
                return StyleSheet { rules };
            }
            let b1 = consume_until(&chars, sc.1, '{');
            let b2 = if b1 < n {
                b1 + 1
            } else {
                b1
            };
            let dc = consume_declarations(&chars, b2);
            let c1 = consume_until(&chars, dc.1, '}');
            let c2 = if c1 < n {
                c1 + 1
            } else {
                c1
            };
            let ghost rules0 = rules@;
            let declarations = dc.0;
            proof {
                assert(sels_view(selectors@).len() == selectors@.len());
            }
            rules.push(Rule { selectors, declarations });
            proof {
                let new_rule = rules@.last();
                assert(alist_map(new_rule.declarations@) =~= pairs_map(
                    decl_scan(css@, b2 as int).0,
                ));
                assert(rule_view(new_rule) == (RuleView {
                    selectors: sel_scan(css@, i0, Seq::empty()).0,
                    declarations: pairs_map(decl_scan(css@, b2 as int).0),
                }));
                assert(css_rec(css@, i0) =~= seq![rule_view(new_rule)] + css_rec(css@, c2 as int));
                assert(rules@.map_values(|x: Rule| rule_view(x)) =~= rules0.map_values(
                    |x: Rule| rule_view(x),
                ).push(rule_view(new_rule)));
                assert(rules0.map_values(|x: Rule| rule_view(x)) + (seq![rule_view(new_rule)]
                    + css_rec(css@, c2 as int)) =~= rules@.map_values(|x: Rule| rule_view(x))
                    + css_rec(css@, c2 as int));
            }
            i = c2;
        }
    }
}

} // verus!
