//! CSS color parsing: `rgb(r, g, b)`, `#RRGGBB` hex, and a small set of
//! named colors, all read into ARGB form, defaulting to opaque black.

use vstd::prelude::*;
use vstd::string::StringExecFns;
use crate::text::{
    chars_to_string, lower_of, lowercase, str_to_chars, trim_chars, trim_spec,
};

verus! {

/// The value of a decimal digit character, by its scalar value.
pub open spec fn dec_val(c: char) -> Option<int> {
    if 48 <= (c as u32) <= 57 {
        Some((c as u32) - 48)
    } else {
        None
    }
}

/// The value of a hexadecimal digit character, by its scalar value.
pub open spec fn hex_val(c: char) -> Option<int> {
    if 48 <= (c as u32) <= 57 {
        Some((c as u32) - 48)
    } else if 97 <= (c as u32) <= 102 {
        Some((c as u32) - 97 + 10)
    } else if 65 <= (c as u32) <= 70 {
        Some((c as u32) - 65 + 10)
    } else {
        None
    }
}

/// The value of a nonempty run of decimal digits.
pub open spec fn dec_run_val(s: Seq<char>) -> Option<int>
    decreases s.len(),
{
    if s.len() == 0 {
        None
    } else if s.len() == 1 {
        dec_val(s[0])
    } else {
        match (dec_run_val(s.drop_last()), dec_val(s.last())) {
            (Some(a), Some(b)) => Some(10 * a + b),
            _ => None,
        }
    }
}

/// Sixteen to the `k`.
pub open spec fn pow16(k: nat) -> int
    decreases k,
{
    if k == 0 {
        1
    } else {
        16 * pow16((k - 1) as nat)
    }
}

/// The value of a nonempty run of hexadecimal digits.
pub open spec fn hex_run_val(s: Seq<char>) -> Option<int>
    decreases s.len(),
{
    if s.len() == 0 {
        None
    } else if s.len() == 1 {
        hex_val(s[0])
    } else {
        match (hex_run_val(s.drop_last()), hex_val(s.last())) {
            (Some(a), Some(b)) => Some(16 * a + b),
            _ => None,
        }
    }
}

/// What parsing `s` as an unsigned byte yields: an optional plus sign, then
/// decimal digits, the value within range.
pub open spec fn u8_of(s: Seq<char>) -> Option<int> {
    let t = if s.len() > 0 && s[0] == '+' {
        s.drop_first()
    } else {
        s
    };
    match dec_run_val(t) {
        Some(v) => if v <= 255 {
            Some(v)
        } else {
            None
        },
        None => None,
    }
}

/// What parsing `s` as a base-16 unsigned 32-bit number yields.
pub open spec fn hex_of(s: Seq<char>) -> Option<int> {
    let t = if s.len() > 0 && s[0] == '+' {
        s.drop_first()
    } else {
        s
    };
    match hex_run_val(t) {
        Some(v) => if v <= u32::MAX {
            Some(v)
        } else {
            None
        },
        None => None,
    }
}

/// The comma-separated parts of `s`, empty parts included, starting with the
/// pending part `cur`.
pub open spec fn split_commas(s: Seq<char>, i: int, cur: Seq<char>) -> Seq<Seq<char>>
    decreases s.len() - i
        when 0 <= i <= s.len()
{
    if i < s.len() {
        if s[i] == ',' {
            seq![cur] + split_commas(s, i + 1, Seq::empty())
        } else {
            split_commas(s, i + 1, cur.push(s[i]))
        }
    } else {
        seq![cur]
    }
}

/// The ARGB value of the lowercased, trimmed color text `t`: an
/// `rgb(r, g, b)` form, else a six-digit hex form, else a named color,
/// defaulting to opaque black.
pub open spec fn color_argb(t: Seq<char>) -> u32 {
    if t.len() >= 5 && t[0] == 'r' && t[1] == 'g' && t[2] == 'b' && t[3] == '(' && t[t.len() - 1]
        == ')' && rgb_parts_ok(t) {
        rgb_value(t)
    } else if t.len() == 7 && t[0] == '#' && hex_of(t.subrange(1, 7)) is Some {
        let h = hex_of(t.subrange(1, 7))->0 as u32;
        0xFF000000u32 | (((h >> 16) & 0xFF) << 16) | (((h >> 8) & 0xFF) << 8) | (h & 0xFF)
    } else {
        named_color(t)
    }
}

/// Whether the inside of an `rgb(...)` form holds three parseable byte
/// parts.
pub open spec fn rgb_parts_ok(t: Seq<char>) -> bool {
    let parts = split_commas(t.subrange(4, t.len() - 1), 0, Seq::empty());
    &&& parts.len() >= 3
    &&& u8_of(trim_spec(parts[0])) is Some
    &&& u8_of(trim_spec(parts[1])) is Some
    &&& u8_of(trim_spec(parts[2])) is Some
}

/// The ARGB value an `rgb(...)` form composes.
pub open spec fn rgb_value(t: Seq<char>) -> u32 {
    let parts = split_commas(t.subrange(4, t.len() - 1), 0, Seq::empty());
    let r = u8_of(trim_spec(parts[0]))->0 as u32;
    let g = u8_of(trim_spec(parts[1]))->0 as u32;
    let b = u8_of(trim_spec(parts[2]))->0 as u32;
    (r << 16) | (g << 8) | b | 0xFF000000u32
}

/// The ARGB value of a named color, opaque black for an unknown name.
pub open spec fn named_color(t: Seq<char>) -> u32 {
    if t == "black"@ {
        0xFF000000u32
    } else if t == "white"@ {
        0xFFFFFFFFu32
    } else if t == "red"@ {
        0xFFFF0000u32
    } else if t == "green"@ {
        0xFF008000u32
    } else if t == "blue"@ {
        0xFF0000FFu32
    } else if t == "yellow"@ {
        0xFFFFFF00u32
    } else if t == "cyan"@ {
        0xFF00FFFFu32
    } else if t == "magenta"@ {
        0xFFFF00FFu32
    } else if t == "gray"@ || t == "grey"@ {
        0xFF808080u32
    } else {
        0xFF000000u32
    }
}

/// Split the ARGB value into its alpha, red, green and blue bytes.
pub fn argb_to_components(argb: u32) -> (r: (u8, u8, u8, u8))
    ensures
        r.0 == ((argb >> 24) & 0xFF) as u8,
        r.1 == ((argb >> 16) & 0xFF) as u8,
        r.2 == ((argb >> 8) & 0xFF) as u8,
        r.3 == (argb & 0xFF) as u8,
{
    proof {
        assert(((argb >> 24) & 0xFF) < 256) by (bit_vector);
        assert(((argb >> 16) & 0xFF) < 256) by (bit_vector);
        assert(((argb >> 8) & 0xFF) < 256) by (bit_vector);
        assert((argb & 0xFF) < 256) by (bit_vector);
    }
    let a = ((argb >> 24) & 0xFF) as u8;
    let r = ((argb >> 16) & 0xFF) as u8;
    let g = ((argb >> 8) & 0xFF) as u8;
    let b = (argb & 0xFF) as u8;
    (a, r, g, b)
}

/// Parse `s` as an unsigned byte: an optional plus sign, then decimal
/// digits, the value within range.
fn parse_u8_digits(t: &Vec<char>) -> (r: Option<u8>)
    ensures
        (match r {
            Some(v) => u8_of(t@) == Some(v as int),
            None => u8_of(t@) is None,
        }),
{
    let n = t.len();
    let start: usize = if n > 0 && t[0] == '+' {
        1
    } else {
        0
    };
    let ghost d = if t@.len() > 0 && t@[0] == '+' {
        t@.drop_first()
    } else {
        t@
    };
    proof {
        if start == 1 {
            assert(d =~= t@.subrange(1, n as int));
        } else {
            assert(d =~= t@.subrange(0, n as int));
        }
    }
    if start >= n {
        proof {
            assert(d.len() == 0);
        }
        return None;
    }
    let mut val: u32 = 0;
    let mut i: usize = start;
    proof {
        assert(d.subrange(0, 0) =~= Seq::<char>::empty());
    }
    while i < n
        invariant
            start <= i <= n,
            n == t@.len(),
            start == 0 || start == 1,
            d == t@.subrange(start as int, n as int),
            d == (if t@.len() > 0 && t@[0] == '+' {
                t@.drop_first()
            } else {
                t@
            }),
            (match dec_run_val(d.subrange(0, i - start)) {
                Some(v) => (v <= 255 && val == v) || (v > 255 && val == 256),
                None => i == start,
            }),
            i == start ==> val == 0,
            val <= 256,
        decreases n - i,
    {
        let c = t[i];
        let u = c as u32;
        if !(u >= 48 && u <= 57) {
            proof {
                lemma_dec_run_bad(d, (i - start) as int);
            }
            return None;
        }
        let dv: u32 = u - 48;
        proof {
            assert(dec_val(d[i - start]) == Some(dv as int));
            assert(d.subrange(0, i - start + 1).drop_last() =~= d.subrange(0, i - start));
            assert(d.subrange(0, i - start + 1).last() == d[i - start]);
            if i - start + 1 == 1 {
                assert(d.subrange(0, 1) =~= seq![d[0]]);
            }
        }
        val = if val > 255 {
            256
        } else {
            val * 10 + dv
        };
        if val > 256 {
            val = 256;
        }
        i = i + 1;
    }
    proof {
        assert(d.subrange(0, (n - start) as int) =~= d);
    }
    if val > 255 {
        None
    } else {
        Some(val as u8)
    }
}

proof fn lemma_dec_run_bad(d: Seq<char>, k: int)
    requires
        0 <= k < d.len(),
        dec_val(d[k]) is None,
    ensures
        dec_run_val(d.subrange(0, d.len() as int)) is None,
        dec_run_val(d) is None,
    decreases d.len(),
{
    assert(d.subrange(0, d.len() as int) =~= d);
    if d.len() == 1 {
    } else if k == d.len() - 1 {
    } else {
        lemma_dec_run_bad(d.drop_last(), k);
    }
}

/// Parse six lowercased hex digits.
fn parse_hex6(t: &Vec<char>) -> (r: Option<u32>)
    requires
        t@.len() <= 6,
    ensures
        (match r {
            Some(v) => hex_of(t@) == Some(v as int),
            None => hex_of(t@) is None,
        }),
{
    let n = t.len();
    let start: usize = if n > 0 && t[0] == '+' {
        1
    } else {
        0
    };
    let ghost d = if t@.len() > 0 && t@[0] == '+' {
        t@.drop_first()
    } else {
        t@
    };
    proof {
        if start == 1 {
            assert(d =~= t@.subrange(1, n as int));
        } else {
            assert(d =~= t@.subrange(0, n as int));
        }
    }
    if start >= n {
        proof {
            assert(d.len() == 0);
        }
        return None;
    }
    let mut val: u32 = 0;
    let mut i: usize = start;
    proof {
        assert(d.subrange(0, 0) =~= Seq::<char>::empty());
    }
    while i < n
        invariant
            start <= i <= n,
            n == t@.len(),
            n <= 6,
            start == 0 || start == 1,
            d == t@.subrange(start as int, n as int),
            d == (if t@.len() > 0 && t@[0] == '+' {
                t@.drop_first()
            } else {
                t@
            }),
            (match hex_run_val(d.subrange(0, i - start)) {
                Some(v) => val == v,
                None => i == start,
            }),
            i == start ==> val == 0,
            val < 0x1000000,
        decreases n - i,
    {
        let c = t[i];
        let dv: u32 = match hex_digit(c) {
            Some(x) => x,
            None => {
                proof {
                    lemma_hex_run_bad(d, (i - start) as int);
                }
                return None;
            },
        };
        proof {
            assert(d.subrange(0, i - start + 1).drop_last() =~= d.subrange(0, i - start));
            assert(d.subrange(0, i - start + 1).last() == d[i - start]);
            if i - start + 1 == 1 {
                assert(d.subrange(0, 1) =~= seq![d[0]]);
            }
            lemma_hex_run_le(d.subrange(0, i - start));
            assert(pow16(5) == 0x100000) by {
                assert(pow16(0) == 1);
                assert(pow16(1) == 16);
                assert(pow16(2) == 256);
                assert(pow16(3) == 0x1000);
                assert(pow16(4) == 0x10000);
                assert(pow16(5) == 16 * pow16(4));
            }
            lemma_pow16_le((i - start) as nat, 5);
        }
        val = val * 16 + dv;
        i = i + 1;
    }
    proof {
        assert(d.subrange(0, (n - start) as int) =~= d);
    }
    Some(val)
}

/// The value of one hexadecimal digit character.
fn hex_digit(c: char) -> (r: Option<u32>)
    ensures
        (match r {
            Some(v) => hex_val(c) == Some(v as int) && v < 16,
            None => hex_val(c) is None,
        }),
{
    let u = c as u32;
    if u >= 48 && u <= 57 {
        Some(u - 48)
    } else if u >= 97 && u <= 102 {
        Some(u - 97 + 10)
    } else if u >= 65 && u <= 70 {
        Some(u - 65 + 10)
    } else {
        None
    }
}

proof fn lemma_pow16_le(a: nat, b: nat)
    requires
        a <= b,
    ensures
        pow16(a) <= pow16(b),
    decreases b,
{
    if a < b {
        lemma_pow16_le(a, (b - 1) as nat);
        assert(pow16(b) == 16 * pow16((b - 1) as nat));
        assert(pow16((b - 1) as nat) >= 1) by {
            lemma_pow16_pos((b - 1) as nat);
        }
    }
}

proof fn lemma_pow16_pos(k: nat)
    ensures
        pow16(k) >= 1,
    decreases k,
{
    if k > 0 {
        lemma_pow16_pos((k - 1) as nat);
    }
}

proof fn lemma_hex_run_le(s: Seq<char>)
    ensures
        (hex_run_val(s) matches Some(v) ==> 0 <= v < pow16(s.len())),
    decreases s.len(),
{
    if s.len() == 0 {
    } else if s.len() == 1 {
        assert(pow16(1) == 16 * pow16(0));
    } else {
        lemma_hex_run_le(s.drop_last());
        assert(pow16(s.len()) == 16 * pow16((s.len() - 1) as nat));
    }
}

proof fn lemma_hex_run_bad(d: Seq<char>, k: int)
    requires
        0 <= k < d.len(),
        hex_val(d[k]) is None,
    ensures
        hex_run_val(d) is None,
    decreases d.len(),
{
    if d.len() == 1 {
    } else if k == d.len() - 1 {
    } else {
        lemma_hex_run_bad(d.drop_last(), k);
    }
}

/// The comma-separated parts of `v`, empty parts included.
fn split_on_commas(v: &Vec<char>) -> (r: Vec<Vec<char>>)
    ensures
        r@.map_values(|x: Vec<char>| x@) == split_commas(v@, 0, Seq::empty()),
{
    let n = v.len();
    let mut out: Vec<Vec<char>> = Vec::new();
    let mut cur: Vec<char> = Vec::new();
    let mut i: usize = 0;
    proof {
        assert(out@.map_values(|x: Vec<char>| x@) =~= Seq::<Seq<char>>::empty());
        assert(cur@ =~= Seq::<char>::empty());
    }
    while i < n
        invariant
            i <= n,
            n == v@.len(),
            split_commas(v@, 0, Seq::empty()) =~= out@.map_values(|x: Vec<char>| x@)
                + split_commas(v@, i as int, cur@),
        decreases n - i,
    {
        let c = v[i];
        if c == ',' {
            let ghost out0 = out@.map_values(|x: Vec<char>| x@);
            let ghost cur0 = cur@;
            out.push(cur);
            cur = Vec::new();
            i = i + 1;
            proof {
                assert(out@.map_values(|x: Vec<char>| x@) =~= out0.push(cur0));
                assert(cur@ =~= Seq::<char>::empty());
                assert(out0 + (seq![cur0] + split_commas(v@, i as int, Seq::empty()))
                    =~= out@.map_values(|x: Vec<char>| x@) + split_commas(v@, i as int, cur@));
            }
        } else {
            let ghost cur0 = cur@;
            cur.push(c);
            i = i + 1;
            proof {
                assert(cur@ =~= cur0.push(c));
            }
        }
    }
    let ghost out0 = out@.map_values(|x: Vec<char>| x@);
    let ghost cur0 = cur@;
    out.push(cur);
    proof {
        assert(out@.map_values(|x: Vec<char>| x@) =~= out0.push(cur0));
        assert(out0 + seq![cur0] =~= out0.push(cur0));
    }
    out
}

/// Parse a CSS color string into ARGB: an `rgb(r, g, b)` form, else a
/// six-digit hex form, else a named color, defaulting to opaque black. The
/// string is trimmed and lowercased first.
pub fn parse_color_to_argb(color: &str) -> (r: u32)
    ensures
        r == color_argb(lower_of(trim_spec(color@))),
{
    let chars = str_to_chars(color);
    let trimmed = trim_chars(&chars);
    let trimmed_str = chars_to_string(&trimmed);
    let lowered = lowercase(trimmed_str.as_str());
    let lc = str_to_chars(lowered.as_str());
    let ghost t = lower_of(trim_spec(color@));
    proof {
        assert(lc@ == t);
    }
    let n = lc.len();
    if n >= 5 && lc[0] == 'r' && lc[1] == 'g' && lc[2] == 'b' && lc[3] == '(' && lc[n - 1] == ')' {
        let mut inner: Vec<char> = Vec::new();
        let mut k: usize = 4;
        proof {
            assert(lc@.subrange(4, 4) =~= Seq::<char>::empty());
        }
        while k < n - 1
            invariant
                4 <= k <= n - 1,
                n == lc@.len(),
                n >= 5,
                inner@ == lc@.subrange(4, k as int),
            decreases n - 1 - k,
        {
            inner.push(lc[k]);
            k = k + 1;
            assert(inner@ =~= lc@.subrange(4, k as int));
        }
        proof {
            assert(inner@ =~= t.subrange(4, t.len() - 1));
        }
        let parts = split_on_commas(&inner);
        if parts.len() >= 3 {
            let p0 = trim_chars(&parts[0]);
            let p1 = trim_chars(&parts[1]);
            let p2 = trim_chars(&parts[2]);
            proof {
                let pv = parts@.map_values(|x: Vec<char>| x@);
                assert(pv[0] == parts@[0]@);
                assert(pv[1] == parts@[1]@);
                assert(pv[2] == parts@[2]@);
            }
            let r0 = parse_u8_digits(&p0);
            let r1 = parse_u8_digits(&p1);
            let r2 = parse_u8_digits(&p2);
            match (r0, r1, r2) {
                (Some(rr), Some(gg), Some(bb)) => {
                    return ((rr as u32) << 16) | ((gg as u32) << 8) | (bb as u32) | 0xFF000000u32;
                },
                _ => {},
            }
        }
    }
    if n == 7 && lc[0] == '#' {
        let mut hexpart: Vec<char> = Vec::new();
        let mut k: usize = 1;
        proof {
            assert(lc@.subrange(1, 1) =~= Seq::<char>::empty());
        }
        while k < 7
            invariant
                1 <= k <= 7,
                n == lc@.len(),
                n == 7,
                hexpart@ == lc@.subrange(1, k as int),
            decreases 7 - k,
        {
            hexpart.push(lc[k]);
            k = k + 1;
            assert(hexpart@ =~= lc@.subrange(1, k as int));
        }
        match parse_hex6(&hexpart) {
            Some(h) => {
                return 0xFF000000u32 | (((h >> 16) & 0xFF) << 16) | (((h >> 8) & 0xFF) << 8) | (h
                    & 0xFF);
            },
            None => {},
        }
    }
    let black = String::from_str("black");
    let white = String::from_str("white");
    let red = String::from_str("red");
    let green = String::from_str("green");
    let blue = String::from_str("blue");
    let yellow = String::from_str("yellow");
    let cyan = String::from_str("cyan");
    let magenta = String::from_str("magenta");
    let gray = String::from_str("gray");
    let grey = String::from_str("grey");
    if lowered == black {
        0xFF000000
    } else if lowered == white {
        0xFFFFFFFF
    } else if lowered == red {
        0xFFFF0000
    } else if lowered == green {
        0xFF008000
    } else if lowered == blue {
        0xFF0000FF
    } else if lowered == yellow {
        0xFFFFFF00
    } else if lowered == cyan {
        0xFF00FFFF
    } else if lowered == magenta {
        0xFFFF00FF
    } else if lowered == gray || lowered == grey {
        0xFF808080
    } else {
        0xFF000000
    }
}

} // verus!
