//! Character classification and string helpers shared by the parsers and the
//! selector engine.
//!
//! Unicode-dependent questions (whitespace, alphanumeric, lowercasing) are
//! answered by the standard library through the trusted items below; every
//! scan and comparison built on top of them is verified here.

use vstd::prelude::*;
use vstd::string::StrSliceExecFns;

verus! {

/// What `char::is_whitespace` returns: the Unicode `White_Space` property.
pub uninterp spec fn white_space(c: char) -> bool;

/// What `char::is_alphanumeric` returns: Unicode alphabetic or numeric.
pub uninterp spec fn alphanumeric(c: char) -> bool;

/// What `str::to_lowercase` returns for a given character sequence.
pub uninterp spec fn lower_of(s: Seq<char>) -> Seq<char>;

/// Relies on `char::is_whitespace`: the Unicode `White_Space` property, whose
/// members below U+0080 are exactly the six ASCII whitespace characters.
#[verifier::external_body]
pub fn char_is_whitespace(c: char) -> (r: bool)
    ensures
        r == white_space(c),
        (c as u32) < 128 ==> (r <==> (c == ' ' || c == '\t' || c == '\n' || c == '\r'
            || c == '\u{b}' || c == '\u{c}')),
{
    c.is_whitespace()
}

/// Relies on `char::is_alphanumeric`: Unicode `Alphabetic` or numeric, whose
/// members below U+0080 are exactly the ASCII letters and digits.
#[verifier::external_body]
pub fn char_is_alphanumeric(c: char) -> (r: bool)
    ensures
        r == alphanumeric(c),
        (c as u32) < 128 ==> (r <==> ('a' <= c && c <= 'z') || ('A' <= c && c <= 'Z')
            || ('0' <= c && c <= '9')),
{
    c.is_alphanumeric()
}

/// Relies on `str::to_lowercase`: the result depends on the characters alone.
#[verifier::external_body]
pub fn lowercase(s: &str) -> (r: String)
    ensures
        r@ == lower_of(s@),
{
    s.to_lowercase()
}

/// Relies on `String`'s `FromIterator` impl: collects the characters in order.
#[verifier::external_body]
pub fn chars_to_string(v: &Vec<char>) -> (r: String)
    ensures
        r@ == v@,
{
    v.iter().collect()
}

/// Copy the characters of a string slice into a vector.
pub fn str_to_chars(s: &str) -> (r: Vec<char>)
    ensures
        r@ == s@,
{
    let n = s.unicode_len();
    let mut v: Vec<char> = Vec::new();
    let mut i: usize = 0;
    while i < n
        invariant
            n == s@.len(),
            i <= n,
            v@ == s@.subrange(0, i as int),
        decreases n - i,
    {
        let c = s.get_char(i);
        v.push(c);
        i = i + 1;
        assert(v@ =~= s@.subrange(0, i as int));
    }
    assert(s@.subrange(0, n as int) =~= s@);
    v
}

/// Whether two character vectors hold the same characters.
pub fn chars_eq(a: &Vec<char>, b: &Vec<char>) -> (r: bool)
    ensures
        r == (a@ == b@),
{
    if a.len() != b.len() {
        assert(a@ != b@) by {
            assert(a@.len() != b@.len());
        }
        return false;
    }
    let n = a.len();
    let mut i: usize = 0;
    while i < n
        invariant
            n == a@.len(),
            n == b@.len(),
            i <= n,
            forall|j: int| 0 <= j < i ==> a@[j] == b@[j],
        decreases n - i,
    {
        if a[i] != b[i] {
            return false;
        }
        i = i + 1;
    }
    assert(a@ =~= b@);
    true
}

/// The sequence with its leading whitespace removed.
pub open spec fn trim_start_spec(s: Seq<char>) -> Seq<char>
    decreases s.len(),
{
    if s.len() > 0 && white_space(s[0]) {
        trim_start_spec(s.drop_first())
    } else {
        s
    }
}

/// The sequence with its trailing whitespace removed.
pub open spec fn trim_end_spec(s: Seq<char>) -> Seq<char>
    decreases s.len(),
{
    if s.len() > 0 && white_space(s[s.len() - 1]) {
        trim_end_spec(s.drop_last())
    } else {
        s
    }
}

/// The sequence with leading and trailing whitespace removed, as `str::trim`
/// reads it.
pub open spec fn trim_spec(s: Seq<char>) -> Seq<char> {
    trim_end_spec(trim_start_spec(s))
}

proof fn lemma_trim_start_subrange(s: Seq<char>, i: int)
    requires
        0 <= i <= s.len(),
        forall|j: int| 0 <= j < i ==> white_space(s[j]),
    ensures
        trim_start_spec(s) == trim_start_spec(s.subrange(i, s.len() as int)),
    decreases i,
{
    if i > 0 {
        assert(s.len() > 0 && white_space(s[0]));
        assert(trim_start_spec(s) == trim_start_spec(s.drop_first()));
        let t = s.drop_first();
        lemma_trim_start_subrange(t, i - 1);
        assert(t.subrange(i - 1, t.len() as int) =~= s.subrange(i, s.len() as int));
    } else {
        assert(s.subrange(0, s.len() as int) =~= s);
    }
}

proof fn lemma_trim_end_subrange(s: Seq<char>, j: int)
    requires
        0 <= j <= s.len(),
        forall|k: int| j <= k < s.len() ==> white_space(s[k]),
    ensures
        trim_end_spec(s) == trim_end_spec(s.subrange(0, j)),
    decreases s.len() - j,
{
    if j < s.len() {
        assert(white_space(s[s.len() - 1]));
        assert(trim_end_spec(s) == trim_end_spec(s.drop_last()));
        let t = s.drop_last();
        lemma_trim_end_subrange(t, j);
        assert(t.subrange(0, j) =~= s.subrange(0, j));
    } else {
        assert(s.subrange(0, s.len() as int) =~= s);
    }
}

/// The characters of `v` with leading and trailing whitespace removed.
pub fn trim_chars(v: &Vec<char>) -> (r: Vec<char>)
    ensures
        r@ == trim_spec(v@),
{
    let n = v.len();
    let mut i: usize = 0;
    while i < n && char_is_whitespace(v[i])
        invariant
            n == v@.len(),
            i <= n,
            forall|j: int| 0 <= j < i ==> white_space(v@[j]),
        decreases n - i,
    {
        i = i + 1;
    }
    proof {
        lemma_trim_start_subrange(v@, i as int);
    }
    if i == n {
        assert(v@.subrange(i as int, n as int) =~= Seq::<char>::empty());
        assert(trim_start_spec(v@) =~= Seq::<char>::empty());
        let r: Vec<char> = Vec::new();
        return r;
    }
    let ghost head = v@.subrange(i as int, n as int);
    assert(trim_start_spec(v@) == head);
    let mut j: usize = n;
    while j > i + 1 && char_is_whitespace(v[j - 1])
        invariant
            n == v@.len(),
            i < j <= n,
            forall|k: int| j <= k < n ==> white_space(v@[k]),
        decreases j,
    {
        j = j - 1;
    }
    proof {
        assert(head.subrange(0, (j - i) as int) =~= v@.subrange(i as int, j as int));
        lemma_trim_end_subrange(head, (j - i) as int);
    }
    // either j == i + 1 (so the last kept character is v[i], not whitespace)
    // or the scan stopped at a non-whitespace v[j - 1]
    let mut r: Vec<char> = Vec::new();
    let ghost target = v@.subrange(i as int, j as int);
    assert(trim_end_spec(head.subrange(0, (j - i) as int)) == target) by {
        assert(!white_space(target[target.len() - 1]));
    }
    let mut k: usize = i;
    while k < j
        invariant
            i <= k <= j <= n,
            n == v@.len(),
            r@ == v@.subrange(i as int, k as int),
        decreases j - k,
    {
        r.push(v[k]);
        k = k + 1;
        assert(r@ =~= v@.subrange(i as int, k as int));
    }
    r
}

/// The length of the leading run of non-whitespace characters.
pub open spec fn word_len(s: Seq<char>) -> int
    decreases s.len(),
{
    if s.len() > 0 && !white_space(s[0]) {
        1 + word_len(s.drop_first())
    } else {
        0
    }
}

proof fn lemma_word_len_bounds(s: Seq<char>)
    ensures
        0 <= word_len(s) <= s.len(),
        forall|j: int| 0 <= j < word_len(s) ==> !white_space(s[j]),
    decreases s.len(),
{
    if s.len() > 0 && !white_space(s[0]) {
        let t = s.drop_first();
        lemma_word_len_bounds(t);
        assert forall|j: int| 0 <= j < word_len(s) implies !white_space(s[j]) by {
            if j > 0 {
                assert(s[j] == t[j - 1]);
            }
        }
    }
}

/// The whitespace-separated words of `s`, as `str::split_whitespace` yields
/// them.
pub open spec fn split_ws_spec(s: Seq<char>) -> Seq<Seq<char>>
    decreases s.len(),
{
    if s.len() == 0 {
        Seq::empty()
    } else if white_space(s[0]) {
        split_ws_spec(s.drop_first())
    } else {
        let k = word_len(s);
        if 1 <= k <= s.len() {
            seq![s.subrange(0, k)] + split_ws_spec(s.subrange(k, s.len() as int))
        } else {
            Seq::empty()
        }
    }
}

/// Whether `w` is one of the whitespace-separated words of `s`.
pub open spec fn has_word(s: Seq<char>, w: Seq<char>) -> bool {
    split_ws_spec(s).contains(w)
}

proof fn lemma_contains_head(w: Seq<char>, t: Seq<Seq<char>>, x: Seq<char>)
    ensures
        (seq![w] + t).contains(x) == (w == x || t.contains(x)),
{
    let s = seq![w] + t;
    if w == x {
        assert(s[0] == x);
    } else if t.contains(x) {
        let k = choose|k: int| 0 <= k < t.len() && t[k] == x;
        assert(s[k + 1] == x);
    } else if s.contains(x) {
        let k = choose|k: int| 0 <= k < s.len() && s[k] == x;
        if k == 0 {
            assert(w == x);
        } else {
            assert(t[k - 1] == x);
        }
    }
}

/// Whether `cls` occurs as a whitespace-separated word of `v`.
pub fn contains_word(v: &Vec<char>, cls: &Vec<char>) -> (r: bool)
    ensures
        r == has_word(v@, cls@),
{
    let n = v.len();
    let mut i: usize = 0;
    proof {
        assert(v@.subrange(0, n as int) =~= v@);
    }
    while i < n
        invariant
            n == v@.len(),
            i <= n,
            has_word(v@, cls@) == has_word(v@.subrange(i as int, n as int), cls@),
        decreases n - i,
    {
        if char_is_whitespace(v[i]) {
            proof {
                let rest = v@.subrange(i as int, n as int);
                assert(white_space(rest[0]));
                assert(rest.drop_first() =~= v@.subrange(i as int + 1, n as int));
            }
            i = i + 1;
        } else {
            // scan the word starting at i
            let ghost rest = v@.subrange(i as int, n as int);
            let mut j: usize = i + 1;
            while j < n && !char_is_whitespace(v[j])
                invariant
                    i < j <= n,
                    n == v@.len(),
                    forall|k: int| i <= k < j ==> !white_space(v@[k]),
                    !white_space(v@[i as int]),
                decreases n - j,
            {
                j = j + 1;
            }
            proof {
                lemma_word_len_from_scan(rest, (j - i) as int);
                assert(rest.subrange(0, (j - i) as int) =~= v@.subrange(i as int, j as int));
                assert(rest.subrange((j - i) as int, rest.len() as int) =~= v@.subrange(
                    j as int,
                    n as int,
                ));
            }
            let mut word: Vec<char> = Vec::new();
            let mut k: usize = i;
            while k < j
                invariant
                    i <= k <= j <= n,
                    n == v@.len(),
                    word@ == v@.subrange(i as int, k as int),
                decreases j - k,
            {
                word.push(v[k]);
                k = k + 1;
                assert(word@ =~= v@.subrange(i as int, k as int));
            }
            let ghost tail = v@.subrange(j as int, n as int);
            proof {
                assert(split_ws_spec(rest) == seq![word@] + split_ws_spec(tail));
                lemma_contains_head(word@, split_ws_spec(tail), cls@);
            }
            if chars_eq(&word, cls) {
                assert(split_ws_spec(rest).contains(cls@));
                return true;
            }
            i = j;
        }
    }
    proof {
        assert(v@.subrange(n as int, n as int) =~= Seq::<char>::empty());
    }
    false
}

proof fn lemma_word_len_from_scan(s: Seq<char>, k: int)
    requires
        0 <= k <= s.len(),
        forall|j: int| 0 <= j < k ==> !white_space(s[j]),
        k < s.len() ==> white_space(s[k]),
        s.len() > 0 ==> !white_space(s[0]),
    ensures
        word_len(s) == k,
    decreases s.len(),
{
    if s.len() == 0 {
    } else if k == 0 {
        assert(white_space(s[0]));
        assert(false);
    } else {
        let t = s.drop_first();
        if k - 1 < t.len() {
            assert(white_space(t[k - 1]) == white_space(s[k]));
        }
        if t.len() > 0 && k - 1 > 0 {
            assert(!white_space(t[0]) == !white_space(s[1]));
        }
        if k - 1 == 0 {
            if t.len() > 0 {
                assert(white_space(t[0]));
            }
            lemma_word_len_zero(t);
        } else {
            lemma_word_len_from_scan(t, k - 1);
        }
        assert(word_len(s) == 1 + word_len(t));
    }
}

proof fn lemma_word_len_zero(s: Seq<char>)
    requires
        s.len() == 0 || white_space(s[0]),
    ensures
        word_len(s) == 0,
{
}

/// The mapping a name/value pair list leaves behind: the last value written
/// under a name wins.
pub open spec fn pairs_map(pairs: Seq<(Seq<char>, Seq<char>)>) -> Map<Seq<char>, Seq<char>>
    decreases pairs.len(),
{
    if pairs.len() == 0 {
        Map::empty()
    } else {
        pairs_map(pairs.drop_last()).insert(pairs.last().0, pairs.last().1)
    }
}

/// The decimal digit character for `d`.
pub open spec fn dec_digit(d: int) -> char {
    if d == 0 { '0' }
    else if d == 1 { '1' }
    else if d == 2 { '2' }
    else if d == 3 { '3' }
    else if d == 4 { '4' }
    else if d == 5 { '5' }
    else if d == 6 { '6' }
    else if d == 7 { '7' }
    else if d == 8 { '8' }
    else { '9' }
}

/// The decimal digits of a nonnegative number, most significant first.
pub open spec fn dec_str(n: int) -> Seq<char>
    decreases n,
{
    if n < 10 {
        seq![dec_digit(n)]
    } else {
        dec_str(n / 10).push(dec_digit(n % 10))
    }
}

/// The decimal digit character for `d`.
fn digit_char(d: usize) -> (r: char)
    requires
        d < 10,
    ensures
        r == dec_digit(d as int),
{
    if d == 0 { '0' }
    else if d == 1 { '1' }
    else if d == 2 { '2' }
    else if d == 3 { '3' }
    else if d == 4 { '4' }
    else if d == 5 { '5' }
    else if d == 6 { '6' }
    else if d == 7 { '7' }
    else if d == 8 { '8' }
    else { '9' }
}

/// Push the decimal digits of `n` onto `out`, most significant first.
fn push_decimal(n: usize, out: &mut Vec<char>)
    ensures
        final(out)@ == old(out)@ + dec_str(n as int),
    decreases n,
{
    if n >= 10 {
        push_decimal(n / 10, out);
        out.push(digit_char(n % 10));
        proof {
            assert(final(out)@ =~= old(out)@ + dec_str(n as int));
        }
    } else {
        out.push(digit_char(n));
        proof {
            assert(final(out)@ =~= old(out)@ + dec_str(n as int));
        }
    }
}

/// The decimal rendering of a number.
pub fn usize_to_string(n: usize) -> (r: String)
    ensures
        r@ == dec_str(n as int),
{
    let mut out: Vec<char> = Vec::new();
    push_decimal(n, &mut out);
    proof {
        assert(Seq::<char>::empty() + dec_str(n as int) =~= dec_str(n as int));
    }
    chars_to_string(&out)
}

} // verus!
