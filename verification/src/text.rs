//! Character-sequence utilities: whitespace trimming, splitting on a
//! separator, and base-10 number parsing, each as a spec function over
//! `Seq<char>` with a verified executable counterpart working on index
//! ranges of a `&str`.

use vstd::prelude::*;
use vstd::string::StrSliceExecFns;

verus! {

/// Whitespace as far as header fields are concerned: the ASCII blanks.
pub open spec fn is_ws(c: char) -> bool {
    c == ' ' || c == '\t' || c == '\n' || c == '\r'
}

/// `s` without its leading whitespace.
pub open spec fn trim_start(s: Seq<char>) -> Seq<char>
    decreases s.len(),
{
    if s.len() > 0 && is_ws(s[0]) {
        trim_start(s.drop_first())
    } else {
        s
    }
}

/// `s` without its trailing whitespace.
pub open spec fn trim_end(s: Seq<char>) -> Seq<char>
    decreases s.len(),
{
    if s.len() > 0 && is_ws(s.last()) {
        trim_end(s.drop_last())
    } else {
        s
    }
}

/// `s` without its surrounding whitespace.
pub open spec fn trim(s: Seq<char>) -> Seq<char> {
    trim_end(trim_start(s))
}

/// The index of the first occurrence of `c` in `s`, or `s.len()` if there
/// is none.
pub open spec fn first_pos(s: Seq<char>, c: char) -> int
    decreases s.len(),
{
    if s.len() == 0 {
        0
    } else if s[0] == c {
        0
    } else {
        1 + first_pos(s.drop_first(), c)
    }
}

pub proof fn lemma_first_pos_bounds(s: Seq<char>, c: char)
    ensures
        0 <= first_pos(s, c) <= s.len(),
        first_pos(s, c) < s.len() ==> s[first_pos(s, c)] == c,
        forall|k: int| 0 <= k < first_pos(s, c) ==> s[k] != c,
        s.contains(c) <==> first_pos(s, c) < s.len(),
    decreases s.len(),
{
    if s.len() == 0 {
        assert(!s.contains(c));
    } else if s[0] == c {
        assert(s.contains(c));
    } else {
        let t = s.drop_first();
        lemma_first_pos_bounds(t, c);
        assert(forall|k: int| 0 <= k < t.len() ==> t[k] == s[k + 1]);
        assert(forall|k: int| 0 <= k < first_pos(s, c) ==> s[k] != c) by {
            assert(forall|k: int| 1 <= k < first_pos(s, c) ==> s[k] == t[k - 1] && t[k - 1] != c);
        }
        if s.contains(c) {
            let i = choose|i: int| 0 <= i < s.len() && s[i] == c;
            assert(t[i - 1] == c);
            assert(t.contains(c));
        }
        if t.contains(c) {
            let i = choose|i: int| 0 <= i < t.len() && t[i] == c;
            assert(s[i + 1] == c);
            assert(s.contains(c));
        }
    }
}

/// `first_pos` is the only index with nothing equal to `c` before it and
/// `c` (or the end of the sequence) at it.
pub proof fn lemma_first_pos_is(s: Seq<char>, c: char, i: int)
    requires
        0 <= i <= s.len(),
        forall|k: int| 0 <= k < i ==> s[k] != c,
        i < s.len() ==> s[i] == c,
    ensures
        first_pos(s, c) == i,
{
    lemma_first_pos_bounds(s, c);
    let p = first_pos(s, c);
    if p < i {
        assert(s[p] != c);
    } else if p > i {
        assert(s[i] != c);
    }
}

/// `s` split on every occurrence of `sep`; the separators themselves are
/// dropped. An empty sequence yields one empty segment.
pub open spec fn split_on(s: Seq<char>, sep: char) -> Seq<Seq<char>>
    decreases s.len(),
    via split_on_decreases
{
    if s.contains(sep) {
        let i = first_pos(s, sep);
        seq![s.subrange(0, i)] + split_on(s.subrange(i + 1, s.len() as int), sep)
    } else {
        seq![s]
    }
}

#[via_fn]
proof fn split_on_decreases(s: Seq<char>, sep: char) {
    if s.contains(sep) {
        lemma_first_pos_bounds(s, sep);
    }
}

pub proof fn lemma_split_on_len(s: Seq<char>, sep: char)
    ensures
        split_on(s, sep).len() >= 1,
{
    if s.contains(sep) {
        lemma_first_pos_bounds(s, sep);
    }
}

/// A base-10 digit.
pub open spec fn is_digit(c: char) -> bool {
    48 <= c as int <= 57
}

pub open spec fn digit_val(c: char) -> int {
    c as int - 48
}

pub open spec fn all_digits(s: Seq<char>) -> bool {
    forall|k: int| 0 <= k < s.len() ==> is_digit(s[k])
}

/// The base-10 value of a digit string, most significant digit first.
pub open spec fn digits_val(s: Seq<char>) -> int
    decreases s.len(),
{
    if s.len() == 0 {
        0
    } else {
        10 * digits_val(s.drop_last()) + digit_val(s.last())
    }
}

/// What a duration value parses to: a string of one or more digits whose
/// value fits in a `u64`, and nothing else.
pub open spec fn spec_parse_u64(s: Seq<char>) -> Option<u64> {
    if s.len() > 0 && all_digits(s) && digits_val(s) <= u64::MAX {
        Some(digits_val(s) as u64)
    } else {
        None
    }
}

pub proof fn lemma_digits_val_nonneg(s: Seq<char>)
    requires
        all_digits(s),
    ensures
        digits_val(s) >= 0,
    decreases s.len(),
{
    if s.len() > 0 {
        assert(all_digits(s.drop_last()));
        lemma_digits_val_nonneg(s.drop_last());
    }
}

/// Extending a digit string never shrinks its value.
pub proof fn lemma_digits_val_prefix_le(s: Seq<char>, m: int)
    requires
        all_digits(s),
        0 <= m <= s.len(),
    ensures
        digits_val(s.take(m)) <= digits_val(s),
    decreases s.len(),
{
    if m == s.len() {
        assert(s.take(m) =~= s);
    } else {
        let t = s.drop_last();
        assert(all_digits(t));
        lemma_digits_val_prefix_le(t, m);
        assert(t.take(m) =~= s.take(m));
        lemma_digits_val_nonneg(t);
        assert(digits_val(s) == 10 * digits_val(t) + digit_val(s.last()));
    }
}

fn is_ws_char(c: char) -> (r: bool)
    ensures
        r == is_ws(c),
{
    c == ' ' || c == '\t' || c == '\n' || c == '\r'
}

/// The first occurrence of `sep` in `s` at an index in `[from, to)`, if any.
pub fn find_from(s: &str, from: usize, to: usize, sep: char) -> (r: Option<usize>)
    requires
        from <= to,
        to <= s@.len(),
    ensures
        (match r {
            Some(i) => from <= i < to && s@[i as int] == sep && (forall|k: int|
                from <= k < i ==> s@[k] != sep),
            None => forall|k: int| from <= k < to ==> s@[k] != sep,
        }),
{
    let mut i = from;
    while i < to
        invariant
            from <= i <= to,
            to <= s@.len(),
            forall|k: int| from <= k < i ==> s@[k] != sep,
        decreases to - i,
    {
        if s.get_char(i) == sep {
            return Some(i);
        }
        i = i + 1;
    }
    None
}

/// Narrows `[from, to)` to the subrange holding the trimmed text.
pub fn trim_range(s: &str, from: usize, to: usize) -> (r: (usize, usize))
    requires
        from <= to,
        to <= s@.len(),
    ensures
        from <= r.0 <= r.1 <= to,
        s@.subrange(r.0 as int, r.1 as int) == trim(s@.subrange(from as int, to as int)),
{
    let ghost orig = s@.subrange(from as int, to as int);
    let mut lo = from;
    while lo < to && is_ws_char(s.get_char(lo))
        invariant
            from <= lo <= to,
            to <= s@.len(),
            orig == s@.subrange(from as int, to as int),
            trim_start(orig) == trim_start(s@.subrange(lo as int, to as int)),
        decreases to - lo,
    {
        proof {
            let cur = s@.subrange(lo as int, to as int);
            assert(cur[0] == s@[lo as int]);
            assert(cur.drop_first() =~= s@.subrange(lo + 1, to as int));
        }
        lo = lo + 1;
    }
    proof {
        assert(trim_start(orig) == s@.subrange(lo as int, to as int));
    }
    let mut hi = to;
    while hi > lo && is_ws_char(s.get_char(hi - 1))
        invariant
            from <= lo <= hi <= to,
            to <= s@.len(),
            trim_end(s@.subrange(lo as int, to as int)) == trim_end(
                s@.subrange(lo as int, hi as int),
            ),
        decreases hi - lo,
    {
        proof {
            let cur = s@.subrange(lo as int, hi as int);
            assert(cur.last() == s@[hi - 1]);
            assert(cur.drop_last() =~= s@.subrange(lo as int, hi - 1));
        }
        hi = hi - 1;
    }
    proof {
        assert(trim_end(s@.subrange(lo as int, hi as int)) == s@.subrange(
            lo as int,
            hi as int,
        ));
    }
    (lo, hi)
}

/// Whether the characters of `s` in `[from, to)` are exactly those of `t`.
pub fn range_eq_str(s: &str, from: usize, to: usize, t: &str) -> (r: bool)
    requires
        from <= to,
        to <= s@.len(),
    ensures
        r == (s@.subrange(from as int, to as int) == t@),
{
    let ghost sub = s@.subrange(from as int, to as int);
    let tn = t.unicode_len();
    if to - from != tn {
        return false;
    }
    let mut k: usize = 0;
    while k < tn
        invariant
            k <= tn,
            from + tn == to,
            to <= s@.len(),
            tn == t@.len(),
            sub == s@.subrange(from as int, to as int),
            forall|j: int| 0 <= j < k ==> sub[j] == t@[j],
        decreases tn - k,
    {
        if s.get_char(from + k) != t.get_char(k) {
            proof {
                assert(sub[k as int] == s@[from + k]);
            }
            return false;
        }
        k = k + 1;
    }
    proof {
        assert(sub =~= t@);
    }
    true
}

/// Parses the characters of `s` in `[from, to)` as a base-10 `u64`,
/// exactly as `spec_parse_u64` describes.
pub fn parse_u64_range(s: &str, from: usize, to: usize) -> (r: Option<u64>)
    requires
        from <= to,
        to <= s@.len(),
    ensures
        r == spec_parse_u64(s@.subrange(from as int, to as int)),
{
    let ghost sub = s@.subrange(from as int, to as int);
    if from == to {
        return None;
    }
    let n = to - from;
    let mut acc: u64 = 0;
    let mut k: usize = 0;
    while k < n
        invariant
            k <= n,
            from + n == to,
            to <= s@.len(),
            sub == s@.subrange(from as int, to as int),
            n == sub.len(),
            all_digits(sub.take(k as int)),
            acc as int == digits_val(sub.take(k as int)),
        decreases n - k,
    {
        let c = s.get_char(from + k);
        proof {
            assert(sub[k as int] == c);
        }
        let u = c as u32;
        if u < 48 || u > 57 {
            proof {
                assert(!is_digit(sub[k as int]));
            }
            return None;
        }
        let d = (u - 48) as u64;
        proof {
            assert(sub.take(k + 1).drop_last() =~= sub.take(k as int));
            assert(sub.take(k + 1).last() == sub[k as int]);
            assert(digits_val(sub.take(k + 1)) == 10 * acc + d);
        }
        if acc > (u64::MAX - d) / 10 {
            proof {
                let m = u64::MAX as int;
                let q = (m - d) / 10;
                assert(q * 10 + (m - d) % 10 == m - d);
                assert(10 * acc + d > m);
                if all_digits(sub) {
                    lemma_digits_val_prefix_le(sub, k + 1);
                }
            }
            return None;
        }
        proof {
            let m = u64::MAX as int;
            let q = (m - d) / 10;
            assert(q * 10 + (m - d) % 10 == m - d);
            assert(10 * acc + d <= m);
        }
        acc = acc * 10 + d;
        k = k + 1;
    }
    proof {
        assert(sub.take(n as int) =~= sub);
    }
    Some(acc)
}

} // verus!
