//! A verified parser for the HTTP `Cache-Control` header (RFC 7234, RFC 5861).
//!
//! [`CacheControl::from_header`] takes a whole `"Cache-Control: ..."` line;
//! [`CacheControl::from_value`] takes just the directive list after the colon.
//! Both return `None` when the input is rejected, and a [`CacheControl`]
//! record otherwise. All durations are in whole seconds.

use vstd::prelude::*;

pub mod text;

use crate::text::{
    find_from, first_pos, lemma_first_pos_bounds, lemma_first_pos_is, lemma_split_on_len,
    parse_u64_range, range_eq_str, spec_parse_u64, split_on, trim, trim_range,
};
use vstd::string::StrSliceExecFns;

verus! {

/// How the data may be cached.
#[derive(Debug, Clone, Copy, PartialEq, Eq)]
pub enum Cachability {
    /// Any cache can cache this data.
    Public,
    /// Data cannot be cached in shared caches.
    Private,
    /// No one can cache this data.
    NoCache,
    /// Cache the data the first time, and use the cache from then on.
    OnlyIfCached,
}

/// The directives of one `Cache-Control` header, each duration in seconds.
#[derive(Debug, Clone, Copy, PartialEq, Eq)]
pub struct CacheControl {
    pub cachability: Option<Cachability>,
    pub max_age: Option<u64>,
    pub s_max_age: Option<u64>,
    pub max_stale: Option<u64>,
    pub min_fresh: Option<u64>,
    pub must_revalidate: bool,
    pub proxy_revalidate: bool,
    pub immutable: bool,
    pub no_store: bool,
    pub no_transform: bool,
    pub stale_while_revalidate: Option<u64>,
    pub stale_if_error: Option<u64>,
}

impl CacheControl {
    /// The record with no directive recognized: every field absent or false.
    pub open spec fn spec_default() -> CacheControl {
        CacheControl {
            cachability: None,
            max_age: None,
            s_max_age: None,
            max_stale: None,
            min_fresh: None,
            must_revalidate: false,
            proxy_revalidate: false,
            immutable: false,
            no_store: false,
            no_transform: false,
            stale_while_revalidate: None,
            stale_if_error: None,
        }
    }

    fn new() -> (r: CacheControl)
        ensures
            r == CacheControl::spec_default(),
    {
        CacheControl::default()
    }

    /// Parses the value of the Cache-Control header (everything after
    /// `"Cache-Control:"`), exactly as `spec_from_value` describes.
    pub fn from_value(value: &str) -> (r: Option<CacheControl>)
        ensures
            r == spec_from_value(value@),
    {
        let n = value.unicode_len();
        let mut acc = CacheControl::new();
        let mut start: usize = 0;
        proof {
            assert(value@.subrange(0, n as int) =~= value@);
        }
        loop
            invariant
                start <= n,
                n == value@.len(),
                spec_from_value(value@) == apply_tokens(
                    split_on(value@.subrange(start as int, n as int), ','),
                    acc,
                ),
            decreases n - start,
        {
            let ghost rest = value@.subrange(start as int, n as int);
            let comma = find_from(value, start, n, ',');
            let end = match comma {
                Some(i) => i,
                None => n,
            };
            proof {
                match comma {
                    Some(i) => {
                        assert(rest[i - start] == value@[i as int]);
                        lemma_first_pos_is(rest, ',', i - start);
                        assert(rest.contains(','));
                        assert(rest.subrange(0, i - start) =~= value@.subrange(
                            start as int,
                            i as int,
                        ));
                        assert(rest.subrange(i - start + 1, rest.len() as int) =~= value@.subrange(
                            i + 1,
                            n as int,
                        ));
                        lemma_apply_tokens_cons(
                            value@.subrange(start as int, i as int),
                            split_on(value@.subrange(i + 1, n as int), ','),
                            acc,
                        );
                    }
                    None => {
                        if rest.contains(',') {
                            let k = choose|k: int| 0 <= k < rest.len() && rest[k] == ',';
                            assert(value@[start + k] == ',');
                        }
                        lemma_apply_tokens_cons(rest, Seq::empty(), acc);
                        assert(seq![rest] + Seq::<Seq<char>>::empty() =~= seq![rest]);
                    }
                }
            }
            match apply_token_exec(value, start, end, acc) {
                None => {
                    return None;
                }
                Some(a2) => {
                    acc = a2;
                    match comma {
                        Some(i) => {
                            start = i + 1;
                        }
                        None => {
                            return Some(acc);
                        }
                    }
                }
            }
        }
    }

    /// Parses a whole Cache-Control header line, exactly as
    /// `spec_from_header` describes.
    pub fn from_header(value: &str) -> (r: Option<CacheControl>)
        ensures
            r == spec_from_header(value@),
    {
        let n = value.unicode_len();
        let colon = match find_from(value, 0, n, ':') {
            None => {
                proof {
                    if value@.contains(':') {
                        let k = choose|k: int| 0 <= k < value@.len() && value@[k] == ':';
                        assert(value@[k] == ':');
                    }
                    assert(split_on(value@, ':') =~= seq![value@]);
                }
                return None;
            }
            Some(i) => i,
        };
        proof {
            lemma_first_pos_is(value@, ':', colon as int);
            assert(value@.contains(':'));
        }
        let ghost seg0 = value@.subrange(0, colon as int);
        let ghost rest = value@.subrange(colon + 1, n as int);
        if let Some(j) = find_from(value, colon + 1, n, ':') {
            proof {
                assert(rest[j - colon - 1] == value@[j as int]);
                assert(rest.contains(':'));
                assert(split_on(value@, ':') == seq![seg0] + split_on(rest, ':'));
                lemma_first_pos_bounds(rest, ':');
                let p = first_pos(rest, ':');
                assert(split_on(rest, ':') == seq![rest.subrange(0, p)] + split_on(
                    rest.subrange(p + 1, rest.len() as int),
                    ':',
                ));
                lemma_split_on_len(rest.subrange(p + 1, rest.len() as int), ':');
                assert(split_on(value@, ':').len() >= 3);
            }
            return None;
        }
        proof {
            if rest.contains(':') {
                let k = choose|k: int| 0 <= k < rest.len() && rest[k] == ':';
                assert(value@[colon + 1 + k] == ':');
            }
            assert(split_on(value@, ':') == seq![seg0] + split_on(rest, ':'));
            assert(split_on(rest, ':') == seq![rest]);
            assert(seq![seg0] + seq![rest] =~= seq![seg0, rest]);
        }
        let (af, at) = trim_range(value, 0, colon);
        if !range_eq_str(value, af, at, "Cache-Control") {
            return None;
        }
        let (vf, vt) = trim_range(value, colon + 1, n);
        let sub = value.substring_char(vf, vt);
        proof {
            assert(sub@ == trim(rest));
        }
        CacheControl::from_value(sub)
    }
}

/// The key of a directive token: what stands before the first `=`
/// (or the whole token when there is none), trimmed.
pub open spec fn token_key(t: Seq<char>) -> Seq<char> {
    if t.contains('=') {
        trim(t.subrange(0, first_pos(t, '=')))
    } else {
        trim(t)
    }
}

/// The value of a directive token: what stands after the first `=`,
/// trimmed, or nothing when the token has no `=`.
pub open spec fn token_val(t: Seq<char>) -> Option<Seq<char>> {
    if t.contains('=') {
        Some(trim(t.subrange(first_pos(t, '=') + 1, t.len() as int)))
    } else {
        None
    }
}

/// The seconds a numeric directive token carries: its value parsed as a
/// base-10 `u64`, or nothing when the value is absent or malformed.
pub open spec fn token_num(t: Seq<char>) -> Option<u64> {
    match token_val(t) {
        Some(v) => spec_parse_u64(v),
        None => None,
    }
}

/// One directive applied to the accumulator record: cachability keywords
/// overwrite `cachability`, numeric directives must carry a well-formed
/// value and set their field, flag directives set their flag, and any
/// other key leaves the record unchanged. `None` only on a malformed
/// numeric directive.
pub open spec fn apply_token(t: Seq<char>, acc: CacheControl) -> Option<CacheControl> {
    let key = token_key(t);
    if key == "public"@ {
        Some(CacheControl { cachability: Some(Cachability::Public), ..acc })
    } else if key == "private"@ {
        Some(CacheControl { cachability: Some(Cachability::Private), ..acc })
    } else if key == "no-cache"@ {
        Some(CacheControl { cachability: Some(Cachability::NoCache), ..acc })
    } else if key == "only-if-cached"@ {
        Some(CacheControl { cachability: Some(Cachability::OnlyIfCached), ..acc })
    } else if key == "max-age"@ {
        match token_num(t) {
            Some(v) => Some(CacheControl { max_age: Some(v), ..acc }),
            None => None,
        }
    } else if key == "max-stale"@ {
        match token_num(t) {
            Some(v) => Some(CacheControl { max_stale: Some(v), ..acc }),
            None => None,
        }
    } else if key == "min-fresh"@ {
        match token_num(t) {
            Some(v) => Some(CacheControl { min_fresh: Some(v), ..acc }),
            None => None,
        }
    } else if key == "must-revalidate"@ {
        Some(CacheControl { must_revalidate: true, ..acc })
    } else if key == "proxy-revalidate"@ {
        Some(CacheControl { proxy_revalidate: true, ..acc })
    } else if key == "immutable"@ {
        Some(CacheControl { immutable: true, ..acc })
    } else if key == "no-store"@ {
        Some(CacheControl { no_store: true, ..acc })
    } else if key == "no-transform"@ {
        Some(CacheControl { no_transform: true, ..acc })
    } else if key == "stale-while-revalidate"@ {
        match token_num(t) {
            Some(v) => Some(CacheControl { stale_while_revalidate: Some(v), ..acc }),
            None => None,
        }
    } else if key == "stale-if-error"@ {
        match token_num(t) {
            Some(v) => Some(CacheControl { stale_if_error: Some(v), ..acc }),
            None => None,
        }
    } else {
        Some(acc)
    }
}

/// The directive tokens applied left to right, starting from `acc`;
/// the first malformed numeric directive aborts the whole parse.
pub open spec fn apply_tokens(ts: Seq<Seq<char>>, acc: CacheControl) -> Option<CacheControl>
    decreases ts.len(),
{
    if ts.len() == 0 {
        Some(acc)
    } else {
        match apply_token(ts[0], acc) {
            Some(a2) => apply_tokens(ts.drop_first(), a2),
            None => None,
        }
    }
}

/// What `from_value` returns: the comma-separated tokens of `s` applied
/// to the all-default record.
pub open spec fn spec_from_value(s: Seq<char>) -> Option<CacheControl> {
    apply_tokens(split_on(s, ','), CacheControl::spec_default())
}

/// What `from_header` returns: the line must split on `:` into exactly
/// two segments whose first trims to `Cache-Control`; the second segment,
/// trimmed, is then parsed as a directive list.
pub open spec fn spec_from_header(s: Seq<char>) -> Option<CacheControl> {
    let segs = split_on(s, ':');
    if segs.len() == 2 && trim(segs[0]) == "Cache-Control"@ {
        spec_from_value(trim(segs[1]))
    } else {
        None
    }
}

/// The seconds carried by the token in `[from, to)`, whose first `=` (if
/// any) the caller found at `eq`.
fn token_num_exec(s: &str, from: usize, to: usize, eq: Option<usize>) -> (r: Option<u64>)
    requires
        from <= to,
        to <= s@.len(),
        (match eq {
            Some(j) => from <= j < to && s@[j as int] == '=' && (forall|k: int|
                from <= k < j ==> s@[k] != '='),
            None => forall|k: int| from <= k < to ==> s@[k] != '=',
        }),
    ensures
        r == token_num(s@.subrange(from as int, to as int)),
{
    let ghost token = s@.subrange(from as int, to as int);
    match eq {
        None => {
            proof {
                if token.contains('=') {
                    let i = choose|i: int| 0 <= i < token.len() && token[i] == '=';
                    assert(s@[from + i] == '=');
                }
            }
            None
        }
        Some(j) => {
            proof {
                assert(token[j - from] == s@[j as int]);
                lemma_first_pos_is(token, '=', j - from);
                assert(token.contains('='));
                assert(token.subrange(j - from + 1, token.len() as int) =~= s@.subrange(
                    j + 1,
                    to as int,
                ));
            }
            let (vf, vt) = trim_range(s, j + 1, to);
            parse_u64_range(s, vf, vt)
        }
    }
}

/// One directive token of `s`, in `[from, to)`, applied to `acc` exactly
/// as `apply_token` describes.
fn apply_token_exec(s: &str, from: usize, to: usize, acc: CacheControl) -> (r: Option<
    CacheControl,
>)
    requires
        from <= to,
        to <= s@.len(),
    ensures
        r == apply_token(s@.subrange(from as int, to as int), acc),
{
    let ghost token = s@.subrange(from as int, to as int);
    let eq = find_from(s, from, to, '=');
    let (kf, kt) = match eq {
        Some(j) => trim_range(s, from, j),
        None => trim_range(s, from, to),
    };
    proof {
        match eq {
            Some(j) => {
                assert(token[j - from] == s@[j as int]);
                lemma_first_pos_is(token, '=', j - from);
                assert(token.contains('='));
                assert(token.subrange(0, j - from) =~= s@.subrange(from as int, j as int));
                assert(token_key(token) == s@.subrange(kf as int, kt as int));
            }
            None => {
                if token.contains('=') {
                    let i = choose|i: int| 0 <= i < token.len() && token[i] == '=';
                    assert(s@[from + i] == '=');
                }
                assert(token =~= s@.subrange(from as int, to as int));
                assert(token_key(token) == s@.subrange(kf as int, kt as int));
            }
        }
    }
    if range_eq_str(s, kf, kt, "public") {
        Some(CacheControl { cachability: Some(Cachability::Public), ..acc })
    } else if range_eq_str(s, kf, kt, "private") {
        Some(CacheControl { cachability: Some(Cachability::Private), ..acc })
    } else if range_eq_str(s, kf, kt, "no-cache") {
        Some(CacheControl { cachability: Some(Cachability::NoCache), ..acc })
    } else if range_eq_str(s, kf, kt, "only-if-cached") {
        Some(CacheControl { cachability: Some(Cachability::OnlyIfCached), ..acc })
    } else if range_eq_str(s, kf, kt, "max-age") {
        match token_num_exec(s, from, to, eq) {
            Some(v) => Some(CacheControl { max_age: Some(v), ..acc }),
            None => None,
        }
    } else if range_eq_str(s, kf, kt, "max-stale") {
        match token_num_exec(s, from, to, eq) {
            Some(v) => Some(CacheControl { max_stale: Some(v), ..acc }),
            None => None,
        }
    } else if range_eq_str(s, kf, kt, "min-fresh") {
        match token_num_exec(s, from, to, eq) {
            Some(v) => Some(CacheControl { min_fresh: Some(v), ..acc }),
            None => None,
        }
    } else if range_eq_str(s, kf, kt, "must-revalidate") {
        Some(CacheControl { must_revalidate: true, ..acc })
    } else if range_eq_str(s, kf, kt, "proxy-revalidate") {
        Some(CacheControl { proxy_revalidate: true, ..acc })
    } else if range_eq_str(s, kf, kt, "immutable") {
        Some(CacheControl { immutable: true, ..acc })
    } else if range_eq_str(s, kf, kt, "no-store") {
        Some(CacheControl { no_store: true, ..acc })
    } else if range_eq_str(s, kf, kt, "no-transform") {
        Some(CacheControl { no_transform: true, ..acc })
    } else if range_eq_str(s, kf, kt, "stale-while-revalidate") {
        match token_num_exec(s, from, to, eq) {
            Some(v) => Some(CacheControl { stale_while_revalidate: Some(v), ..acc }),
            None => None,
        }
    } else if range_eq_str(s, kf, kt, "stale-if-error") {
        match token_num_exec(s, from, to, eq) {
            Some(v) => Some(CacheControl { stale_if_error: Some(v), ..acc }),
            None => None,
        }
    } else {
        Some(acc)
    }
}

proof fn lemma_apply_tokens_cons(t: Seq<char>, ts: Seq<Seq<char>>, acc: CacheControl)
    ensures
        apply_tokens(seq![t] + ts, acc) == (match apply_token(t, acc) {
            Some(a2) => apply_tokens(ts, a2),
            None => None::<CacheControl>,
        }),
{
    let all = seq![t] + ts;
    assert(all[0] == t);
    assert(all.drop_first() =~= ts);
}

/// The cachability a single token selects, if its key is one of the four
/// cachability keywords.
pub open spec fn token_cachability(t: Seq<char>) -> Option<Cachability> {
    let key = token_key(t);
    if key == "public"@ {
        Some(Cachability::Public)
    } else if key == "private"@ {
        Some(Cachability::Private)
    } else if key == "no-cache"@ {
        Some(Cachability::NoCache)
    } else if key == "only-if-cached"@ {
        Some(Cachability::OnlyIfCached)
    } else {
        None
    }
}

/// The cachability selected by the last cachability directive of `ts`,
/// scanning from the right; `base` when `ts` has none.
pub open spec fn last_cachability(ts: Seq<Seq<char>>, base: Option<Cachability>) -> Option<
    Cachability,
>
    decreases ts.len(),
{
    if ts.len() == 0 {
        base
    } else {
        match token_cachability(ts.last()) {
            Some(c) => Some(c),
            None => last_cachability(ts.drop_last(), base),
        }
    }
}

proof fn lemma_last_cachability_cons(
    t: Seq<char>,
    ts: Seq<Seq<char>>,
    base: Option<Cachability>,
)
    ensures
        last_cachability(seq![t] + ts, base) == last_cachability(
            ts,
            (match token_cachability(t) {
                Some(c) => Some(c),
                None => base,
            }),
        ),
    decreases ts.len(),
{
    let all = seq![t] + ts;
    if ts.len() == 0 {
        assert(all.last() == t);
        assert(all.drop_last() =~= Seq::<Seq<char>>::empty());
    } else {
        assert(all.last() == ts.last());
        if token_cachability(ts.last()) is None {
            assert(all.drop_last() =~= seq![t] + ts.drop_last());
            lemma_last_cachability_cons(t, ts.drop_last(), base);
        }
    }
}

/// Law: the last cachability directive in the list wins. Whenever a token
/// list parses successfully, the record's `cachability` is the one
/// selected by the rightmost cachability token, and the accumulator's own
/// cachability where there is no such token.
pub proof fn lemma_last_cachability_wins(ts: Seq<Seq<char>>, acc: CacheControl, r: CacheControl)
    requires
        apply_tokens(ts, acc) == Some(r),
    ensures
        r.cachability == last_cachability(ts, acc.cachability),
    decreases ts.len(),
{
    if ts.len() == 0 {
        assert(r == acc);
    } else {
        let t = ts[0];
        let a2 = apply_token(t, acc)->Some_0;
        lemma_last_cachability_wins(ts.drop_first(), a2, r);
        assert(ts =~= seq![t] + ts.drop_first());
        lemma_last_cachability_cons(t, ts.drop_first(), acc.cachability);
        assert(a2.cachability == (match token_cachability(t) {
            Some(c) => Some(c),
            None => acc.cachability,
        }));
    }
}

/// Law: flags are monotonic. A parse never clears a flag the accumulator
/// already carries; directives only set flags or leave them alone.
pub proof fn lemma_flags_monotonic(ts: Seq<Seq<char>>, acc: CacheControl, r: CacheControl)
    requires
        apply_tokens(ts, acc) == Some(r),
    ensures
        acc.must_revalidate ==> r.must_revalidate,
        acc.proxy_revalidate ==> r.proxy_revalidate,
        acc.immutable ==> r.immutable,
        acc.no_store ==> r.no_store,
        acc.no_transform ==> r.no_transform,
    decreases ts.len(),
{
    if ts.len() > 0 {
        let a2 = apply_token(ts[0], acc)->Some_0;
        lemma_flags_monotonic(ts.drop_first(), a2, r);
    }
}

/// Law: an empty directive list parses, to the all-default record.
pub proof fn lemma_empty_value_default()
    ensures
        spec_from_value(Seq::<char>::empty()) == Some(CacheControl::spec_default()),
{
    let e = Seq::<char>::empty();
    assert(!e.contains(','));
    assert(split_on(e, ',') == seq![e]);
    assert(!e.contains('='));
    assert(trim(e) == e);
    reveal_strlit("public");
    reveal_strlit("private");
    reveal_strlit("no-cache");
    reveal_strlit("only-if-cached");
    reveal_strlit("max-age");
    reveal_strlit("max-stale");
    reveal_strlit("min-fresh");
    reveal_strlit("must-revalidate");
    reveal_strlit("proxy-revalidate");
    reveal_strlit("immutable");
    reveal_strlit("no-store");
    reveal_strlit("no-transform");
    reveal_strlit("stale-while-revalidate");
    reveal_strlit("stale-if-error");
    assert(apply_token(e, CacheControl::spec_default()) == Some(CacheControl::spec_default()));
    assert(seq![e][0] == e);
    assert(seq![e].drop_first() =~= Seq::<Seq<char>>::empty());
    assert(apply_tokens(Seq::<Seq<char>>::empty(), CacheControl::spec_default()) == Some(
        CacheControl::spec_default(),
    ));
    assert(apply_tokens(seq![e], CacheControl::spec_default()) == Some(
        CacheControl::spec_default(),
    ));
}

/// Law: a parse is a function of the header text alone. Two calls on
/// equal strings yield structurally equal results; there is no hidden
/// state between calls.
pub proof fn lemma_parse_deterministic(a: Seq<char>, b: Seq<char>)
    requires
        a == b,
    ensures
        spec_from_value(a) == spec_from_value(b),
        spec_from_header(a) == spec_from_header(b),
{
}

impl Default for CacheControl {
    fn default() -> (r: CacheControl)
        ensures
            r == CacheControl::spec_default(),
    {
        CacheControl {
            cachability: None,
            max_age: None,
            s_max_age: None,
            max_stale: None,
            min_fresh: None,
            must_revalidate: false,
            proxy_revalidate: false,
            immutable: false,
            no_store: false,
            no_transform: false,
            stale_while_revalidate: None,
            stale_if_error: None,
        }
    }
}

} // verus!
