//! Conditional-request evaluation (RFC 7232): `ETag` comparison,
//! `If-None-Match` and `If-Modified-Since`.
use vstd::prelude::*;
use crate::text::{
    CharClass, trim, split, starts_with, is_ws, drop_lead, drop_trail, to_chars, trim_range,
    range_eq_str, range_starts_with, ranges_eq, split_ranges, lemma_drop_lead_concat,
    lemma_drop_trail_concat, lemma_drop_trail, lemma_drop_trail_rest, lemma_split_append_plain,
    lemma_split_len, lemma_trim_append_ws,
};

verus! {

/// The tag with its `W/` weak indicator, if any, removed.
pub open spec fn strip_weak_spec(s: Seq<char>) -> Seq<char> {
    if starts_with(s, "W/"@) {
        s.skip("W/"@.len() as int)
    } else {
        s
    }
}

/// The weak comparison function of RFC 7232 section 2.3.2: the opaque tags,
/// trimmed, agree once a `W/` indicator is set aside.
pub open spec fn weak_match(a: Seq<char>, b: Seq<char>) -> bool {
    strip_weak_spec(trim(a)) == strip_weak_spec(trim(b))
}

/// Whether an `If-None-Match` value is satisfied by a response `ETag`:
/// `*` by any existing tag; otherwise by a tag that weakly matches one of the
/// comma-separated candidates. An empty tag satisfies nothing.
pub open spec fn inm_satisfied(inm: Seq<char>, etag: Seq<char>) -> bool {
    let t = trim(inm);
    let parts = split(t, CharClass::Is(','));
    if t == "*"@ {
        etag.len() > 0
    } else if etag.len() == 0 {
        false
    } else {
        exists|k: int| 0 <= k < parts.len() && weak_match(trim(#[trigger] parts[k]), etag)
    }
}

pub open spec fn opt_str(o: Option<&str>) -> Option<Seq<char>> {
    match o {
        Some(s) => Some(s@),
        None => None,
    }
}

/// Whether a conditional request is answered `304 Not Modified`:
/// `If-None-Match` decides when present, else `Last-Modified <= If-Modified-Since`.
pub open spec fn not_modified(
    etag: Option<Seq<char>>,
    last_modified: Option<i64>,
    if_none_match: Option<Seq<char>>,
    if_modified_since: Option<i64>,
) -> bool {
    match if_none_match {
        Some(inm) => inm_satisfied(
            inm,
            match etag {
                Some(e) => e,
                None => ""@,
            },
        ),
        None => match (last_modified, if_modified_since) {
            (Some(lm), Some(since)) => lm <= since,
            _ => false,
        },
    }
}

/// The weak comparison is an equivalence: reflexive, symmetric and transitive.
pub proof fn lemma_weak_match_equivalence(a: Seq<char>, b: Seq<char>, c: Seq<char>)
    ensures
        weak_match(a, a),
        weak_match(a, b) ==> weak_match(b, a),
        weak_match(a, b) && weak_match(b, c) ==> weak_match(a, c),
{
}

/// A weak tag `W/"x"` matches its strong form `"x"`: the weak indicator is
/// ignored. Stated for a quoted opaque tag without trailing whitespace.
pub proof fn lemma_weak_tag_matches_strong(q: Seq<char>)
    requires
        q.len() > 0,
        q[0] == '"',
        !is_ws(q.last()),
    ensures
        weak_match("W/"@ + q, q),
{
    reveal_strlit("W/");
    let w = "W/"@ + q;
    let ws = CharClass::Whitespace;
    assert(w[0] == 'W');
    assert(w.last() == q.last());
    assert(drop_lead(w, ws) == w);
    assert(drop_trail(w, ws) == w);
    assert(drop_lead(q, ws) == q);
    assert(drop_trail(q, ws) == q);
    assert(w.take(2) =~= "W/"@);
    assert(w.skip(2) =~= q);
    assert(!starts_with(q, "W/"@)) by {
        if starts_with(q, "W/"@) {
            assert(q.take(2)[0] == 'W');
        }
    }
}

/// An `If-None-Match` value with a single candidate (no comma, not `*`) is
/// satisfied exactly when the candidate weakly matches a non-empty tag.
pub proof fn lemma_single_candidate(inm: Seq<char>, etag: Seq<char>)
    requires
        !inm.contains(','),
        trim(inm) != "*"@,
        etag.len() > 0,
    ensures
        inm_satisfied(inm, etag) == weak_match(inm, etag),
{
    let t = trim(inm);
    crate::text::lemma_strip_within(inm, CharClass::Whitespace, ',');
    assert forall|i: int| 0 <= i < t.len() implies !crate::text::in_class(
        CharClass::Is(','),
        #[trigger] t[i],
    ) by {
        if t[i] == ',' {
            assert(t.contains(','));
        }
    }
    crate::text::lemma_split_single(t, CharClass::Is(','));
    crate::text::lemma_strip_idempotent(inm, CharClass::Whitespace);
    let parts = split(t, CharClass::Is(','));
    assert(parts[0] == t);
    if weak_match(inm, etag) {
        assert(weak_match(trim(parts[0]), etag));
    }
}

/// Adding candidates to a satisfied `If-None-Match` list keeps it
/// satisfied (unless it was `*`, whose meaning the list form does not share).
pub proof fn lemma_more_candidates_still_satisfy(inm: Seq<char>, etag: Seq<char>, extra: Seq<char>)
    requires
        inm_satisfied(inm, etag),
        trim(inm) != "*"@,
    ensures
        inm_satisfied(inm + seq![',', ' '] + extra, etag),
{
    let ws = CharClass::Whitespace;
    let comma = CharClass::Is(',');
    let t = trim(inm);
    let parts = split(t, comma);
    let k = choose|k: int| 0 <= k < parts.len() && weak_match(trim(#[trigger] parts[k]), etag);
    let r = seq![' '] + extra;
    let w = inm + seq![','] + r;
    assert(inm + seq![',', ' '] + extra =~= w);
    let a = drop_lead(inm, ws);
    // the text trimmed: `a`, the comma, and the rest without trailing whitespace
    assert(seq![','] + r =~= seq![','] + r);
    assert(w =~= inm + (seq![','] + r));
    lemma_drop_lead_concat(inm, seq![','] + r, ws);
    assert(drop_lead(w, ws) =~= (a + seq![',']) + r);
    lemma_drop_trail_concat(a + seq![','], r, ws);
    let t2 = trim(w);
    assert(t2 == a + seq![','] + drop_trail(r, ws));
    // not `*`
    assert(t2 != "*"@) by {
        reveal_strlit("*");
        if t2 == "*"@ {
            assert(t2[a.len() as int] == ',');
        }
    }
    crate::text::lemma_split_concat(a, drop_trail(r, ws), comma, ',');
    let parts2 = split(t2, comma);
    // `a` is `t` and trailing whitespace
    lemma_drop_trail(a, ws);
    lemma_drop_trail_rest(a, ws);
    let tail = a.skip(t.len() as int);
    assert(a =~= t + tail);
    assert forall|i: int| 0 <= i < tail.len() implies !crate::text::in_class(comma, #[trigger] tail[i]) && is_ws(tail[i]) by {
        assert(tail[i] == a[t.len() + i]);
    }
    lemma_split_append_plain(t, tail, comma);
    lemma_split_len(t, comma);
    let pa = split(a, comma);
    assert(pa == parts.update(parts.len() - 1, parts.last() + tail));
    assert(parts2[k] == pa[k]);
    if k == parts.len() - 1 {
        lemma_trim_append_ws(parts.last(), tail);
    }
    assert(trim(parts2[k]) == trim(parts[k]));
    assert(weak_match(trim(parts2[k]), etag));
}

/// `*` (with any surrounding whitespace) is satisfied by every existing
/// representation, whatever its tag, and an absent or empty `ETag` satisfies
/// no `If-None-Match` value at all.
pub proof fn lemma_star_and_missing_tag(inm: Seq<char>, etag: Seq<char>)
    ensures
        trim(inm) == "*"@ ==> (inm_satisfied(inm, etag) <==> etag.len() > 0),
        !inm_satisfied(inm, ""@),
        !not_modified(None, None, Some(inm), None),
{
    reveal_strlit("");
}

/// When the request carries `If-None-Match`, the dates play no part: the
/// answer is the same whatever `Last-Modified` and `If-Modified-Since` are.
pub proof fn lemma_if_none_match_takes_precedence(
    etag: Option<Seq<char>>,
    inm: Seq<char>,
    lm1: Option<i64>,
    since1: Option<i64>,
    lm2: Option<i64>,
    since2: Option<i64>,
)
    ensures
        not_modified(etag, lm1, Some(inm), since1) == not_modified(etag, lm2, Some(inm), since2),
{
}

/// Without `If-None-Match`, the dates decide: a resource last modified at or
/// before the `If-Modified-Since` instant is answered `304`, one modified
/// after it is sent in full, and a request or response missing either date
/// never gets `304`. In particular a cache revalidating with the very
/// `Last-Modified` it stored gets `304`, and moving `If-Modified-Since`
/// later never turns a `304` into a full response.
pub proof fn lemma_if_modified_since(
    etag: Option<Seq<char>>,
    lm: Option<i64>,
    since: Option<i64>,
    t: i64,
    later: i64,
)
    ensures
        not_modified(etag, Some(t), None, Some(t)),
        lm is None || since is None ==> !not_modified(etag, lm, None, since),
        lm is Some && since is Some ==> (not_modified(etag, lm, None, since) <==> lm->0 <= since->0),
        lm is Some && since is Some && lm->0 > since->0 ==> !not_modified(etag, lm, None, since),
        not_modified(etag, lm, None, Some(t)) && t <= later ==> not_modified(etag, lm, None, Some(later)),
{
}

/// Strips the `W/` weak-validator prefix from the tag `v[lo..hi]`, if present,
/// giving the start of the quoted opaque tag behind it.
fn strip_weak(v: &Vec<char>, lo: usize, hi: usize) -> (r: usize)
    requires
        lo <= hi <= v.len(),
    ensures
        lo <= r <= hi,
        v@.subrange(r as int, hi as int) == strip_weak_spec(v@.subrange(lo as int, hi as int)),
{
    if range_starts_with(v, lo, hi, "W/") {
        let w = to_chars("W/");
        proof {
            assert(v@.subrange(lo + w@.len(), hi as int) =~= v@.subrange(lo as int, hi as int).skip(
                "W/"@.len() as int,
            ));
        }
        lo + w.len()
    } else {
        lo
    }
}

/// The range of the comparison key of the tag `v[lo..hi]`: trimmed, `W/` removed.
fn tag_key(v: &Vec<char>, lo: usize, hi: usize) -> (r: (usize, usize))
    requires
        lo <= hi <= v.len(),
    ensures
        lo <= r.0 <= r.1 <= hi,
        v@.subrange(r.0 as int, r.1 as int) == strip_weak_spec(trim(v@.subrange(lo as int, hi as int))),
{
    let (a, b) = trim_range(v, lo, hi);
    let a2 = strip_weak(v, a, b);
    (a2, b)
}

/// Compares two `ETag` values using the *weak* comparison function (RFC 7232
/// section 2.3.2): opaque tags must match, but the weak indicator is
/// ignored. This is the comparison `If-None-Match` is defined to use.
pub fn etag_matches(a: &str, b: &str) -> (r: bool)
    ensures
        r == weak_match(a@, b@),
{
    let va = to_chars(a);
    let vb = to_chars(b);
    proof {
        assert(va@.subrange(0, va.len() as int) =~= a@);
        assert(vb@.subrange(0, vb.len() as int) =~= b@);
    }
    let (a0, a1) = tag_key(&va, 0, va.len());
    let (b0, b1) = tag_key(&vb, 0, vb.len());
    ranges_eq(&va, a0, a1, &vb, b0, b1)
}

/// Evaluates an `If-None-Match` request header against a response's `ETag`.
/// Returns `true` when the precondition is satisfied, meaning the cache's
/// stored copy is still good and the origin should answer `304 Not Modified`
/// rather than resending the body.
///
/// `if_none_match` may be `*` (matches any existing representation) or a
/// comma-separated list of entity tags, per RFC 7232 section 3.2.
pub fn if_none_match_satisfied(if_none_match: &str, etag: &str) -> (r: bool)
    ensures
        r == inm_satisfied(if_none_match@, etag@),
{
    let vi = to_chars(if_none_match);
    proof {
        assert(vi@.subrange(0, vi.len() as int) =~= if_none_match@);
    }
    let (t0, t1) = trim_range(&vi, 0, vi.len());
    let ghost t = trim(if_none_match@);
    let ghost parts = split(t, CharClass::Is(','));
    if range_eq_str(&vi, t0, t1, "*") {
        return !etag.is_empty();
    }
    if etag.is_empty() {
        return false;
    }
    let ve = to_chars(etag);
    proof {
        assert(ve@.subrange(0, ve.len() as int) =~= etag@);
    }
    let (e0, e1) = tag_key(&ve, 0, ve.len());
    let ranges = split_ranges(&vi, t0, t1, CharClass::Is(','));
    let mut k: usize = 0;
    while k < ranges.len()
        invariant
            k <= ranges.len() == parts.len(),
            t0 <= t1 <= vi.len(),
            t != "*"@,
            t == trim(if_none_match@),
            etag@.len() > 0,
            t == vi@.subrange(t0 as int, t1 as int),
            parts == split(t, CharClass::Is(',')),
            forall|n: int|
                0 <= n < ranges.len() ==> t0 <= (#[trigger] ranges[n]).0 <= ranges[n].1 <= t1
                    && vi@.subrange(ranges[n].0 as int, ranges[n].1 as int) == parts[n],
            e0 <= e1 <= ve.len(),
            ve@.subrange(e0 as int, e1 as int) == strip_weak_spec(trim(etag@)),
            forall|j: int| 0 <= j < k ==> !weak_match(trim(#[trigger] parts[j]), etag@),
        decreases ranges.len() - k,
    {
        let (p0, p1) = ranges[k];
        let (c0, c1) = trim_range(&vi, p0, p1);
        let (k0, k1) = tag_key(&vi, c0, c1);
        if ranges_eq(&vi, k0, k1, &ve, e0, e1) {
            proof {
                assert(weak_match(trim(parts[k as int]), etag@));
            }
            return true;
        }
        k += 1;
    }
    false
}

/// Works out whether a conditional request would come back `304 Not
/// Modified` against the response validators `analyze` extracted.
///
/// `If-None-Match` takes precedence over `If-Modified-Since` when both are
/// present, matching the origin server's evaluation order in RFC 7232
/// section 6. Pass `None` for whichever conditional header the request
/// didn't send.
pub fn is_not_modified(
    etag: Option<&str>,
    last_modified: Option<i64>,
    if_none_match: Option<&str>,
    if_modified_since: Option<i64>,
) -> (r: bool)
    ensures
        r == not_modified(opt_str(etag), last_modified, opt_str(if_none_match), if_modified_since),
        if_none_match is None ==> (r <==> (last_modified is Some && if_modified_since is Some
            && last_modified->0 <= if_modified_since->0)),
        if_none_match is None && last_modified is Some && last_modified == if_modified_since ==> r,
{
    if let Some(inm) = if_none_match {
        return if_none_match_satisfied(inm, etag.unwrap_or(""));
    }
    match (last_modified, if_modified_since) {
        (Some(lm), Some(since)) => lm <= since,
        _ => false,
    }
}

} // verus!
