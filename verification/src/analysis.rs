//! Evaluation of a response's headers: may a cache store it, how long does
//! it stay fresh, and why (RFC 7234 sections 5.2 and 5.3, RFC 5861).
use vstd::prelude::*;
use crate::cache_control::{
    CacheControl, CacheControlView, cc_default, cache_control_of, parse_cache_control, names_directive,
    lemma_directives_present,
};
use crate::date::{http_date, http_date_fits, fits_i64, opt_int, parse_http_date, http_date_in_range};
use crate::headers::{HeaderView, headers_view};
use crate::number::{parse_i64, parse_i64_range, int_text, nat_text, push_int, push_nat};
use crate::text::{
    CharClass, trim, split, lower, to_chars, trim_range, split_ranges, lower_range,
    range_eq_str, string_of, string_from,
};

verus! {

/// Result of evaluating a set of response headers.
#[derive(Debug, Clone, PartialEq, Eq)]
pub struct Analysis {
    /// Whether any cache (shared or private) is allowed to store the response.
    pub cacheable: bool,
    /// Seconds until the stored copy goes stale, counting from now.
    /// Negative means it's already stale. `None` means there's no explicit
    /// freshness lifetime to compute one from.
    pub freshness_seconds: Option<i64>,
    /// `ETag` header value, unparsed (still carries its quotes and any
    /// `W/` weak indicator), if the response had one.
    pub etag: Option<String>,
    /// `Last-Modified` header, parsed to a Unix timestamp, if present and
    /// parseable.
    pub last_modified: Option<i64>,
    /// The header names listed in `Vary`, trimmed, in their original case.
    pub vary: Vec<String>,
    /// `stale-while-revalidate` window in seconds (RFC 5861), if given.
    pub stale_while_revalidate: Option<i64>,
    /// `stale-if-error` window in seconds (RFC 5861), if given.
    pub stale_if_error: Option<i64>,
    /// Plain-language explanations for the verdict above, in the order the
    /// rules were applied.
    pub notes: Vec<String>,
}

/// An analysis as values.
pub struct AnalysisView {
    pub cacheable: bool,
    pub freshness_seconds: Option<int>,
    pub etag: Option<Seq<char>>,
    pub last_modified: Option<int>,
    pub vary: Seq<Seq<char>>,
    pub stale_while_revalidate: Option<i64>,
    pub stale_if_error: Option<i64>,
    pub notes: Seq<Seq<char>>,
}

pub open spec fn strings_view(v: Seq<String>) -> Seq<Seq<char>> {
    v.map_values(|s: String| s@)
}

pub open spec fn opt_string(o: Option<String>) -> Option<Seq<char>> {
    match o {
        Some(s) => Some(s@),
        None => None,
    }
}

impl View for Analysis {
    type V = AnalysisView;

    open spec fn view(&self) -> AnalysisView {
        AnalysisView {
            cacheable: self.cacheable,
            freshness_seconds: opt_int(self.freshness_seconds),
            etag: opt_string(self.etag),
            last_modified: opt_int(self.last_modified),
            vary: strings_view(self.vary@),
            stale_while_revalidate: self.stale_while_revalidate,
            stale_if_error: self.stale_if_error,
            notes: strings_view(self.notes@),
        }
    }
}

/// The value of the first header whose name, in ASCII lower case, is `name`.
pub open spec fn lookup(h: Seq<HeaderView>, name: Seq<char>) -> Option<Seq<char>>
    decreases h.len(),
{
    if h.len() == 0 {
        None
    } else if lower(h[0].0) == name {
        Some(h[0].1)
    } else {
        lookup(h.drop_first(), name)
    }
}

/// The `Cache-Control` directives of the headers (none without the header).
pub open spec fn cc_of(h: Seq<HeaderView>) -> CacheControlView {
    match lookup(h, "cache-control"@) {
        Some(v) => cache_control_of(v),
        None => cc_default(),
    }
}

/// The `Age` of the response: the trimmed header as an `i64`, else 0.
pub open spec fn age_of(h: Seq<HeaderView>) -> int {
    match lookup(h, "age"@) {
        Some(v) => match parse_i64(trim(v)) {
            Some(a) => a as int,
            None => 0,
        },
        None => 0,
    }
}

/// The timestamp of the `Date` header, if present and a date.
pub open spec fn date_of(h: Seq<HeaderView>) -> Option<int> {
    match lookup(h, "date"@) {
        Some(d) => http_date(d),
        None => None,
    }
}

/// The timestamp of the `Last-Modified` header, if present and a date.
pub open spec fn last_modified_of(h: Seq<HeaderView>) -> Option<int> {
    match lookup(h, "last-modified"@) {
        Some(l) => http_date(l),
        None => None,
    }
}

/// Remaining freshness in seconds: `max-age` minus `Age` when `max-age` is
/// given; else `Expires` minus `Date` minus `Age` when both are dates;
/// else none.
pub open spec fn freshness_of(h: Seq<HeaderView>) -> Option<int> {
    let cc = cc_of(h);
    match cc.max_age {
        Some(m) => Some(m - age_of(h)),
        None => match lookup(h, "expires"@) {
            Some(e) => match http_date(e) {
                Some(et) => match date_of(h) {
                    Some(dt) => Some(et - dt - age_of(h)),
                    None => None,
                },
                None => None,
            },
            None => None,
        },
    }
}

/// The note that says where the freshness came from.
pub open spec fn freshness_note(h: Seq<HeaderView>) -> Seq<char> {
    let cc = cc_of(h);
    match cc.max_age {
        Some(m) => "freshness computed from max-age="@ + int_text(m as int),
        None => match lookup(h, "expires"@) {
            Some(e) => match http_date(e) {
                Some(et) => match date_of(h) {
                    Some(dt) => "freshness computed from Expires minus Date"@,
                    None => "Expires is present but there's no Date header to measure it against"@,
                },
                None => "couldn't parse Expires header: "@ + e,
            },
            None => "no max-age or Expires; response has no explicit freshness lifetime"@,
        },
    }
}

/// The non-empty trimmed pieces, in order.
pub open spec fn trimmed_pieces(ps: Seq<Seq<char>>) -> Seq<Seq<char>>
    decreases ps.len(),
{
    if ps.len() == 0 {
        Seq::empty()
    } else {
        let r = trimmed_pieces(ps.drop_last());
        if trim(ps.last()).len() > 0 {
            r.push(trim(ps.last()))
        } else {
            r
        }
    }
}

/// The header names listed in `Vary` (comma-separated, trimmed, empty ones dropped).
pub open spec fn vary_of(h: Seq<HeaderView>) -> Seq<Seq<char>> {
    match lookup(h, "vary"@) {
        Some(v) => trimmed_pieces(split(v, CharClass::Is(','))),
        None => Seq::empty(),
    }
}

pub open spec fn note_vary_star() -> Seq<char> {
    "Vary: * means the response depends on something outside the request headers; a shared cache can basically never reuse it"@
}

pub open spec fn note_vary_user_agent() -> Seq<char> {
    "Vary includes User-Agent, whose value differs per client; this fragments the cache into roughly one entry per visitor"@
}

pub open spec fn note_vary_many(n: nat) -> Seq<char> {
    "Vary lists "@ + nat_text(n)
        + " headers; every combination of their values is stored separately, which fragments the cache"@
}

/// The notes on `Vary`: `*`, `User-Agent` (in any case), more than three names.
pub open spec fn vary_notes(vary: Seq<Seq<char>>) -> Seq<Seq<char>> {
    (if vary.contains("*"@) {
        seq![note_vary_star()]
    } else {
        Seq::empty()
    }) + (if exists|i: int| 0 <= i < vary.len() && lower(#[trigger] vary[i]) == "user-agent"@ {
        seq![note_vary_user_agent()]
    } else {
        Seq::empty()
    }) + (if vary.len() > 3 {
        seq![note_vary_many(vary.len())]
    } else {
        Seq::empty()
    })
}

/// The note on a stale window of `n` seconds.
pub open spec fn stale_note(directive: Seq<char>, n: i64, tail: Seq<char>) -> Seq<char> {
    directive + "="@ + int_text(n as int) + ": once stale, a cache may keep serving this for up to "@
        + int_text(n as int) + tail
}

pub open spec fn stale_notes(cc: CacheControlView) -> Seq<Seq<char>> {
    (match cc.stale_while_revalidate {
        Some(n) => seq![
            stale_note(
                "stale-while-revalidate"@,
                n,
                "s while it revalidates in the background"@,
            ),
        ],
        None => Seq::empty(),
    }) + (match cc.stale_if_error {
        Some(n) => seq![
            stale_note(
                "stale-if-error"@,
                n,
                "s if revalidating with the origin fails"@,
            ),
        ],
        None => Seq::empty(),
    })
}

/// The note on how the response can be revalidated.
pub open spec fn validator_notes(etag: Option<Seq<char>>, last_modified: Option<int>) -> Seq<
    Seq<char>,
> {
    match etag {
        Some(tag) => seq![
            "has an ETag ("@ + tag
                + "); once stale it can be revalidated with If-None-Match instead of a full refetch"@,
        ],
        None => match last_modified {
            Some(_) => seq![
                "has a Last-Modified date; once stale it can be revalidated with If-Modified-Since instead of a full refetch"@,
            ],
            None => Seq::empty(),
        },
    }
}

pub open spec fn note_no_store() -> Seq<char> {
    "no-store: response must not be stored by any cache"@
}

pub open spec fn note_cookie() -> Seq<char> {
    "Set-Cookie is present without a public directive; shared caches typically won't store this"@
}

pub open spec fn note_no_cache() -> Seq<char> {
    "no-cache: a cache may store this but must revalidate with the origin before reusing it"@
}

/// The notes of a cacheable response, in the order the rules are applied.
pub open spec fn notes_of(h: Seq<HeaderView>) -> Seq<Seq<char>> {
    let cc = cc_of(h);
    (if lookup(h, "set-cookie"@) is Some && !cc.public {
        seq![note_cookie()]
    } else {
        Seq::empty()
    }) + (if cc.no_cache {
        seq![note_no_cache()]
    } else {
        Seq::empty()
    }) + seq![freshness_note(h)] + stale_notes(cc) + vary_notes(vary_of(h)) + validator_notes(
        lookup(h, "etag"@),
        last_modified_of(h),
    )
}

/// The evaluation of the headers. With `no-store` nothing may be stored and
/// nothing else is looked at; otherwise the response is cacheable and the
/// fields come from the rules above.
pub open spec fn analysis_of(h: Seq<HeaderView>) -> AnalysisView {
    let cc = cc_of(h);
    if cc.no_store {
        AnalysisView {
            cacheable: false,
            freshness_seconds: None,
            etag: None,
            last_modified: None,
            vary: Seq::empty(),
            stale_while_revalidate: None,
            stale_if_error: None,
            notes: seq![note_no_store()],
        }
    } else {
        AnalysisView {
            cacheable: true,
            freshness_seconds: freshness_of(h),
            etag: lookup(h, "etag"@),
            last_modified: last_modified_of(h),
            vary: vary_of(h),
            stale_while_revalidate: cc.stale_while_revalidate,
            stale_if_error: cc.stale_if_error,
            notes: notes_of(h),
        }
    }
}

/// Evaluating the headers overflows no `i64`: the dates read convert, and
/// the freshness subtractions stay in range.
pub open spec fn analysis_fits(h: Seq<HeaderView>) -> bool {
    let cc = cc_of(h);
    let age = age_of(h);
    !cc.no_store ==> {
        &&& match cc.max_age {
            Some(m) => fits_i64(m - age),
            None => match lookup(h, "expires"@) {
                Some(e) => http_date_fits(e) && match http_date(e) {
                    Some(et) => match lookup(h, "date"@) {
                        Some(d) => http_date_fits(d) && match http_date(d) {
                            Some(dt) => fits_i64(et - dt) && fits_i64(et - dt - age),
                            None => true,
                        },
                        None => true,
                    },
                    None => true,
                },
                None => true,
            },
        }
        &&& match lookup(h, "last-modified"@) {
            Some(l) => http_date_fits(l),
            None => true,
        }
    }
}

/// Lists whose names agree up to ASCII case, and whose values agree, give
/// the same value for every lookup.
proof fn lemma_lookup_case_insensitive(h1: Seq<HeaderView>, h2: Seq<HeaderView>, name: Seq<char>)
    requires
        h1.len() == h2.len(),
        forall|i: int| 0 <= i < h1.len() ==> lower(#[trigger] h1[i].0) == lower(h2[i].0) && h1[i].1 == h2[i].1,
    ensures
        lookup(h1, name) == lookup(h2, name),
    decreases h1.len(),
{
    if h1.len() > 0 {
        assert(lower(h1[0].0) == lower(h2[0].0));
        let t1 = h1.drop_first();
        let t2 = h2.drop_first();
        assert forall|i: int| 0 <= i < t1.len() implies lower(#[trigger] t1[i].0) == lower(t2[i].0) && t1[i].1 == t2[i].1 by {
            assert(t1[i] == h1[i + 1]);
            assert(t2[i] == h2[i + 1]);
        }
        lemma_lookup_case_insensitive(t1, t2, name);
    }
}

/// Header names are matched case-insensitively: changing the ASCII case of
/// any names changes neither the evaluation nor whether it stays in range.
pub proof fn lemma_header_names_case_insensitive(h1: Seq<HeaderView>, h2: Seq<HeaderView>)
    requires
        h1.len() == h2.len(),
        forall|i: int| 0 <= i < h1.len() ==> lower(#[trigger] h1[i].0) == lower(h2[i].0) && h1[i].1 == h2[i].1,
    ensures
        analysis_of(h1) == analysis_of(h2),
        analysis_fits(h1) == analysis_fits(h2),
{
    lemma_lookup_case_insensitive(h1, h2, "cache-control"@);
    lemma_lookup_case_insensitive(h1, h2, "age"@);
    lemma_lookup_case_insensitive(h1, h2, "expires"@);
    lemma_lookup_case_insensitive(h1, h2, "date"@);
    lemma_lookup_case_insensitive(h1, h2, "set-cookie"@);
    lemma_lookup_case_insensitive(h1, h2, "vary"@);
    lemma_lookup_case_insensitive(h1, h2, "etag"@);
    lemma_lookup_case_insensitive(h1, h2, "last-modified"@);
}

/// `no-store` wins over everything else: the response is not cacheable, has
/// no freshness, and the one note says why.
pub proof fn lemma_no_store_wins(h: Seq<HeaderView>)
    requires
        cc_of(h).no_store,
    ensures
        !analysis_of(h).cacheable,
        analysis_of(h).freshness_seconds is None,
        analysis_of(h).notes == seq![note_no_store()],
{
}

/// With `max-age`, the remaining freshness is `max-age` minus `Age`, and
/// `Expires` and `Date` play no part.
pub proof fn lemma_max_age_decides(h: Seq<HeaderView>)
    requires
        !cc_of(h).no_store,
        cc_of(h).max_age is Some,
    ensures
        analysis_of(h).cacheable,
        analysis_of(h).freshness_seconds == Some(cc_of(h).max_age->0 - age_of(h)),
{
}

/// Without `max-age`, a response with `Expires` and `Date` dates is fresh
/// for their difference minus `Age`.
pub proof fn lemma_expires_minus_date(h: Seq<HeaderView>, e: Seq<char>, d: Seq<char>)
    requires
        !cc_of(h).no_store,
        cc_of(h).max_age is None,
        lookup(h, "expires"@) == Some(e),
        lookup(h, "date"@) == Some(d),
        http_date(e) is Some,
        http_date(d) is Some,
    ensures
        analysis_of(h).freshness_seconds == Some(http_date(e)->0 - http_date(d)->0 - age_of(h)),
{
}

/// The remaining freshness depends on `Cache-Control` only through
/// `max-age`: other directives, the stale windows among them, do not change it.
pub proof fn lemma_freshness_depends_on_max_age_only(h1: Seq<HeaderView>, h2: Seq<HeaderView>)
    requires
        cc_of(h1).max_age == cc_of(h2).max_age,
        lookup(h1, "age"@) == lookup(h2, "age"@),
        lookup(h1, "expires"@) == lookup(h2, "expires"@),
        lookup(h1, "date"@) == lookup(h2, "date"@),
    ensures
        freshness_of(h1) == freshness_of(h2),
        freshness_note(h1) == freshness_note(h2),
{
}

/// Only `no-store` makes a response uncacheable: it is cacheable exactly
/// when its `Cache-Control` header does not name the `no-store` directive.
/// `private`, `Set-Cookie`, missing dates and the rest never do.
pub proof fn lemma_cacheable_iff_no_no_store(h: Seq<HeaderView>)
    ensures
        analysis_of(h).cacheable == !cc_of(h).no_store,
        analysis_of(h).cacheable <==> !(lookup(h, "cache-control"@) matches Some(v) && names_directive(
            v,
            "no-store"@,
        )),
{
    if let Some(v) = lookup(h, "cache-control"@) {
        lemma_directives_present(v);
    }
}

/// A `Set-Cookie` header changes nothing but the notes: with one more such
/// header in front, the response is exactly as cacheable, as fresh, with the
/// same validators, `Vary` list and stale windows.
pub proof fn lemma_set_cookie_only_adds_a_note(h: Seq<HeaderView>, name: Seq<char>, value: Seq<char>)
    requires
        lower(name) == "set-cookie"@,
    ensures
        ({
            let a1 = analysis_of(h);
            let a2 = analysis_of(seq![(name, value)] + h);
            &&& a2.cacheable == a1.cacheable
            &&& a2.freshness_seconds == a1.freshness_seconds
            &&& a2.etag == a1.etag
            &&& a2.last_modified == a1.last_modified
            &&& a2.vary == a1.vary
            &&& a2.stale_while_revalidate == a1.stale_while_revalidate
            &&& a2.stale_if_error == a1.stale_if_error
        }),
{
    let h2 = seq![(name, value)] + h;
    assert(h2[0] == (name, value));
    assert(h2.drop_first() =~= h);
    reveal_strlit("set-cookie");
    reveal_strlit("cache-control");
    reveal_strlit("age");
    reveal_strlit("expires");
    reveal_strlit("date");
    reveal_strlit("vary");
    reveal_strlit("etag");
    reveal_strlit("last-modified");
    assert("set-cookie"@.len() == 10);
    assert("cache-control"@.len() == 13);
    assert("age"@.len() == 3);
    assert("expires"@.len() == 7);
    assert("date"@.len() == 4);
    assert("vary"@.len() == 4);
    assert("etag"@.len() == 4);
    assert("last-modified"@.len() == 13);
    assert(lookup(h2, "cache-control"@) == lookup(h, "cache-control"@));
    assert(lookup(h2, "age"@) == lookup(h, "age"@));
    assert(lookup(h2, "expires"@) == lookup(h, "expires"@));
    assert(lookup(h2, "date"@) == lookup(h, "date"@));
    assert(lookup(h2, "vary"@) == lookup(h, "vary"@));
    assert(lookup(h2, "etag"@) == lookup(h, "etag"@));
    assert(lookup(h2, "last-modified"@) == lookup(h, "last-modified"@));
}

/// The index of the first header named `name` (given in lower case),
/// compared case-insensitively.
fn find_header(headers: &[(String, String)], name: &str) -> (r: Option<usize>)
    ensures
        match r {
            Some(k) => k < headers@.len() && lookup(headers_view(headers@), name@) == Some(
                headers@[k as int].1@,
            ),
            None => lookup(headers_view(headers@), name@) is None,
        },
{
    let ghost hv = headers_view(headers@);
    let mut i: usize = 0;
    proof {
        assert(hv.skip(0) =~= hv);
    }
    while i < headers.len()
        invariant
            i <= headers@.len(),
            hv == headers_view(headers@),
            lookup(hv, name@) == lookup(hv.skip(i as int), name@),
        decreases headers@.len() - i,
    {
        let key = to_chars(headers[i].0.as_str());
        let lw = lower_range(&key, 0, key.len());
        proof {
            assert(key@.subrange(0, key.len() as int) =~= key@);
            assert(lw@.subrange(0, lw.len() as int) =~= lw@);
            assert(hv.skip(i as int)[0] == (headers@[i as int].0@, headers@[i as int].1@));
        }
        if range_eq_str(&lw, 0, lw.len(), name) {
            return Some(i);
        }
        proof {
            assert(hv.skip(i as int).drop_first() =~= hv.skip(i + 1));
        }
        i += 1;
    }
    proof {
        assert(hv.skip(i as int) =~= Seq::<HeaderView>::empty());
    }
    None
}

/// Appends `s` to `notes`.
fn push_note(notes: &mut Vec<String>, s: String)
    ensures
        strings_view(final(notes)@) == strings_view(old(notes)@).push(s@),
{
    let ghost before = notes@;
    notes.push(s);
    proof {
        assert(strings_view(notes@) =~= strings_view(before).push(s@));
    }
}

/// The `Cache-Control` directives of the headers.
fn cache_control_from(headers: &[(String, String)]) -> (cc: CacheControl)
    ensures
        cc@ == cc_of(headers_view(headers@)),
{
    match find_header(headers, "cache-control") {
        Some(k) => parse_cache_control(headers[k].1.as_str()),
        None => CacheControl::default(),
    }
}

/// The `Age` of the response.
fn age_from(headers: &[(String, String)]) -> (age: i64)
    ensures
        age == age_of(headers_view(headers@)),
{
    match find_header(headers, "age") {
        Some(k) => {
            let v = to_chars(headers[k].1.as_str());
            proof {
                assert(v@.subrange(0, v.len() as int) =~= headers@[k as int].1@);
            }
            let (t0, t1) = trim_range(&v, 0, v.len());
            match parse_i64_range(&v, t0, t1) {
                Some(x) => x,
                None => 0,
            }
        },
        None => 0,
    }
}

/// The timestamp of the `Date` header.
fn date_from(headers: &[(String, String)]) -> (r: Option<i64>)
    requires
        match lookup(headers_view(headers@), "date"@) {
            Some(d) => http_date_fits(d),
            None => true,
        },
    ensures
        opt_int(r) == date_of(headers_view(headers@)),
{
    match find_header(headers, "date") {
        Some(dk) => parse_http_date(headers[dk].1.as_str()),
        None => None,
    }
}

/// The remaining freshness, its note appended to `notes`.
fn push_freshness(
    headers: &[(String, String)],
    cc: &CacheControl,
    age: i64,
    notes: &mut Vec<String>,
) -> (r: Option<i64>)
    requires
        cc@ == cc_of(headers_view(headers@)),
        age == age_of(headers_view(headers@)),
        !cc.no_store,
        analysis_fits(headers_view(headers@)),
    ensures
        opt_int(r) == freshness_of(headers_view(headers@)),
        strings_view(final(notes)@) == strings_view(old(notes)@).push(
            freshness_note(headers_view(headers@)),
        ),
{
    if let Some(max_age) = cc.max_age {
        push_note(notes, text_and_int("freshness computed from max-age=", max_age));
        Some(max_age - age)
    } else if let Some(ek) = find_header(headers, "expires") {
        let expires = headers[ek].1.as_str();
        match parse_http_date(expires) {
            Some(expires_ts) => {
                match date_from(headers) {
                    Some(date_ts) => {
                        push_note(notes, string_from("freshness computed from Expires minus Date"));
                        Some(expires_ts - date_ts - age)
                    },
                    None => {
                        push_note(notes, string_from(
                            "Expires is present but there's no Date header to measure it against",
                        ));
                        None
                    },
                }
            },
            None => {
                let mut s = string_from("couldn't parse Expires header: ");
                s.append(expires);
                push_note(notes, s);
                None
            },
        }
    } else {
        push_note(notes, string_from(
            "no max-age or Expires; response has no explicit freshness lifetime",
        ));
        None
    }
}

/// Appends the notes on the stale windows to `notes`.
fn push_stale_notes(cc: &CacheControl, notes: &mut Vec<String>)
    ensures
        strings_view(final(notes)@) == strings_view(old(notes)@) + stale_notes(cc@),
{
    let ghost start = strings_view(notes@);
    if let Some(n) = cc.stale_while_revalidate {
        push_note(notes, stale_note_exec(
            "stale-while-revalidate",
            n,
            "s while it revalidates in the background",
        ));
    }
    if let Some(n) = cc.stale_if_error {
        push_note(notes, stale_note_exec("stale-if-error", n, "s if revalidating with the origin fails"));
    }
    proof {
        assert(strings_view(notes@) =~= start + stale_notes(cc@));
    }
}

/// Appends the note on revalidation to `notes`.
fn push_validator_note(etag: &Option<String>, last_modified: Option<i64>, notes: &mut Vec<String>)
    ensures
        strings_view(final(notes)@) == strings_view(old(notes)@) + validator_notes(
            opt_string(*etag),
            opt_int(last_modified),
        ),
{
    let ghost start = strings_view(notes@);
    match (etag, last_modified) {
        (Some(tag), _) => {
            let mut s = string_from("has an ETag (");
            s.append(tag.as_str());
            s.append("); once stale it can be revalidated with If-None-Match instead of a full refetch");
            push_note(notes, s);
        },
        (None, Some(_)) => push_note(notes, string_from(
            "has a Last-Modified date; once stale it can be revalidated with If-Modified-Since instead of a full refetch",
        )),
        (None, None) => {},
    }
    proof {
        assert(strings_view(notes@) =~= start + validator_notes(opt_string(*etag), opt_int(last_modified)));
    }
}

/// `text` and then the decimal text of `n`.
fn text_and_int(text: &str, n: i64) -> (s: String)
    ensures
        s@ == text@ + int_text(n as int),
{
    let mut s = string_from(text);
    push_int(&mut s, n);
    s
}

/// The `Vary` names of the value `value`.
fn vary_list(value: &str) -> (out: Vec<String>)
    ensures
        strings_view(out@) == trimmed_pieces(split(value@, CharClass::Is(','))),
{
    let v = to_chars(value);
    proof {
        assert(v@.subrange(0, v.len() as int) =~= value@);
    }
    let parts = split_ranges(&v, 0, v.len(), CharClass::Is(','));
    let ghost ps = split(value@, CharClass::Is(','));
    let mut out: Vec<String> = Vec::new();
    let mut k: usize = 0;
    proof {
        assert(ps.take(0) =~= Seq::<Seq<char>>::empty());
        assert(strings_view(out@) =~= Seq::<Seq<char>>::empty());
    }
    while k < parts.len()
        invariant
            k <= parts.len() == ps.len(),
            forall|n: int|
                0 <= n < parts.len() ==> (#[trigger] parts[n]).0 <= parts[n].1 <= v.len()
                    && v@.subrange(parts[n].0 as int, parts[n].1 as int) == ps[n],
            strings_view(out@) == trimmed_pieces(ps.take(k as int)),
        decreases parts.len() - k,
    {
        proof {
            assert(ps.take(k + 1).drop_last() =~= ps.take(k as int));
        }
        let (lo, hi) = parts[k];
        let (t0, t1) = trim_range(&v, lo, hi);
        if t0 < t1 {
            let s = string_of(&v, t0, t1);
            let ghost before = out@;
            out.push(s);
            proof {
                assert(strings_view(out@) =~= strings_view(before).push(s@));
            }
        }
        k += 1;
    }
    proof {
        assert(ps.take(k as int) =~= ps);
    }
    out
}

/// Appends the notes on the `Vary` names to `notes`.
fn push_vary_notes(vary: &Vec<String>, notes: &mut Vec<String>)
    ensures
        strings_view(final(notes)@) == strings_view(old(notes)@) + vary_notes(strings_view(vary@)),
{
    let ghost vv = strings_view(vary@);
    let ghost start = strings_view(notes@);
    let mut star = false;
    let mut ua = false;
    let mut i: usize = 0;
    while i < vary.len()
        invariant
            i <= vary@.len(),
            vv == strings_view(vary@),
            star == exists|j: int| 0 <= j < i && vv[j] == "*"@,
            ua == exists|j: int| 0 <= j < i && lower(#[trigger] vv[j]) == "user-agent"@,
        decreases vary@.len() - i,
    {
        let c = to_chars(vary[i].as_str());
        proof {
            assert(c@.subrange(0, c.len() as int) =~= c@);
            assert(vv[i as int] == c@);
        }
        if range_eq_str(&c, 0, c.len(), "*") {
            star = true;
        }
        let lw = lower_range(&c, 0, c.len());
        proof {
            assert(lw@.subrange(0, lw.len() as int) =~= lw@);
        }
        if range_eq_str(&lw, 0, lw.len(), "user-agent") {
            ua = true;
        }
        i += 1;
    }
    proof {
        if star {
            let j = choose|j: int| 0 <= j < i && vv[j] == "*"@;
            assert(vv.contains("*"@));
        }
        if vv.contains("*"@) {
            let j = choose|j: int| 0 <= j < vv.len() && vv[j] == "*"@;
            assert(star);
        }
    }
    let ghost a = if star { seq![note_vary_star()] } else { Seq::<Seq<char>>::empty() };
    let ghost b = if ua { seq![note_vary_user_agent()] } else { Seq::<Seq<char>>::empty() };
    let ghost c = if vv.len() > 3 { seq![note_vary_many(vv.len())] } else { Seq::<Seq<char>>::empty() };
    proof {
        assert(vary_notes(vv) == a + b + c);
    }
    if star {
        push_note(notes, string_from(
            "Vary: * means the response depends on something outside the request headers; a shared cache can basically never reuse it",
        ));
    }
    proof {
        assert(strings_view(notes@) =~= start + a);
    }
    if ua {
        push_note(notes, string_from(
            "Vary includes User-Agent, whose value differs per client; this fragments the cache into roughly one entry per visitor",
        ));
    }
    proof {
        assert(strings_view(notes@) =~= start + a + b);
    }
    if vary.len() > 3 {
        let mut s = string_from("Vary lists ");
        push_nat(&mut s, vary.len() as u64);
        s.append(" headers; every combination of their values is stored separately, which fragments the cache");
        push_note(notes, s);
    }
    proof {
        assert(strings_view(notes@) =~= start + a + b + c);
    }
}

/// The note on a stale window of `n` seconds.
fn stale_note_exec(directive: &str, n: i64, tail: &str) -> (s: String)
    ensures
        s@ == stale_note(directive@, n, tail@),
{
    let mut s = string_from(directive);
    s.append("=");
    push_int(&mut s, n);
    s.append(": once stale, a cache may keep serving this for up to ");
    push_int(&mut s, n);
    s.append(tail);
    s
}

/// Evaluates cacheability and freshness from a list of response headers.
/// Header name matching is case-insensitive, as HTTP requires.
///
/// Inputs on which the arithmetic would overflow an `i64` are excluded
/// (see `analysis_in_range`).
pub fn analyze(headers: &[(String, String)]) -> (a: Analysis)
    requires
        analysis_fits(headers_view(headers@)),
    ensures
        a@ == analysis_of(headers_view(headers@)),
        a.cacheable == !cc_of(headers_view(headers@)).no_store,
{
    let ghost h = headers_view(headers@);
    proof {
        lemma_cacheable_iff_no_no_store(h);
    }
    let mut notes: Vec<String> = Vec::new();
    let cc = cache_control_from(headers);
    let age = age_from(headers);
    if cc.no_store {
        push_note(&mut notes, string_from("no-store: response must not be stored by any cache"));
        let a = Analysis {
            cacheable: false,
            freshness_seconds: None,
            etag: None,
            last_modified: None,
            vary: Vec::new(),
            stale_while_revalidate: None,
            stale_if_error: None,
            notes,
        };
        proof {
            assert(a@.vary =~= Seq::<Seq<char>>::empty());
            assert(a@.notes =~= seq![note_no_store()]);
        }
        return a;
    }
    proof {
        assert(strings_view(notes@) =~= Seq::<Seq<char>>::empty());
    }
    if find_header(headers, "set-cookie").is_some() && !cc.public {
        push_note(&mut notes, string_from(
            "Set-Cookie is present without a public directive; shared caches typically won't store this",
        ));
    }
    if cc.no_cache {
        push_note(&mut notes, string_from(
            "no-cache: a cache may store this but must revalidate with the origin before reusing it",
        ));
    }
    let freshness_seconds = push_freshness(headers, &cc, age, &mut notes);
    push_stale_notes(&cc, &mut notes);
    let vary = match find_header(headers, "vary") {
        Some(k) => vary_list(headers[k].1.as_str()),
        None => Vec::new(),
    };
    proof {
        assert(strings_view(vary@) =~= vary_of(h));
    }
    push_vary_notes(&vary, &mut notes);
    let etag = match find_header(headers, "etag") {
        Some(k) => Some(string_from(headers[k].1.as_str())),
        None => None,
    };
    let last_modified = match find_header(headers, "last-modified") {
        Some(k) => parse_http_date(headers[k].1.as_str()),
        None => None,
    };
    push_validator_note(&etag, last_modified, &mut notes);
    let a = Analysis {
        cacheable: true,
        freshness_seconds,
        etag,
        last_modified,
        vary,
        stale_while_revalidate: cc.stale_while_revalidate,
        stale_if_error: cc.stale_if_error,
        notes,
    };
    proof {
        assert(a@.notes =~= notes_of(h));
    }
    a
}

/// Whether `analyze` can evaluate the headers without overflowing an `i64`.
pub fn analysis_in_range(headers: &[(String, String)]) -> (b: bool)
    ensures
        b == analysis_fits(headers_view(headers@)),
{
    let cc = match find_header(headers, "cache-control") {
        Some(k) => parse_cache_control(headers[k].1.as_str()),
        None => CacheControl::default(),
    };
    if cc.no_store {
        return true;
    }
    let age: i64 = match find_header(headers, "age") {
        Some(k) => {
            let v = to_chars(headers[k].1.as_str());
            proof {
                assert(v@.subrange(0, v.len() as int) =~= headers@[k as int].1@);
            }
            let (t0, t1) = trim_range(&v, 0, v.len());
            match parse_i64_range(&v, t0, t1) {
                Some(x) => x,
                None => 0,
            }
        },
        None => 0,
    };
    let fresh_ok = if let Some(max_age) = cc.max_age {
        max_age.checked_sub(age).is_some()
    } else if let Some(ek) = find_header(headers, "expires") {
        let expires = headers[ek].1.as_str();
        if !http_date_in_range(expires) {
            false
        } else {
            match parse_http_date(expires) {
                Some(et) => match find_header(headers, "date") {
                    Some(dk) => {
                        let d = headers[dk].1.as_str();
                        if !http_date_in_range(d) {
                            false
                        } else {
                            match parse_http_date(d) {
                                Some(dt) => match et.checked_sub(dt) {
                                    Some(x) => x.checked_sub(age).is_some(),
                                    None => false,
                                },
                                None => true,
                            }
                        }
                    },
                    None => true,
                },
                None => true,
            }
        }
    } else {
        true
    };
    let lm_ok = match find_header(headers, "last-modified") {
        Some(k) => http_date_in_range(headers[k].1.as_str()),
        None => true,
    };
    fresh_ok && lm_ok
}

} // verus!
