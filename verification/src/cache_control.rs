//! `Cache-Control` directives (RFC 7234 section 5.2, RFC 5861).
use vstd::prelude::*;
use crate::number::{parse_i64, parse_i64_range, lemma_parse_int_lower};
use crate::text::{
    CharClass, trim, strip, split, index_of, lower, to_chars, trim_range, strip_range,
    find_char, split_ranges, lower_range, range_eq_str, push_range,
    lemma_lower_strip, lemma_lower_index_of, lemma_lower_subrange, lemma_lower_idempotent,
    lemma_lower_split,
};

verus! {

/// Parsed `Cache-Control` directives. Unknown directives are kept around
/// (as their bare name, lowercased) rather than dropped, so callers can
/// still see them even though this library doesn't interpret them.
#[derive(Debug, Clone, PartialEq, Eq)]
pub struct CacheControl {
    pub no_store: bool,
    pub no_cache: bool,
    pub private: bool,
    pub public: bool,
    pub must_revalidate: bool,
    pub proxy_revalidate: bool,
    pub immutable: bool,
    pub max_age: Option<i64>,
    pub s_maxage: Option<i64>,
    pub stale_while_revalidate: Option<i64>,
    pub stale_if_error: Option<i64>,
    pub unrecognized: Vec<String>,
}

/// The directives as values: `unrecognized` as the names' characters.
pub struct CacheControlView {
    pub no_store: bool,
    pub no_cache: bool,
    pub private: bool,
    pub public: bool,
    pub must_revalidate: bool,
    pub proxy_revalidate: bool,
    pub immutable: bool,
    pub max_age: Option<i64>,
    pub s_maxage: Option<i64>,
    pub stale_while_revalidate: Option<i64>,
    pub stale_if_error: Option<i64>,
    pub unrecognized: Seq<Seq<char>>,
}

impl View for CacheControl {
    type V = CacheControlView;

    open spec fn view(&self) -> CacheControlView {
        CacheControlView {
            no_store: self.no_store,
            no_cache: self.no_cache,
            private: self.private,
            public: self.public,
            must_revalidate: self.must_revalidate,
            proxy_revalidate: self.proxy_revalidate,
            immutable: self.immutable,
            max_age: self.max_age,
            s_maxage: self.s_maxage,
            stale_while_revalidate: self.stale_while_revalidate,
            stale_if_error: self.stale_if_error,
            unrecognized: self.unrecognized@.map_values(|s: String| s@),
        }
    }
}

/// No directive at all.
pub open spec fn cc_default() -> CacheControlView {
    CacheControlView {
        no_store: false,
        no_cache: false,
        private: false,
        public: false,
        must_revalidate: false,
        proxy_revalidate: false,
        immutable: false,
        max_age: None,
        s_maxage: None,
        stale_while_revalidate: None,
        stale_if_error: None,
        unrecognized: Seq::empty(),
    }
}

impl Default for CacheControl {
    fn default() -> (cc: CacheControl)
        ensures
            cc@ == cc_default(),
    {
        let cc = CacheControl {
            no_store: false,
            no_cache: false,
            private: false,
            public: false,
            must_revalidate: false,
            proxy_revalidate: false,
            immutable: false,
            max_age: None,
            s_maxage: None,
            stale_while_revalidate: None,
            stale_if_error: None,
            unrecognized: Vec::new(),
        };
        proof {
            assert(cc@.unrecognized =~= Seq::<Seq<char>>::empty());
        }
        cc
    }
}

/// The name of a directive: the trimmed piece, or, where it holds `=`, the
/// trimmed text before the first `=`.
pub open spec fn directive_name(part: Seq<char>) -> Seq<char> {
    let p = trim(part);
    let i = index_of(p, '=');
    if i < p.len() {
        trim(p.take(i))
    } else {
        p
    }
}

/// The effect of one comma-separated piece of a `Cache-Control` value.
/// The piece is trimmed; an empty piece does nothing. A piece `name=arg`
/// has its name trimmed and its argument trimmed and unquoted; numeric
/// directives take the argument as an `i64`, or `None` where it is none.
/// Directive names are compared in ASCII lower case.
pub open spec fn apply_directive(cc: CacheControlView, part: Seq<char>) -> CacheControlView {
    if trim(part).len() == 0 {
        cc
    } else {
        set_directive(cc, lower(directive_name(part)), directive_number(part))
    }
}

/// The argument of a directive as an `i64`: the trimmed, unquoted text after
/// the first `=`; none without `=` or where it is not an `i64`.
pub open spec fn directive_number(part: Seq<char>) -> Option<i64> {
    let p = trim(part);
    let i = index_of(p, '=');
    if i < p.len() {
        parse_i64(strip(trim(p.skip(i + 1)), CharClass::Is('"')))
    } else {
        None
    }
}

/// The effect of the directive named `key` (lower case) with numeric argument `num`.
pub open spec fn set_directive(cc: CacheControlView, key: Seq<char>, num: Option<i64>) -> CacheControlView {
    if key == "no-store"@ {
        CacheControlView { no_store: true, ..cc }
    } else if key == "no-cache"@ {
        CacheControlView { no_cache: true, ..cc }
    } else if key == "private"@ {
        CacheControlView { private: true, ..cc }
    } else if key == "public"@ {
        CacheControlView { public: true, ..cc }
    } else if key == "must-revalidate"@ {
        CacheControlView { must_revalidate: true, ..cc }
    } else if key == "proxy-revalidate"@ {
        CacheControlView { proxy_revalidate: true, ..cc }
    } else if key == "immutable"@ {
        CacheControlView { immutable: true, ..cc }
    } else if key == "max-age"@ {
        CacheControlView { max_age: num, ..cc }
    } else if key == "s-maxage"@ {
        CacheControlView { s_maxage: num, ..cc }
    } else if key == "stale-while-revalidate"@ {
        CacheControlView { stale_while_revalidate: num, ..cc }
    } else if key == "stale-if-error"@ {
        CacheControlView { stale_if_error: num, ..cc }
    } else {
        CacheControlView { unrecognized: cc.unrecognized.push(key), ..cc }
    }
}

/// The effect of the pieces in order, starting from `cc`.
pub open spec fn apply_all(cc: CacheControlView, parts: Seq<Seq<char>>) -> CacheControlView
    decreases parts.len(),
{
    if parts.len() == 0 {
        cc
    } else {
        apply_directive(apply_all(cc, parts.drop_last()), parts.last())
    }
}

/// The directives of a `Cache-Control` value: its comma-separated pieces
/// applied in order, so a later numeric directive overrides an earlier one.
pub open spec fn cache_control_of(value: Seq<char>) -> CacheControlView {
    apply_all(cc_default(), split(value, CharClass::Is(',')))
}

proof fn lemma_apply_all_concat(cc: CacheControlView, p1: Seq<Seq<char>>, p2: Seq<Seq<char>>)
    ensures
        apply_all(cc, p1 + p2) == apply_all(apply_all(cc, p1), p2),
    decreases p2.len(),
{
    if p2.len() == 0 {
        assert(p1 + p2 =~= p1);
    } else {
        lemma_apply_all_concat(cc, p1, p2.drop_last());
        assert((p1 + p2).drop_last() =~= p1 + p2.drop_last());
        assert((p1 + p2).last() == p2.last());
    }
}

/// `stale-while-revalidate` and `stale-if-error` set their own window and
/// nothing else: appending such a directive to a `Cache-Control` value
/// leaves every other directive, the freshness lifetime among them, as it was.
pub proof fn lemma_stale_directive_sets_only_its_window(value: Seq<char>, part: Seq<char>)
    requires
        !part.contains(','),
        lower(directive_name(part)) == "stale-while-revalidate"@ || lower(directive_name(part))
            == "stale-if-error"@,
    ensures
        ({
            let c1 = cache_control_of(value);
            let c2 = cache_control_of(value + seq![','] + part);
            &&& c2.no_store == c1.no_store
            &&& c2.no_cache == c1.no_cache
            &&& c2.private == c1.private
            &&& c2.public == c1.public
            &&& c2.must_revalidate == c1.must_revalidate
            &&& c2.proxy_revalidate == c1.proxy_revalidate
            &&& c2.immutable == c1.immutable
            &&& c2.max_age == c1.max_age
            &&& c2.s_maxage == c1.s_maxage
            &&& c2.unrecognized == c1.unrecognized
        }),
{
    let k = CharClass::Is(',');
    crate::text::lemma_split_concat(value, part, CharClass::Is(','), ',');
    assert forall|i: int| 0 <= i < part.len() implies !crate::text::in_class(k, #[trigger] part[i]) by {
        if part[i] == ',' {
            assert(part.contains(','));
        }
    }
    crate::text::lemma_split_single(part, k);
    lemma_apply_all_concat(cc_default(), split(value, k), seq![part]);
    let c1 = cache_control_of(value);
    assert(seq![part].drop_last() =~= Seq::<Seq<char>>::empty());
    assert(apply_all(c1, Seq::<Seq<char>>::empty()) == c1);
    assert(seq![part].last() == part);
    assert(apply_all(c1, seq![part]) == apply_directive(c1, part));
    reveal_strlit("stale-while-revalidate");
    reveal_strlit("stale-if-error");
    reveal_strlit("no-store");
    reveal_strlit("no-cache");
    reveal_strlit("private");
    reveal_strlit("public");
    reveal_strlit("must-revalidate");
    reveal_strlit("proxy-revalidate");
    reveal_strlit("immutable");
    reveal_strlit("max-age");
    reveal_strlit("s-maxage");
    let key = lower(directive_name(part));
    assert(key.len() > 0);
    assert(trim(part).len() > 0) by {
        if trim(part).len() == 0 {
            assert(index_of(trim(part), '=') == 0);
            assert(directive_name(part) == trim(part));
        }
    }
    assert(key != "no-store"@);
    assert(key != "no-cache"@);
    assert(key != "private"@);
    assert(key != "public"@);
    assert(key != "must-revalidate"@);
    assert(key != "proxy-revalidate"@);
    assert(key != "immutable"@);
    assert(key != "max-age"@);
    assert(key != "s-maxage"@);
}

/// Whether one of the pieces names the directive `key` (in any ASCII case).
pub open spec fn names_in(parts: Seq<Seq<char>>, key: Seq<char>) -> bool
    decreases parts.len(),
{
    parts.len() > 0 && (names_in(parts.drop_last(), key) || lower(directive_name(parts.last()))
        == key)
}

/// Whether the `Cache-Control` value names the directive `key` (in any ASCII case).
pub open spec fn names_directive(value: Seq<char>, key: Seq<char>) -> bool {
    names_in(split(value, CharClass::Is(',')), key)
}

/// How the pieces applied after `c` relate to the same pieces applied alone.
pub open spec fn continues(c: CacheControlView, y: CacheControlView, r: CacheControlView, parts: Seq<Seq<char>>) -> bool {
    &&& r.no_store == (c.no_store || y.no_store)
    &&& r.no_cache == (c.no_cache || y.no_cache)
    &&& r.private == (c.private || y.private)
    &&& r.public == (c.public || y.public)
    &&& r.must_revalidate == (c.must_revalidate || y.must_revalidate)
    &&& r.proxy_revalidate == (c.proxy_revalidate || y.proxy_revalidate)
    &&& r.immutable == (c.immutable || y.immutable)
    &&& r.unrecognized == c.unrecognized + y.unrecognized
    &&& r.max_age == (if names_in(parts, "max-age"@) { y.max_age } else { c.max_age })
    &&& r.s_maxage == (if names_in(parts, "s-maxage"@) { y.s_maxage } else { c.s_maxage })
    &&& r.stale_while_revalidate == (if names_in(parts, "stale-while-revalidate"@) {
        y.stale_while_revalidate
    } else {
        c.stale_while_revalidate
    })
    &&& r.stale_if_error == (if names_in(parts, "stale-if-error"@) {
        y.stale_if_error
    } else {
        c.stale_if_error
    })
}

/// The lengths and telling characters of the directive names, which set
/// them apart from one another.
proof fn lemma_keywords_distinct()
    ensures
        "no-store"@.len() == 8 && "no-store"@[0] == 'n' && "no-store"@[3] == 's',
        "no-cache"@.len() == 8 && "no-cache"@[0] == 'n' && "no-cache"@[3] == 'c',
        "s-maxage"@.len() == 8 && "s-maxage"@[0] == 's',
        "private"@.len() == 7 && "private"@[0] == 'p',
        "max-age"@.len() == 7 && "max-age"@[0] == 'm',
        "public"@.len() == 6,
        "must-revalidate"@.len() == 15,
        "proxy-revalidate"@.len() == 16,
        "immutable"@.len() == 9,
        "stale-while-revalidate"@.len() == 22,
        "stale-if-error"@.len() == 14,
{
    reveal_strlit("stale-while-revalidate");
    reveal_strlit("stale-if-error");
    reveal_strlit("no-store");
    reveal_strlit("no-cache");
    reveal_strlit("private");
    reveal_strlit("public");
    reveal_strlit("must-revalidate");
    reveal_strlit("proxy-revalidate");
    reveal_strlit("immutable");
    reveal_strlit("max-age");
    reveal_strlit("s-maxage");
}

#[verifier::rlimit(60)]
proof fn lemma_continues_step(
    c: CacheControlView,
    x: CacheControlView,
    y: CacheControlView,
    parts: Seq<Seq<char>>,
    p: Seq<char>,
)
    requires
        continues(c, y, x, parts),
    ensures
        continues(c, apply_directive(y, p), apply_directive(x, p), parts.push(p)),
{
    let key = lower(directive_name(p));
    let ps = parts.push(p);
    assert(ps.drop_last() =~= parts);
    assert(ps.last() == p);
    assert(names_in(ps, "max-age"@) == (names_in(parts, "max-age"@) || key == "max-age"@));
    assert(names_in(ps, "s-maxage"@) == (names_in(parts, "s-maxage"@) || key == "s-maxage"@));
    assert(names_in(ps, "stale-while-revalidate"@) == (names_in(parts, "stale-while-revalidate"@)
        || key == "stale-while-revalidate"@));
    assert(names_in(ps, "stale-if-error"@) == (names_in(parts, "stale-if-error"@) || key
        == "stale-if-error"@));
    if trim(p).len() == 0 {
        assert(directive_name(p) == trim(p));
        assert(key.len() == 0);
        lemma_keywords_distinct();
        assert(apply_directive(x, p) == x);
        assert(apply_directive(y, p) == y);
    } else {
        lemma_set_continues(c, x, y, parts, key, directive_number(p));
    }
}

proof fn lemma_set_continues(
    c: CacheControlView,
    x: CacheControlView,
    y: CacheControlView,
    parts: Seq<Seq<char>>,
    key: Seq<char>,
    num: Option<i64>,
)
    requires
        continues(c, y, x, parts),
    ensures
        ({
            let x2 = set_directive(x, key, num);
            let y2 = set_directive(y, key, num);
            &&& x2.no_store == (c.no_store || y2.no_store)
            &&& x2.no_cache == (c.no_cache || y2.no_cache)
            &&& x2.private == (c.private || y2.private)
            &&& x2.public == (c.public || y2.public)
            &&& x2.must_revalidate == (c.must_revalidate || y2.must_revalidate)
            &&& x2.proxy_revalidate == (c.proxy_revalidate || y2.proxy_revalidate)
            &&& x2.immutable == (c.immutable || y2.immutable)
            &&& x2.unrecognized == c.unrecognized + y2.unrecognized
            &&& x2.max_age == (if names_in(parts, "max-age"@) || key == "max-age"@ { y2.max_age } else { c.max_age })
            &&& x2.s_maxage == (if names_in(parts, "s-maxage"@) || key == "s-maxage"@ { y2.s_maxage } else { c.s_maxage })
            &&& x2.stale_while_revalidate == (if names_in(parts, "stale-while-revalidate"@) || key == "stale-while-revalidate"@ {
                y2.stale_while_revalidate
            } else {
                c.stale_while_revalidate
            })
            &&& x2.stale_if_error == (if names_in(parts, "stale-if-error"@) || key == "stale-if-error"@ {
                y2.stale_if_error
            } else {
                c.stale_if_error
            })
        }),
{
    lemma_keywords_distinct();
    assert(x.unrecognized.push(key) =~= c.unrecognized + y.unrecognized.push(key));
}

#[verifier::rlimit(30)]
proof fn lemma_apply_all_continues(c: CacheControlView, parts: Seq<Seq<char>>)
    ensures
        continues(c, apply_all(cc_default(), parts), apply_all(c, parts), parts),
    decreases parts.len(),
{
    if parts.len() == 0 {
        assert(c.unrecognized + Seq::<Seq<char>>::empty() =~= c.unrecognized);
    } else {
        lemma_apply_all_continues(c, parts.drop_last());
        lemma_continues_step(
            c,
            apply_all(c, parts.drop_last()),
            apply_all(cc_default(), parts.drop_last()),
            parts.drop_last(),
            parts.last(),
        );
        assert(parts.drop_last().push(parts.last()) =~= parts);
    }
}

/// Two `Cache-Control` values joined by a comma: each flag is set when
/// either sets it, the unknown names of the first come before those of the
/// second, and each numeric directive comes from the second where the
/// second names it, else from the first.
pub proof fn lemma_cache_control_concat(a: Seq<char>, b: Seq<char>)
    ensures
        continues(
            cache_control_of(a),
            cache_control_of(b),
            cache_control_of(a + seq![','] + b),
            split(b, CharClass::Is(',')),
        ),
{
    let k = CharClass::Is(',');
    crate::text::lemma_split_concat(a, b, k, ',');
    lemma_apply_all_concat(cc_default(), split(a, k), split(b, k));
    lemma_apply_all_continues(cache_control_of(a), split(b, k));
}

proof fn lemma_apply_directive_lower(cc: CacheControlView, part: Seq<char>)
    ensures
        apply_directive(cc, lower(part)) == apply_directive(cc, part),
{
    let ws = CharClass::Whitespace;
    let q = CharClass::Is('"');
    let p = trim(part);
    let i = index_of(p, '=');
    lemma_lower_strip(part, ws);
    let lp = trim(lower(part));
    assert(lp == lower(p));
    lemma_lower_index_of(p, '=');
    assert(index_of(lp, '=') == i);
    crate::text::lemma_index_of(p, '=');
    if i < p.len() {
        lemma_lower_subrange(p, 0, i);
        lemma_lower_subrange(p, i + 1, p.len() as int);
        lemma_lower_strip(p.take(i), ws);
        lemma_lower_strip(p.skip(i + 1), ws);
        lemma_lower_strip(trim(p.skip(i + 1)), q);
        lemma_parse_int_lower(strip(trim(p.skip(i + 1)), q), true);
        assert(directive_name(lower(part)) == lower(directive_name(part)));
    } else {
        assert(directive_name(lower(part)) == lower(directive_name(part)));
    }
    lemma_lower_idempotent(directive_name(part));
}

proof fn lemma_apply_all_lower(cc: CacheControlView, parts: Seq<Seq<char>>)
    ensures
        apply_all(cc, parts.map_values(|p: Seq<char>| lower(p))) == apply_all(cc, parts),
    decreases parts.len(),
{
    if parts.len() > 0 {
        let f = |p: Seq<char>| lower(p);
        assert(parts.map_values(f).drop_last() =~= parts.drop_last().map_values(f));
        lemma_apply_all_lower(cc, parts.drop_last());
        lemma_apply_directive_lower(apply_all(cc, parts.drop_last()), parts.last());
    }
}

/// Directive names are matched case-insensitively, and the arguments that
/// count (numbers) have no case: the ASCII case of a `Cache-Control` value
/// changes nothing. Unknown names are kept lowercased either way.
pub proof fn lemma_directives_case_insensitive(value: Seq<char>)
    ensures
        cache_control_of(lower(value)) == cache_control_of(value),
{
    lemma_lower_split(value, CharClass::Is(','));
    lemma_apply_all_lower(cc_default(), split(value, CharClass::Is(',')));
}

/// Whether `k` is the name of a directive this library interprets.
pub open spec fn is_keyword(k: Seq<char>) -> bool {
    ||| k == "no-store"@
    ||| k == "no-cache"@
    ||| k == "private"@
    ||| k == "public"@
    ||| k == "must-revalidate"@
    ||| k == "proxy-revalidate"@
    ||| k == "immutable"@
    ||| k == "max-age"@
    ||| k == "s-maxage"@
    ||| k == "stale-while-revalidate"@
    ||| k == "stale-if-error"@
}

/// The argument of the last of the pieces that names the directive `key`
/// (in any ASCII case); none where no piece names it.
pub open spec fn named_number(parts: Seq<Seq<char>>, key: Seq<char>) -> Option<i64>
    decreases parts.len(),
{
    if parts.len() == 0 {
        None
    } else if lower(directive_name(parts.last())) == key {
        directive_number(parts.last())
    } else {
        named_number(parts.drop_last(), key)
    }
}

/// The lowercased names of the non-empty pieces that name no directive this
/// library interprets, in the order of the pieces.
pub open spec fn unknown_names(parts: Seq<Seq<char>>) -> Seq<Seq<char>>
    decreases parts.len(),
{
    if parts.len() == 0 {
        Seq::empty()
    } else {
        let p = parts.last();
        let k = lower(directive_name(p));
        if trim(p).len() > 0 && !is_keyword(k) {
            unknown_names(parts.drop_last()).push(k)
        } else {
            unknown_names(parts.drop_last())
        }
    }
}

/// Each field of `r` is what the pieces say of it.
spec fn described(r: CacheControlView, parts: Seq<Seq<char>>) -> bool {
    &&& r.no_store == names_in(parts, "no-store"@)
    &&& r.no_cache == names_in(parts, "no-cache"@)
    &&& r.private == names_in(parts, "private"@)
    &&& r.public == names_in(parts, "public"@)
    &&& r.must_revalidate == names_in(parts, "must-revalidate"@)
    &&& r.proxy_revalidate == names_in(parts, "proxy-revalidate"@)
    &&& r.immutable == names_in(parts, "immutable"@)
    &&& r.max_age == named_number(parts, "max-age"@)
    &&& r.s_maxage == named_number(parts, "s-maxage"@)
    &&& r.stale_while_revalidate == named_number(parts, "stale-while-revalidate"@)
    &&& r.stale_if_error == named_number(parts, "stale-if-error"@)
    &&& r.unrecognized == unknown_names(parts)
}

#[verifier::rlimit(60)]
proof fn lemma_described_step(r: CacheControlView, parts: Seq<Seq<char>>, p: Seq<char>)
    requires
        described(r, parts),
    ensures
        described(apply_directive(r, p), parts.push(p)),
{
    let k = lower(directive_name(p));
    let ps = parts.push(p);
    assert(ps.drop_last() =~= parts);
    assert(ps.last() == p);
    lemma_keywords_distinct();
    if trim(p).len() == 0 {
        assert(directive_name(p) == trim(p));
        assert(k.len() == 0);
        assert(apply_directive(r, p) == r);
    } else {
        assert(apply_directive(r, p) == set_directive(r, k, directive_number(p)));
    }
}

proof fn lemma_apply_all_described(parts: Seq<Seq<char>>)
    ensures
        described(apply_all(cc_default(), parts), parts),
    decreases parts.len(),
{
    if parts.len() > 0 {
        lemma_apply_all_described(parts.drop_last());
        lemma_described_step(apply_all(cc_default(), parts.drop_last()), parts.drop_last(), parts.last());
        assert(parts.drop_last().push(parts.last()) =~= parts);
    }
}

/// What each directive of a parsed `Cache-Control` value says, read off the
/// value itself: a flag is set exactly when some piece names its directive
/// (in any case), a numeric directive holds the argument of the last piece
/// naming it (none where no piece does), and the unknown names are those of
/// the non-empty pieces that name no directive, lowercased, in order.
pub proof fn lemma_directives_present(value: Seq<char>)
    ensures
        cache_control_of(value).no_store == names_directive(value, "no-store"@),
        cache_control_of(value).no_cache == names_directive(value, "no-cache"@),
        cache_control_of(value).private == names_directive(value, "private"@),
        cache_control_of(value).public == names_directive(value, "public"@),
        cache_control_of(value).must_revalidate == names_directive(value, "must-revalidate"@),
        cache_control_of(value).proxy_revalidate == names_directive(value, "proxy-revalidate"@),
        cache_control_of(value).immutable == names_directive(value, "immutable"@),
        cache_control_of(value).max_age == named_number(split(value, CharClass::Is(',')), "max-age"@),
        cache_control_of(value).s_maxage == named_number(split(value, CharClass::Is(',')), "s-maxage"@),
        cache_control_of(value).stale_while_revalidate == named_number(split(value, CharClass::Is(',')), "stale-while-revalidate"@),
        cache_control_of(value).stale_if_error == named_number(split(value, CharClass::Is(',')), "stale-if-error"@),
        cache_control_of(value).unrecognized == unknown_names(split(value, CharClass::Is(','))),
{
    lemma_apply_all_described(split(value, CharClass::Is(',')));
}

/// Applies the piece `v[lo..hi]` to `cc`.
fn apply_part(cc: &mut CacheControl, v: &Vec<char>, lo: usize, hi: usize)
    requires
        lo <= hi <= v.len(),
    ensures
        final(cc)@ == apply_directive(old(cc)@, v@.subrange(lo as int, hi as int)),
{
    let (p0, p1) = trim_range(v, lo, hi);
    let ghost p = v@.subrange(p0 as int, p1 as int);
    if p0 == p1 {
        return;
    }
    let eq = find_char(v, p0, p1, '=');
    let (n0, n1, num) = if eq < p1 {
        let (n0, n1) = trim_range(v, p0, eq);
        let (x0, x1) = trim_range(v, eq + 1, p1);
        let (a0, a1) = strip_range(v, x0, x1, CharClass::Is('"'));
        proof {
            assert(v@.subrange(p0 as int, eq as int) =~= p.take(eq - p0));
            assert(v@.subrange(eq + 1, p1 as int) =~= p.skip(eq - p0 + 1));
        }
        (n0, n1, parse_i64_range(v, a0, a1))
    } else {
        (p0, p1, None)
    };
    let key = lower_range(v, n0, n1);
    let klen = key.len();
    if range_eq_str(&key, 0, klen, "no-store") {
        cc.no_store = true;
    } else if range_eq_str(&key, 0, klen, "no-cache") {
        cc.no_cache = true;
    } else if range_eq_str(&key, 0, klen, "private") {
        cc.private = true;
    } else if range_eq_str(&key, 0, klen, "public") {
        cc.public = true;
    } else if range_eq_str(&key, 0, klen, "must-revalidate") {
        cc.must_revalidate = true;
    } else if range_eq_str(&key, 0, klen, "proxy-revalidate") {
        cc.proxy_revalidate = true;
    } else if range_eq_str(&key, 0, klen, "immutable") {
        cc.immutable = true;
    } else if range_eq_str(&key, 0, klen, "max-age") {
        cc.max_age = num;
    } else if range_eq_str(&key, 0, klen, "s-maxage") {
        cc.s_maxage = num;
    } else if range_eq_str(&key, 0, klen, "stale-while-revalidate") {
        cc.stale_while_revalidate = num;
    } else if range_eq_str(&key, 0, klen, "stale-if-error") {
        cc.stale_if_error = num;
    } else {
        let mut name = String::new();
        push_range(&mut name, v, n0, n1, true);
        let ghost before = cc.unrecognized@;
        cc.unrecognized.push(name);
        proof {
            assert(name@ =~= lower(v@.subrange(n0 as int, n1 as int)));
            assert(cc.unrecognized@.map_values(|s: String| s@) =~= before.map_values(
                |s: String| s@,
            ).push(name@));
        }
    }
    proof {
        assert(key@.subrange(0, klen as int) =~= key@);
    }
}

/// Splits a `Cache-Control` header value into its directives.
///
/// Directives are comma-separated and may carry an `=value` argument,
/// which may itself be quoted (`max-age="3600"` shows up in the wild
/// even though the grammar doesn't require it).
pub fn parse_cache_control(value: &str) -> (cc: CacheControl)
    ensures
        cc@ == cache_control_of(value@),
        cc.no_store == names_directive(value@, "no-store"@),
        cc.no_cache == names_directive(value@, "no-cache"@),
        cc.private == names_directive(value@, "private"@),
        cc.public == names_directive(value@, "public"@),
        cc.must_revalidate == names_directive(value@, "must-revalidate"@),
        cc.proxy_revalidate == names_directive(value@, "proxy-revalidate"@),
        cc.immutable == names_directive(value@, "immutable"@),
        cc.max_age == named_number(split(value@, CharClass::Is(',')), "max-age"@),
{
    proof {
        lemma_directives_present(value@);
    }
    let v = to_chars(value);
    proof {
        assert(v@.subrange(0, v.len() as int) =~= value@);
    }
    let parts = split_ranges(&v, 0, v.len(), CharClass::Is(','));
    let ghost ps = split(value@, CharClass::Is(','));
    let mut cc = CacheControl::default();
    let mut k: usize = 0;
    proof {
        assert(ps.take(0) =~= Seq::<Seq<char>>::empty());
    }
    while k < parts.len()
        invariant
            k <= parts.len() == ps.len(),
            forall|n: int|
                0 <= n < parts.len() ==> (#[trigger] parts[n]).0 <= parts[n].1 <= v.len()
                    && v@.subrange(parts[n].0 as int, parts[n].1 as int) == ps[n],
            cc@ == apply_all(cc_default(), ps.take(k as int)),
        decreases parts.len() - k,
    {
        proof {
            assert(ps.take(k + 1).drop_last() =~= ps.take(k as int));
        }
        let (lo, hi) = parts[k];
        apply_part(&mut cc, &v, lo, hi);
        k += 1;
    }
    proof {
        assert(ps.take(k as int) =~= ps);
    }
    cc
}

} // verus!
