//! Character-level text handling: the model of `str` operations that the
//! header parsers are specified with, and their executable counterparts.
//!
//! Text is handled as a `Vec<char>` together with a half-open range
//! `lo..hi`; the specification speaks of `v@.subrange(lo, hi)`.
use vstd::prelude::*;

verus! {

/// A class of characters used for splitting and trimming.
#[derive(Clone, Copy)]
pub enum CharClass {
    /// Exactly the given character.
    Is(char),
    /// Unicode `White_Space`, the set that `char::is_whitespace` tests.
    Whitespace,
}

/// The Unicode `White_Space` property.
pub open spec fn is_ws(c: char) -> bool {
    let u = c as u32;
    ||| 9 <= u <= 13
    ||| u == 32
    ||| u == 0x85
    ||| u == 0xA0
    ||| u == 0x1680
    ||| 0x2000 <= u <= 0x200A
    ||| u == 0x2028
    ||| u == 0x2029
    ||| u == 0x202F
    ||| u == 0x205F
    ||| u == 0x3000
}

pub open spec fn in_class(k: CharClass, c: char) -> bool {
    match k {
        CharClass::Is(x) => c == x,
        CharClass::Whitespace => is_ws(c),
    }
}

pub(crate) fn char_in_class(k: CharClass, c: char) -> (b: bool)
    ensures
        b == in_class(k, c),
{
    match k {
        CharClass::Is(x) => c == x,
        CharClass::Whitespace => {
            let u = c as u32;
            (9 <= u && u <= 13) || u == 32 || u == 0x85 || u == 0xA0 || u == 0x1680 || (0x2000
                <= u && u <= 0x200A) || u == 0x2028 || u == 0x2029 || u == 0x202F || u == 0x205F
                || u == 0x3000
        },
    }
}

/// `s` with every leading character of class `k` removed.
pub open spec fn drop_lead(s: Seq<char>, k: CharClass) -> Seq<char>
    decreases s.len(),
{
    if s.len() > 0 && in_class(k, s[0]) {
        drop_lead(s.drop_first(), k)
    } else {
        s
    }
}

/// `s` with every trailing character of class `k` removed.
pub open spec fn drop_trail(s: Seq<char>, k: CharClass) -> Seq<char>
    decreases s.len(),
{
    if s.len() > 0 && in_class(k, s.last()) {
        drop_trail(s.drop_last(), k)
    } else {
        s
    }
}

/// `str::trim_matches` for a class: leading and trailing runs removed.
pub open spec fn strip(s: Seq<char>, k: CharClass) -> Seq<char> {
    drop_trail(drop_lead(s, k), k)
}

/// `str::trim`.
pub open spec fn trim(s: Seq<char>) -> Seq<char> {
    strip(s, CharClass::Whitespace)
}

/// `str::split` on a class: the pieces between separators, empty ones included.
pub open spec fn split(s: Seq<char>, k: CharClass) -> Seq<Seq<char>>
    decreases s.len(),
{
    if s.len() == 0 {
        seq![Seq::empty()]
    } else {
        let r = split(s.drop_last(), k);
        if in_class(k, s.last()) {
            r.push(Seq::empty())
        } else {
            r.update(r.len() - 1, r.last().push(s.last()))
        }
    }
}

/// The pieces of `ss` that are not empty, in order.
pub open spec fn non_empty(ss: Seq<Seq<char>>) -> Seq<Seq<char>>
    decreases ss.len(),
{
    if ss.len() == 0 {
        ss
    } else {
        let r = non_empty(ss.drop_last());
        if ss.last().len() > 0 {
            r.push(ss.last())
        } else {
            r
        }
    }
}

/// `str::split_whitespace`.
pub open spec fn words(s: Seq<char>) -> Seq<Seq<char>> {
    non_empty(split(s, CharClass::Whitespace))
}

/// Index of the first `c` in `s`, or `s.len()` where there is none.
pub open spec fn index_of(s: Seq<char>, c: char) -> int
    decreases s.len(),
{
    if s.len() == 0 {
        0
    } else if s[0] == c {
        0
    } else {
        1 + index_of(s.drop_first(), c)
    }
}

/// `char::to_ascii_lowercase`.
pub open spec fn lower_char(c: char) -> char {
    if 'A' <= c <= 'Z' {
        ((c as u32) + 32) as char
    } else {
        c
    }
}

/// `str::to_ascii_lowercase`.
pub open spec fn lower(s: Seq<char>) -> Seq<char> {
    s.map_values(|c: char| lower_char(c))
}

/// `str::starts_with` for a string prefix.
pub open spec fn starts_with(s: Seq<char>, p: Seq<char>) -> bool {
    p.len() <= s.len() && s.take(p.len() as int) == p
}

pub proof fn lemma_split_len(s: Seq<char>, k: CharClass)
    ensures
        split(s, k).len() >= 1,
    decreases s.len(),
{
    if s.len() > 0 {
        lemma_split_len(s.drop_last(), k);
    }
}

pub proof fn lemma_index_of(s: Seq<char>, c: char)
    ensures
        0 <= index_of(s, c) <= s.len(),
        forall|j: int| 0 <= j < index_of(s, c) ==> s[j] != c,
        index_of(s, c) < s.len() ==> s[index_of(s, c)] == c,
    decreases s.len(),
{
    if s.len() > 0 && s[0] != c {
        lemma_index_of(s.drop_first(), c);
        assert forall|j: int| 0 <= j < index_of(s, c) implies s[j] != c by {
            if j > 0 {
                assert(s[j] == s.drop_first()[j - 1]);
            }
        }
    }
}

/// `drop_lead` leaves a suffix whose first character is outside the class.
pub proof fn lemma_drop_lead(s: Seq<char>, k: CharClass)
    ensures
        drop_lead(s, k).len() <= s.len(),
        drop_lead(s, k) == s.skip(s.len() - drop_lead(s, k).len()),
        drop_lead(s, k).len() == 0 || !in_class(k, drop_lead(s, k)[0]),
    decreases s.len(),
{
    if s.len() > 0 && in_class(k, s[0]) {
        lemma_drop_lead(s.drop_first(), k);
        assert(s.drop_first().skip(s.drop_first().len() - drop_lead(s, k).len()) =~= s.skip(
            s.len() - drop_lead(s, k).len(),
        ));
    } else {
        assert(s.skip(0) =~= s);
    }
}

/// `drop_trail` leaves a prefix whose last character is outside the class.
pub proof fn lemma_drop_trail(s: Seq<char>, k: CharClass)
    ensures
        drop_trail(s, k).len() <= s.len(),
        drop_trail(s, k) == s.take(drop_trail(s, k).len() as int),
        drop_trail(s, k).len() == 0 || !in_class(k, drop_trail(s, k).last()),
    decreases s.len(),
{
    if s.len() > 0 && in_class(k, s.last()) {
        lemma_drop_trail(s.drop_last(), k);
        assert(s.drop_last().take(drop_trail(s, k).len() as int) =~= s.take(
            drop_trail(s, k).len() as int,
        ));
    } else {
        assert(s.take(s.len() as int) =~= s);
    }
}

/// Stripping a class twice is stripping it once.
pub proof fn lemma_strip_idempotent(s: Seq<char>, k: CharClass)
    ensures
        strip(strip(s, k), k) == strip(s, k),
{
    let a = drop_lead(s, k);
    let b = drop_trail(a, k);
    lemma_drop_lead(s, k);
    lemma_drop_trail(a, k);
    if b.len() > 0 {
        assert(b[0] == a[0]);
    }
    assert(drop_lead(b, k) == b);
    assert(drop_trail(b, k) == b);
}

/// A character of `strip(s, k)` is a character of `s`.
pub proof fn lemma_strip_within(s: Seq<char>, k: CharClass, c: char)
    requires
        !s.contains(c),
    ensures
        !strip(s, k).contains(c),
{
    let a = drop_lead(s, k);
    lemma_drop_lead(s, k);
    lemma_drop_trail(a, k);
    let b = drop_trail(a, k);
    if b.contains(c) {
        let i = choose|i: int| 0 <= i < b.len() && b[i] == c;
        assert(a[i] == c);
        assert(s[s.len() - a.len() + i] == c);
    }
}

/// Splitting at a separator splits the text into the pieces before it and
/// the pieces after it.
pub proof fn lemma_split_concat(a: Seq<char>, b: Seq<char>, k: CharClass, c: char)
    requires
        in_class(k, c),
    ensures
        split(a + seq![c] + b, k) == split(a, k) + split(b, k),
    decreases b.len(),
{
    let x = a + seq![c] + b;
    if b.len() == 0 {
        assert(x.drop_last() =~= a);
        assert(x.last() == c);
        assert(b =~= Seq::<char>::empty());
        assert(split(x, k) =~= split(a, k) + split(b, k));
    } else {
        lemma_split_concat(a, b.drop_last(), k, c);
        assert(x.drop_last() =~= a + seq![c] + b.drop_last());
        assert(x.last() == b.last());
        lemma_split_len(b.drop_last(), k);
        lemma_split_len(a, k);
        let sa = split(a, k);
        let sb = split(b.drop_last(), k);
        if in_class(k, b.last()) {
            assert(split(x, k) =~= sa + split(b, k));
        } else {
            assert((sa + sb).last() == sb.last());
            assert((sa + sb).update((sa + sb).len() - 1, sb.last().push(b.last())) =~= sa + sb.update(
                sb.len() - 1,
                sb.last().push(b.last()),
            ));
            assert(split(x, k) =~= sa + split(b, k));
        }
    }
}

/// Leading characters of the class are dropped from `a` alone when `b`
/// starts outside the class.
pub proof fn lemma_drop_lead_concat(a: Seq<char>, b: Seq<char>, k: CharClass)
    requires
        b.len() > 0,
        !in_class(k, b[0]),
    ensures
        drop_lead(a + b, k) == drop_lead(a, k) + b,
    decreases a.len(),
{
    if a.len() == 0 {
        assert(a + b =~= b);
        assert(drop_lead(a, k) + b =~= b);
    } else {
        assert((a + b)[0] == a[0]);
        if in_class(k, a[0]) {
            assert((a + b).drop_first() =~= a.drop_first() + b);
            lemma_drop_lead_concat(a.drop_first(), b, k);
        }
    }
}

/// Trailing characters of the class are dropped from `b` alone when `a`
/// ends outside the class.
pub proof fn lemma_drop_trail_concat(a: Seq<char>, b: Seq<char>, k: CharClass)
    requires
        a.len() > 0,
        !in_class(k, a.last()),
    ensures
        drop_trail(a + b, k) == a + drop_trail(b, k),
    decreases b.len(),
{
    if b.len() == 0 {
        assert(a + b =~= a);
        assert(a + drop_trail(b, k) =~= a);
    } else {
        assert((a + b).last() == b.last());
        if in_class(k, b.last()) {
            assert((a + b).drop_last() =~= a + b.drop_last());
            lemma_drop_trail_concat(a, b.drop_last(), k);
        }
    }
}

/// What `drop_trail` removes is all of the class.
pub proof fn lemma_drop_trail_rest(s: Seq<char>, k: CharClass)
    ensures
        forall|i: int| drop_trail(s, k).len() <= i < s.len() ==> in_class(k, #[trigger] s[i]),
    decreases s.len(),
{
    if s.len() > 0 && in_class(k, s.last()) {
        lemma_drop_trail_rest(s.drop_last(), k);
        assert forall|i: int| drop_trail(s, k).len() <= i < s.len() implies in_class(k, #[trigger] s[i]) by {
            if i < s.len() - 1 {
                assert(s[i] == s.drop_last()[i]);
            }
        }
    }
}

/// Text all of the class drops to nothing from either end.
pub proof fn lemma_drop_all(w: Seq<char>, k: CharClass)
    requires
        forall|i: int| 0 <= i < w.len() ==> in_class(k, #[trigger] w[i]),
    ensures
        drop_lead(w, k).len() == 0,
        forall|x: Seq<char>| #[trigger] drop_trail(x + w, k) == drop_trail(x, k),
    decreases w.len(),
{
    if w.len() > 0 {
        assert(in_class(k, w[0]));
        assert(in_class(k, w[w.len() - 1]));
        lemma_drop_all(w.drop_first(), k);
        lemma_drop_all(w.drop_last(), k);
        assert forall|x: Seq<char>| #[trigger] drop_trail(x + w, k) == drop_trail(x, k) by {
            assert((x + w).last() == w.last());
            assert((x + w).drop_last() =~= x + w.drop_last());
            assert(drop_trail(x + w.drop_last(), k) == drop_trail(x, k));
        }
    }
}

/// Trailing whitespace does not change the trimmed text.
pub proof fn lemma_trim_append_ws(x: Seq<char>, w: Seq<char>)
    requires
        forall|i: int| 0 <= i < w.len() ==> is_ws(#[trigger] w[i]),
    ensures
        trim(x + w) == trim(x),
    decreases x.len(),
{
    let k = CharClass::Whitespace;
    assert forall|i: int| 0 <= i < w.len() implies in_class(k, #[trigger] w[i]) by {
        assert(is_ws(w[i]));
    }
    lemma_drop_all(w, k);
    if x.len() == 0 {
        assert(x + w =~= w);
        assert(drop_trail(Seq::<char>::empty() + drop_lead(w, k), k) == drop_trail(Seq::<char>::empty(), k));
        assert(drop_lead(w, k) =~= Seq::<char>::empty());
    } else {
        assert((x + w)[0] == x[0]);
        if is_ws(x[0]) {
            assert((x + w).drop_first() =~= x.drop_first() + w);
            lemma_trim_append_ws(x.drop_first(), w);
        } else {
            assert(drop_lead(x + w, k) == x + w);
            assert(drop_trail(x + w, k) == drop_trail(x, k));
        }
    }
}

/// Appending text without separators extends the last piece.
pub proof fn lemma_split_append_plain(s: Seq<char>, w: Seq<char>, k: CharClass)
    requires
        forall|i: int| 0 <= i < w.len() ==> !in_class(k, #[trigger] w[i]),
    ensures
        split(s + w, k) == split(s, k).update(split(s, k).len() - 1, split(s, k).last() + w),
    decreases w.len(),
{
    lemma_split_len(s, k);
    let p = split(s, k);
    if w.len() == 0 {
        assert(s + w =~= s);
        assert(p.last() + w =~= p.last());
        assert(p.update(p.len() - 1, p.last() + w) =~= p);
    } else {
        lemma_split_append_plain(s, w.drop_last(), k);
        assert((s + w).drop_last() =~= s + w.drop_last());
        assert((s + w).last() == w.last());
        assert(!in_class(k, w[w.len() - 1]));
        let q = p.update(p.len() - 1, p.last() + w.drop_last());
        assert((p.last() + w.drop_last()).push(w.last()) =~= p.last() + w);
        assert(split(s + w, k) =~= p.update(p.len() - 1, p.last() + w));
    }
}

/// Text holding no character of the class is a single piece.
pub proof fn lemma_split_single(s: Seq<char>, k: CharClass)
    requires
        forall|i: int| 0 <= i < s.len() ==> !in_class(k, #[trigger] s[i]),
    ensures
        split(s, k) == seq![s],
    decreases s.len(),
{
    if s.len() == 0 {
        assert(s =~= Seq::<char>::empty());
        assert(split(s, k) =~= seq![s]);
    } else {
        let t = s.drop_last();
        lemma_split_single(t, k);
        assert(!in_class(k, s[s.len() - 1]));
        assert(t.push(s.last()) =~= s);
        let r = split(t, k);
        assert(r.len() == 1 && r.last() == t);
        assert(split(s, k) == r.update(0, t.push(s.last())));
        assert(split(s, k) =~= seq![s]);
    }
}

/// A class that ASCII case does not touch: whitespace, or a character that
/// is not an ASCII letter.
pub open spec fn case_blind(k: CharClass) -> bool {
    match k {
        CharClass::Is(x) => !('A' <= x <= 'Z') && !('a' <= x <= 'z'),
        CharClass::Whitespace => true,
    }
}

pub proof fn lemma_lower_char(c: char)
    ensures
        lower_char(lower_char(c)) == lower_char(c),
        forall|k: CharClass| case_blind(k) ==> (in_class(k, lower_char(c)) == in_class(k, c)),
        48 <= (c as u32) <= 57 ==> lower_char(c) == c,
        (48 <= (lower_char(c) as u32) <= 57) == (48 <= (c as u32) <= 57),
        (lower_char(c) == '+') == (c == '+'),
        (lower_char(c) == '-') == (c == '-'),
{
    if 'A' <= c <= 'Z' {
        let u = (c as u32) + 32;
        assert(97 <= u <= 122);
        assert(lower_char(c) as u32 == u);
    }
}

pub proof fn lemma_lower_idempotent(s: Seq<char>)
    ensures
        lower(lower(s)) == lower(s),
{
    assert forall|i: int| 0 <= i < s.len() implies lower(lower(s))[i] == lower(s)[i] by {
        lemma_lower_char(s[i]);
    }
    assert(lower(lower(s)) =~= lower(s));
}

pub proof fn lemma_lower_subrange(s: Seq<char>, i: int, j: int)
    requires
        0 <= i <= j <= s.len(),
    ensures
        lower(s).subrange(i, j) == lower(s.subrange(i, j)),
{
    assert(lower(s).subrange(i, j) =~= lower(s.subrange(i, j)));
}

pub proof fn lemma_lower_strip(s: Seq<char>, k: CharClass)
    requires
        case_blind(k),
    ensures
        strip(lower(s), k) == lower(strip(s, k)),
{
    lemma_lower_drop_lead(s, k);
    lemma_lower_drop_trail(drop_lead(s, k), k);
}

proof fn lemma_lower_drop_lead(s: Seq<char>, k: CharClass)
    requires
        case_blind(k),
    ensures
        drop_lead(lower(s), k) == lower(drop_lead(s, k)),
    decreases s.len(),
{
    if s.len() > 0 {
        lemma_lower_char(s[0]);
        assert(lower(s)[0] == lower_char(s[0]));
        lemma_lower_subrange(s, 1, s.len() as int);
        lemma_lower_drop_lead(s.drop_first(), k);
    }
}

proof fn lemma_lower_drop_trail(s: Seq<char>, k: CharClass)
    requires
        case_blind(k),
    ensures
        drop_trail(lower(s), k) == lower(drop_trail(s, k)),
    decreases s.len(),
{
    if s.len() > 0 {
        lemma_lower_char(s.last());
        assert(lower(s).last() == lower_char(s.last()));
        lemma_lower_subrange(s, 0, s.len() - 1);
        lemma_lower_drop_trail(s.drop_last(), k);
    }
}

pub proof fn lemma_lower_index_of(s: Seq<char>, c: char)
    requires
        case_blind(CharClass::Is(c)),
    ensures
        index_of(lower(s), c) == index_of(s, c),
    decreases s.len(),
{
    if s.len() > 0 {
        lemma_lower_char(s[0]);
        assert(in_class(CharClass::Is(c), lower_char(s[0])) == in_class(CharClass::Is(c), s[0]));
        lemma_lower_subrange(s, 1, s.len() as int);
        lemma_lower_index_of(s.drop_first(), c);
    }
}

pub proof fn lemma_lower_split(s: Seq<char>, k: CharClass)
    requires
        case_blind(k),
    ensures
        split(lower(s), k) == split(s, k).map_values(|p: Seq<char>| lower(p)),
    decreases s.len(),
{
    if s.len() == 0 {
        assert(lower(s) =~= s);
        assert(split(s, k).map_values(|p: Seq<char>| lower(p)) =~= seq![lower(Seq::<char>::empty())]);
        assert(lower(Seq::<char>::empty()) =~= Seq::<char>::empty());
    } else {
        lemma_lower_char(s.last());
        lemma_lower_subrange(s, 0, s.len() - 1);
        lemma_lower_split(s.drop_last(), k);
        lemma_split_len(s.drop_last(), k);
        let r = split(s.drop_last(), k);
        let f = |p: Seq<char>| lower(p);
        assert(lower(s).last() == lower_char(s.last()));
        assert(lower(s).drop_last() == lower(s.drop_last()));
        if in_class(k, s.last()) {
            assert(lower(Seq::<char>::empty()) =~= Seq::<char>::empty());
            assert(split(lower(s), k) =~= split(s, k).map_values(f));
        } else {
            assert(lower(r.last().push(s.last())) =~= lower(r.last()).push(lower_char(s.last())));
            assert(split(lower(s), k) =~= split(s, k).map_values(f));
        }
    }
}

/// The characters of `s`.
pub(crate) fn to_chars(s: &str) -> (v: Vec<char>)
    ensures
        v@ == s@,
{
    let mut v: Vec<char> = Vec::new();
    for c in it: s.chars()
        invariant
            v@ == it.seq().take(it.index() as int),
    {
        v.push(c);
    }
    v
}

/// `String::push`.
#[verifier::external_body]
pub(crate) fn push_char(s: &mut String, c: char)
    ensures
        final(s)@ == old(s)@.push(c),
{
    s.push(c);
}

/// A new `String` holding the given text.
pub(crate) fn string_from(s: &str) -> (r: String)
    ensures
        r@ == s@,
{
    s.to_owned()
}

/// Appends the characters `v[lo..hi]`, transformed by `lowercase`, to `out`.
pub(crate) fn push_range(out: &mut String, v: &Vec<char>, lo: usize, hi: usize, lowercase: bool)
    requires
        lo <= hi <= v.len(),
    ensures
        final(out)@ == old(out)@ + (if lowercase {
            lower(v@.subrange(lo as int, hi as int))
        } else {
            v@.subrange(lo as int, hi as int)
        }),
{
    let ghost start = out@;
    let mut i = lo;
    while i < hi
        invariant
            lo <= i <= hi <= v.len(),
            out@ == start + (if lowercase {
                lower(v@.subrange(lo as int, i as int))
            } else {
                v@.subrange(lo as int, i as int)
            }),
        decreases hi - i,
    {
        let c = if lowercase {
            to_lower(v[i])
        } else {
            v[i]
        };
        push_char(out, c);
        proof {
            assert(v@.subrange(lo as int, i + 1) =~= v@.subrange(lo as int, i as int).push(v@[i as int]));
            assert(lower(v@.subrange(lo as int, i + 1)) =~= lower(v@.subrange(lo as int, i as int)).push(lower_char(v@[i as int])));
        }
        i += 1;
    }
}

/// The characters `v[lo..hi]` in ASCII lower case.
pub(crate) fn lower_range(v: &Vec<char>, lo: usize, hi: usize) -> (w: Vec<char>)
    requires
        lo <= hi <= v.len(),
    ensures
        w@ == lower(v@.subrange(lo as int, hi as int)),
{
    let mut w: Vec<char> = Vec::new();
    let mut i = lo;
    while i < hi
        invariant
            lo <= i <= hi <= v.len(),
            w@ == lower(v@.subrange(lo as int, i as int)),
        decreases hi - i,
    {
        w.push(to_lower(v[i]));
        proof {
            assert(lower(v@.subrange(lo as int, i + 1)) =~= lower(v@.subrange(lo as int, i as int)).push(lower_char(v@[i as int])));
        }
        i += 1;
    }
    w
}

/// A new `String` holding `v[lo..hi]`.
pub(crate) fn string_of(v: &Vec<char>, lo: usize, hi: usize) -> (s: String)
    requires
        lo <= hi <= v.len(),
    ensures
        s@ == v@.subrange(lo as int, hi as int),
{
    let mut s = String::new();
    push_range(&mut s, v, lo, hi, false);
    proof {
        assert(s@ =~= v@.subrange(lo as int, hi as int));
    }
    s
}

pub(crate) fn to_lower(c: char) -> (r: char)
    ensures
        r == lower_char(c),
{
    if 'A' <= c && c <= 'Z' {
        let b = (c as u8) + 32;
        proof {
            assert(b == (c as u32) + 32);
        }
        b as char
    } else {
        c
    }
}

/// Whether `v[lo..hi]` equals `w[wlo..whi]`.
pub(crate) fn ranges_eq(v: &Vec<char>, lo: usize, hi: usize, w: &Vec<char>, wlo: usize, whi: usize) -> (b: bool)
    requires
        lo <= hi <= v.len(),
        wlo <= whi <= w.len(),
    ensures
        b == (v@.subrange(lo as int, hi as int) == w@.subrange(wlo as int, whi as int)),
{
    if hi - lo != whi - wlo {
        proof {
            assert(v@.subrange(lo as int, hi as int).len() != w@.subrange(wlo as int, whi as int).len());
        }
        return false;
    }
    let n = hi - lo;
    let mut i: usize = 0;
    while i < n
        invariant
            lo <= hi <= v.len(),
            wlo <= whi <= w.len(),
            n == hi - lo == whi - wlo,
            0 <= i <= n,
            forall|j: int| 0 <= j < i ==> #[trigger] v@[lo + j] == w@[wlo + j],
        decreases n - i,
    {
        if v[lo + i] != w[wlo + i] {
            proof {
                assert(v@.subrange(lo as int, hi as int)[i as int] != w@.subrange(wlo as int, whi as int)[i as int]);
            }
            return false;
        }
        i += 1;
    }
    proof {
        assert forall|j: int| 0 <= j < n implies v@.subrange(lo as int, hi as int)[j]
            == w@.subrange(wlo as int, whi as int)[j] by {
            assert(v@[lo + j] == w@[wlo + j]);
        }
        assert(v@.subrange(lo as int, hi as int) =~= w@.subrange(wlo as int, whi as int));
    }
    true
}

/// Whether `v[lo..hi]` equals `w`.
pub(crate) fn range_eq(v: &Vec<char>, lo: usize, hi: usize, w: &Vec<char>) -> (b: bool)
    requires
        lo <= hi <= v.len(),
    ensures
        b == (v@.subrange(lo as int, hi as int) == w@),
{
    proof {
        assert(w@.subrange(0, w.len() as int) =~= w@);
    }
    ranges_eq(v, lo, hi, w, 0, w.len())
}

/// Whether `v[lo..hi]` equals the text `lit`.
pub(crate) fn range_eq_str(v: &Vec<char>, lo: usize, hi: usize, lit: &str) -> (b: bool)
    requires
        lo <= hi <= v.len(),
    ensures
        b == (v@.subrange(lo as int, hi as int) == lit@),
{
    let w = to_chars(lit);
    range_eq(v, lo, hi, &w)
}

/// Whether `v[lo..hi]` starts with the text `lit`.
pub(crate) fn range_starts_with(v: &Vec<char>, lo: usize, hi: usize, lit: &str) -> (b: bool)
    requires
        lo <= hi <= v.len(),
    ensures
        b == starts_with(v@.subrange(lo as int, hi as int), lit@),
{
    let w = to_chars(lit);
    if w.len() > hi - lo {
        return false;
    }
    let b = range_eq(v, lo, lo + w.len(), &w);
    proof {
        assert(v@.subrange(lo as int, hi as int).take(w@.len() as int) =~= v@.subrange(
            lo as int,
            lo + w@.len(),
        ));
    }
    b
}

/// The range of `v[lo..hi]` with the leading and trailing runs of class `k` removed.
pub(crate) fn strip_range(v: &Vec<char>, lo: usize, hi: usize, k: CharClass) -> (r: (usize, usize))
    requires
        lo <= hi <= v.len(),
    ensures
        lo <= r.0 <= r.1 <= hi,
        v@.subrange(r.0 as int, r.1 as int) == strip(v@.subrange(lo as int, hi as int), k),
{
    let mut i = lo;
    while i < hi && char_in_class(k, v[i])
        invariant
            lo <= i <= hi <= v.len(),
            drop_lead(v@.subrange(lo as int, hi as int), k) == drop_lead(
                v@.subrange(i as int, hi as int),
                k,
            ),
        decreases hi - i,
    {
        proof {
            assert(v@.subrange(i as int, hi as int).drop_first() =~= v@.subrange(
                i + 1,
                hi as int,
            ));
        }
        i += 1;
    }
    proof {
        if i == hi {
            assert(v@.subrange(i as int, hi as int) =~= Seq::<char>::empty());
        }
    }
    let mut j = hi;
    while j > i && char_in_class(k, v[j - 1])
        invariant
            lo <= i <= j <= hi <= v.len(),
            drop_trail(v@.subrange(i as int, hi as int), k) == drop_trail(
                v@.subrange(i as int, j as int),
                k,
            ),
        decreases j - i,
    {
        proof {
            assert(v@.subrange(i as int, j as int).drop_last() =~= v@.subrange(
                i as int,
                j - 1,
            ));
        }
        j -= 1;
    }
    proof {
        if j == i {
            assert(v@.subrange(i as int, j as int) =~= Seq::<char>::empty());
        }
    }
    (i, j)
}

/// The range of `trim(v[lo..hi])`.
pub(crate) fn trim_range(v: &Vec<char>, lo: usize, hi: usize) -> (r: (usize, usize))
    requires
        lo <= hi <= v.len(),
    ensures
        lo <= r.0 <= r.1 <= hi,
        v@.subrange(r.0 as int, r.1 as int) == trim(v@.subrange(lo as int, hi as int)),
{
    strip_range(v, lo, hi, CharClass::Whitespace)
}

/// The position of the first `c` in `v[lo..hi]`, or `hi` where there is none.
pub(crate) fn find_char(v: &Vec<char>, lo: usize, hi: usize, c: char) -> (r: usize)
    requires
        lo <= hi <= v.len(),
    ensures
        lo <= r <= hi,
        r - lo == index_of(v@.subrange(lo as int, hi as int), c),
{
    let mut i = lo;
    while i < hi && v[i] != c
        invariant
            lo <= i <= hi <= v.len(),
            index_of(v@.subrange(lo as int, hi as int), c) == (i - lo) + index_of(
                v@.subrange(i as int, hi as int),
                c,
            ),
        decreases hi - i,
    {
        proof {
            assert(v@.subrange(i as int, hi as int).drop_first() =~= v@.subrange(
                i + 1,
                hi as int,
            ));
        }
        i += 1;
    }
    i
}

/// The ranges of the pieces of `v[lo..hi]` split on class `k`.
pub(crate) fn split_ranges(v: &Vec<char>, lo: usize, hi: usize, k: CharClass) -> (r: Vec<(usize, usize)>)
    requires
        lo <= hi <= v.len(),
    ensures
        r.len() == split(v@.subrange(lo as int, hi as int), k).len(),
        forall|n: int|
            0 <= n < r.len() ==> lo <= (#[trigger] r[n]).0 <= r[n].1 <= hi && v@.subrange(
                r[n].0 as int,
                r[n].1 as int,
            ) == split(v@.subrange(lo as int, hi as int), k)[n],
{
    let mut r: Vec<(usize, usize)> = Vec::new();
    let mut start = lo;
    let mut i = lo;
    proof {
        assert(v@.subrange(lo as int, lo as int) =~= Seq::<char>::empty());
    }
    while i < hi
        invariant
            lo <= start <= i <= hi <= v.len(),
            r.len() + 1 == split(v@.subrange(lo as int, i as int), k).len(),
            forall|n: int|
                0 <= n < r.len() ==> lo <= (#[trigger] r[n]).0 <= r[n].1 <= i && v@.subrange(
                    r[n].0 as int,
                    r[n].1 as int,
                ) == split(v@.subrange(lo as int, i as int), k)[n],
            v@.subrange(start as int, i as int) == split(v@.subrange(lo as int, i as int), k).last(),
        decreases hi - i,
    {
        proof {
            assert(v@.subrange(lo as int, i + 1).drop_last() =~= v@.subrange(lo as int, i as int));
            lemma_split_len(v@.subrange(lo as int, i as int), k);
        }
        if char_in_class(k, v[i]) {
            r.push((start, i));
            start = i + 1;
            proof {
                assert(v@.subrange(start as int, i + 1) =~= Seq::<char>::empty());
            }
        } else {
            proof {
                assert(v@.subrange(start as int, i + 1) =~= v@.subrange(start as int, i as int).push(
                    v@[i as int],
                ));
            }
        }
        i += 1;
    }
    r.push((start, hi));
    r
}

} // verus!
