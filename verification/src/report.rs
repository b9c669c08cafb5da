//! Renderings of an analysis: the machine-readable JSON object and the
//! lines of the plain-text report.
use vstd::prelude::*;
use crate::analysis::{Analysis, AnalysisView};
use crate::number::{int_text, push_int};
use crate::text::{push_char, string_from, to_chars};
use crate::json::{Json, render, render_items, render_members, parse_json, lemma_parse_render};

verus! {

/// Lowercase hexadecimal digit of `n` (0 to 15).
pub open spec fn hex_digit(n: int) -> char {
    if n < 10 {
        (n + 48) as char
    } else {
        (n - 10 + 97) as char
    }
}

/// The JSON escape of one character: `"` `\` and the control characters
/// escaped, `\n` `\r` `\t` by name and the others as `\u00XX`.
pub open spec fn escape_char(c: char) -> Seq<char> {
    if c == '"' {
        seq!['\\', '"']
    } else if c == '\\' {
        seq!['\\', '\\']
    } else if c == '\n' {
        seq!['\\', 'n']
    } else if c == '\r' {
        seq!['\\', 'r']
    } else if c == '\t' {
        seq!['\\', 't']
    } else if (c as u32) < 0x20 {
        seq!['\\', 'u', '0', '0', hex_digit(((c as u32) / 16) as int), hex_digit(((c as u32) % 16) as int)]
    } else {
        seq![c]
    }
}

pub open spec fn escape_all(s: Seq<char>) -> Seq<char>
    decreases s.len(),
{
    if s.len() == 0 {
        Seq::empty()
    } else {
        escape_all(s.drop_last()) + escape_char(s.last())
    }
}

/// `s` as a JSON string literal.
pub open spec fn json_string(s: Seq<char>) -> Seq<char> {
    seq!['"'] + escape_all(s) + seq!['"']
}

/// The elements of a JSON array of strings, comma-separated.
pub open spec fn json_items(ss: Seq<Seq<char>>) -> Seq<char>
    decreases ss.len(),
{
    if ss.len() == 0 {
        Seq::empty()
    } else if ss.len() == 1 {
        json_string(ss[0])
    } else {
        json_items(ss.drop_last()) + seq![','] + json_string(ss.last())
    }
}

pub open spec fn bool_text(b: bool) -> Seq<char> {
    if b {
        "true"@
    } else {
        "false"@
    }
}

pub open spec fn opt_int_json(o: Option<int>) -> Seq<char> {
    match o {
        Some(v) => int_text(v),
        None => "null"@,
    }
}

pub open spec fn opt_i64_json(o: Option<i64>) -> Seq<char> {
    match o {
        Some(v) => int_text(v as int),
        None => "null"@,
    }
}

/// The JSON object of an analysis and the outcome of a conditional request,
/// its keys in a fixed order; absent values are `null`.
pub open spec fn json_text(a: AnalysisView, not_modified: Option<bool>) -> Seq<char> {
    "{\"cacheable\":"@ + bool_text(a.cacheable) + ",\"freshness_seconds\":"@ + opt_int_json(
        a.freshness_seconds,
    ) + ",\"etag\":"@ + (match a.etag {
        Some(v) => json_string(v),
        None => "null"@,
    }) + ",\"last_modified\":"@ + opt_int_json(a.last_modified) + ",\"vary\":["@ + json_items(
        a.vary,
    ) + "]"@ + ",\"stale_while_revalidate\":"@ + opt_i64_json(a.stale_while_revalidate)
        + ",\"stale_if_error\":"@ + opt_i64_json(a.stale_if_error) + ",\"not_modified\":"@ + (
    match not_modified {
        Some(v) => bool_text(v),
        None => "null"@,
    }) + ",\"notes\":["@ + json_items(a.notes) + "]}"@
}

/// The value of an ASCII hexadecimal digit (either case).
pub open spec fn hex_value(c: char) -> Option<int> {
    let u = c as u32;
    if 48 <= u <= 57 {
        Some(u - 48)
    } else if 97 <= u <= 102 {
        Some(u - 87)
    } else if 65 <= u <= 70 {
        Some(u - 55)
    } else {
        None
    }
}

/// The value of four hexadecimal digits at the start of `t`.
pub open spec fn hex4(t: Seq<char>) -> Option<int> {
    if t.len() >= 4 && hex_value(t[0]) is Some && hex_value(t[1]) is Some && hex_value(t[2]) is Some
        && hex_value(t[3]) is Some {
        Some(
            hex_value(t[0])->0 * 4096 + hex_value(t[1])->0 * 256 + hex_value(t[2])->0 * 16
                + hex_value(t[3])->0,
        )
    } else {
        None
    }
}

/// The character of a two-character escape `\e` of JSON.
pub open spec fn short_escape(e: char) -> Option<char> {
    if e == '"' {
        Some('"')
    } else if e == '\\' {
        Some('\\')
    } else if e == '/' {
        Some('/')
    } else if e == 'b' {
        Some('\u{8}')
    } else if e == 'f' {
        Some('\u{c}')
    } else if e == 'n' {
        Some('\n')
    } else if e == 'r' {
        Some('\r')
    } else if e == 't' {
        Some('\t')
    } else {
        None
    }
}

pub open spec fn cons_read(c: char, n: int, r: Option<(Seq<char>, int)>) -> Option<(Seq<char>, int)> {
    match r {
        Some((s, m)) => Some((seq![c] + s, m + n)),
        None => None,
    }
}

/// Reads the rest of a JSON string literal (RFC 8259 section 7) from the
/// start of `t`, the opening quote already read: the decoded text and the
/// number of characters read, closing quote included. `None` where `t` does
/// not continue a string literal: an unescaped control character, a bad
/// escape, an unpaired surrogate, or no closing quote.
pub open spec fn read_string(t: Seq<char>) -> Option<(Seq<char>, int)>
    decreases t.len(),
{
    if t.len() == 0 {
        None
    } else if t[0] == '"' {
        Some((Seq::empty(), 1))
    } else if t[0] == '\\' {
        if t.len() < 2 {
            None
        } else if short_escape(t[1]) is Some {
            cons_read(short_escape(t[1])->0, 2, read_string(t.skip(2)))
        } else if t[1] == 'u' && hex4(t.skip(2)) is Some {
            let u = hex4(t.skip(2))->0;
            if 0xD800 <= u <= 0xDBFF {
                if t.len() >= 12 && t[6] == '\\' && t[7] == 'u' && hex4(t.skip(8)) is Some && 0xDC00
                    <= hex4(t.skip(8))->0 <= 0xDFFF {
                    cons_read(
                        (0x10000 + (u - 0xD800) * 0x400 + (hex4(t.skip(8))->0 - 0xDC00)) as char,
                        12,
                        read_string(t.skip(12)),
                    )
                } else {
                    None
                }
            } else if 0xDC00 <= u <= 0xDFFF {
                None
            } else {
                cons_read(u as char, 6, read_string(t.skip(6)))
            }
        } else {
            None
        }
    } else if (t[0] as u32) < 0x20 {
        None
    } else {
        cons_read(t[0], 1, read_string(t.drop_first()))
    }
}

/// The text that a whole JSON string literal `t` denotes, or `None` where
/// `t` is not exactly one string literal.
pub open spec fn decode_json_string(t: Seq<char>) -> Option<Seq<char>> {
    if t.len() > 0 && t[0] == '"' {
        match read_string(t.drop_first()) {
            Some((s, n)) => if n == t.len() - 1 {
                Some(s)
            } else {
                None
            },
            None => None,
        }
    } else {
        None
    }
}

proof fn lemma_escape_all_front(s: Seq<char>)
    requires
        s.len() > 0,
    ensures
        escape_all(s) == escape_char(s[0]) + escape_all(s.drop_first()),
    decreases s.len(),
{
    if s.len() == 1 {
        assert(s.drop_last() =~= Seq::<char>::empty());
        assert(s.drop_first() =~= Seq::<char>::empty());
        assert(escape_all(s) =~= escape_char(s[0]) + escape_all(s.drop_first()));
    } else {
        lemma_escape_all_front(s.drop_last());
        assert(s.drop_last().drop_first() =~= s.drop_first().drop_last());
        assert(s.drop_first().last() == s.last());
        assert(escape_all(s) =~= escape_char(s[0]) + escape_all(s.drop_first()));
    }
}

proof fn lemma_hex_digit(n: int)
    requires
        0 <= n < 16,
    ensures
        hex_value(hex_digit(n)) == Some(n),
{
}

proof fn lemma_read_escaped(c: char, rest: Seq<char>)
    ensures
        read_string(escape_char(c) + rest) == cons_read(c, escape_char(c).len() as int, read_string(rest)),
{
    let t = escape_char(c) + rest;
    let u = c as u32;
    if c == '"' || c == '\\' || c == '\n' || c == '\r' || c == '\t' {
        assert(t.skip(2) =~= rest);
    } else if u < 0x20 {
        lemma_hex_digit((u / 16) as int);
        lemma_hex_digit((u % 16) as int);
        assert(t[1] == 'u');
        assert(short_escape(t[1]) is None);
        assert(t.skip(2)[0] == '0' && t.skip(2)[1] == '0');
        assert(hex4(t.skip(2)) == Some(u as int));
        assert((u as int) as char == c);
        assert(t.skip(6) =~= rest);
    } else {
        assert(t.drop_first() =~= rest);
    }
}

/// Reading an escaped text followed by a quote gives the text back.
pub proof fn lemma_read_escape_all(s: Seq<char>, rest: Seq<char>)
    ensures
        read_string(escape_all(s) + seq!['"'] + rest) == Some((s, escape_all(s).len() + 1int)),
    decreases s.len(),
{
    if s.len() == 0 {
        assert(escape_all(s) + seq!['"'] + rest =~= seq!['"'] + rest);
        assert(s =~= Seq::<char>::empty());
    } else {
        lemma_escape_all_front(s);
        lemma_read_escape_all(s.drop_first(), rest);
        let e = escape_all(s.drop_first()) + seq!['"'] + rest;
        assert(escape_all(s) + seq!['"'] + rest =~= escape_char(s[0]) + e);
        lemma_read_escaped(s[0], e);
        assert(seq![s[0]] + s.drop_first() =~= s);
    }
}

/// Decoding what `json_escape` writes gives back the text it was given.
pub proof fn lemma_json_string_decodes(s: Seq<char>)
    ensures
        decode_json_string(json_string(s)) == Some(s),
{
    lemma_read_escape_all(s, Seq::empty());
    let t = json_string(s);
    assert(t.drop_first() =~= escape_all(s) + seq!['"'] + Seq::<char>::empty());
}

/// A text that `escape_all` leaves as it is: no quote, backslash or control character.
pub open spec fn plain_text(s: Seq<char>) -> bool {
    forall|i: int| 0 <= i < s.len() ==> #[trigger] s[i] != '"' && s[i] != '\\' && (s[i] as u32) >= 0x20
}

proof fn lemma_escape_plain(s: Seq<char>)
    requires
        plain_text(s),
    ensures
        escape_all(s) == s,
    decreases s.len(),
{
    if s.len() > 0 {
        assert(plain_text(s.drop_last())) by {
            assert forall|i: int| 0 <= i < s.drop_last().len() implies #[trigger] s.drop_last()[i] != '"' && s.drop_last()[i] != '\\' && (s.drop_last()[i] as u32) >= 0x20 by {
                assert(s.drop_last()[i] == s[i]);
            }
        }
        lemma_escape_plain(s.drop_last());
        let c = s.last();
        assert(c == s[s.len() - 1]);
        assert(escape_char(c) == seq![c]);
        assert(s.drop_last().push(c) =~= s);
    } else {
        assert(s =~= Seq::<char>::empty());
    }
}

proof fn lemma_json_items_front(ss: Seq<Seq<char>>)
    requires
        ss.len() >= 2,
    ensures
        json_items(ss) == json_string(ss[0]) + seq![','] + json_items(ss.drop_first()),
    decreases ss.len(),
{
    let dl = ss.drop_last();
    let df = ss.drop_first();
    assert(json_items(ss) == json_items(dl) + seq![','] + json_string(ss.last()));
    if ss.len() == 2 {
        assert(dl.len() == 1 && dl[0] == ss[0]);
        assert(df.len() == 1 && df[0] == ss[1]);
        assert(json_items(dl) == json_string(ss[0]));
        assert(json_items(df) == json_string(ss[1]));
    } else {
        lemma_json_items_front(dl);
        assert(dl.drop_first() =~= df.drop_last());
        assert(df.last() == ss.last());
        assert(dl[0] == ss[0]);
        assert(json_items(df) == json_items(df.drop_last()) + seq![','] + json_string(df.last()));
        assert(json_items(ss) =~= json_string(ss[0]) + seq![','] + json_items(df));
    }
}

pub open spec fn str_values(ss: Seq<Seq<char>>) -> Seq<Json> {
    ss.map_values(|s: Seq<char>| Json::Str(s))
}

proof fn lemma_items_render(ss: Seq<Seq<char>>)
    ensures
        json_items(ss) == render_items(str_values(ss)),
    decreases ss.len(),
{
    let vs = str_values(ss);
    if ss.len() == 0 {
        assert(vs.len() == 0);
    } else if ss.len() == 1 {
        assert(vs[0] == Json::Str(ss[0]));
        assert(render_items(vs) == render(vs[0]));
    } else {
        lemma_json_items_front(ss);
        lemma_items_render(ss.drop_first());
        assert(vs.drop_first() =~= str_values(ss.drop_first()));
        assert(vs[0] == Json::Str(ss[0]));
        assert(render_items(vs) == render(vs[0]) + seq![','] + render_items(vs.drop_first()));
    }
}

pub open spec fn int_or_null(o: Option<int>) -> Json {
    match o {
        Some(v) => Json::Int(v),
        None => Json::Null,
    }
}

pub open spec fn i64_or_null(o: Option<i64>) -> Json {
    match o {
        Some(v) => Json::Int(v as int),
        None => Json::Null,
    }
}

/// The JSON value that `to_json` writes: an object with the keys
/// `cacheable`, `freshness_seconds`, `etag`, `last_modified`, `vary`,
/// `stale_while_revalidate`, `stale_if_error`, `not_modified`, `notes` in
/// this order; absent values `null`, integers numbers, texts strings.
pub open spec fn analysis_json(a: AnalysisView, not_modified: Option<bool>) -> Json {
    Json::Object(members_list(a, not_modified))
}

#[verifier::opaque]
pub open spec fn member_text(m: (Seq<char>, Json)) -> Seq<char> {
    json_string(m.0) + seq![':'] + render(m.1)
}

proof fn lemma_members_cons(m: (Seq<char>, Json), rest: Seq<(Seq<char>, Json)>)
    ensures
        render_members(seq![m] + rest) == member_text(m) + (if rest.len() == 0 {
            Seq::<char>::empty()
        } else {
            seq![','] + render_members(rest)
        }),
{
    reveal(member_text);
    let ms = seq![m] + rest;
    assert(ms[0] == m);
    assert(ms.drop_first() =~= rest);
    if rest.len() == 0 {
        assert(member_text(m) + Seq::<char>::empty() =~= member_text(m));
    }
}

/// The literal key prefixes of `json_text`: a separator, the key as a JSON
/// string, and `:`.
proof fn lemma_key_texts()
    ensures
        "{\"cacheable\":"@ == seq!['{'] + json_string("cacheable"@) + seq![':'],
        ",\"freshness_seconds\":"@ == seq![','] + json_string("freshness_seconds"@) + seq![':'],
        ",\"etag\":"@ == seq![','] + json_string("etag"@) + seq![':'],
        ",\"last_modified\":"@ == seq![','] + json_string("last_modified"@) + seq![':'],
        ",\"vary\":["@ == seq![','] + json_string("vary"@) + seq![':'] + seq!['['],
        ",\"stale_while_revalidate\":"@ == seq![','] + json_string("stale_while_revalidate"@) + seq![':'],
        ",\"stale_if_error\":"@ == seq![','] + json_string("stale_if_error"@) + seq![':'],
        ",\"not_modified\":"@ == seq![','] + json_string("not_modified"@) + seq![':'],
        ",\"notes\":["@ == seq![','] + json_string("notes"@) + seq![':'] + seq!['['],
        "]"@ == seq![']'],
        "]}"@ == seq![']', '}'],
        "null"@ == seq!['n', 'u', 'l', 'l'],
        "true"@ == seq!['t', 'r', 'u', 'e'],
        "false"@ == seq!['f', 'a', 'l', 's', 'e'],
{
    reveal_strlit("{\"cacheable\":");
    reveal_strlit(",\"freshness_seconds\":");
    reveal_strlit(",\"etag\":");
    reveal_strlit(",\"last_modified\":");
    reveal_strlit(",\"vary\":[");
    reveal_strlit(",\"stale_while_revalidate\":");
    reveal_strlit(",\"stale_if_error\":");
    reveal_strlit(",\"not_modified\":");
    reveal_strlit(",\"notes\":[");
    reveal_strlit("]");
    reveal_strlit("]}");
    reveal_strlit("null");
    reveal_strlit("true");
    reveal_strlit("false");
    reveal_strlit("cacheable");
    reveal_strlit("freshness_seconds");
    reveal_strlit("etag");
    reveal_strlit("last_modified");
    reveal_strlit("vary");
    reveal_strlit("stale_while_revalidate");
    reveal_strlit("stale_if_error");
    reveal_strlit("not_modified");
    reveal_strlit("notes");
    lemma_escape_plain("cacheable"@);
    lemma_escape_plain("freshness_seconds"@);
    lemma_escape_plain("etag"@);
    lemma_escape_plain("last_modified"@);
    lemma_escape_plain("vary"@);
    lemma_escape_plain("stale_while_revalidate"@);
    lemma_escape_plain("stale_if_error"@);
    lemma_escape_plain("not_modified"@);
    lemma_escape_plain("notes"@);
    assert("{\"cacheable\":"@ =~= seq!['{'] + json_string("cacheable"@) + seq![':']);
    assert(",\"freshness_seconds\":"@ =~= seq![','] + json_string("freshness_seconds"@) + seq![':']);
    assert(",\"etag\":"@ =~= seq![','] + json_string("etag"@) + seq![':']);
    assert(",\"last_modified\":"@ =~= seq![','] + json_string("last_modified"@) + seq![':']);
    assert(",\"vary\":["@ =~= seq![','] + json_string("vary"@) + seq![':'] + seq!['[']);
    assert(",\"stale_while_revalidate\":"@ =~= seq![','] + json_string("stale_while_revalidate"@) + seq![':']);
    assert(",\"stale_if_error\":"@ =~= seq![','] + json_string("stale_if_error"@) + seq![':']);
    assert(",\"not_modified\":"@ =~= seq![','] + json_string("not_modified"@) + seq![':']);
    assert(",\"notes\":["@ =~= seq![','] + json_string("notes"@) + seq![':'] + seq!['[']);
    assert("]"@ =~= seq![']']);
    assert("]}"@ =~= seq![']', '}']);
    assert("null"@ =~= seq!['n', 'u', 'l', 'l']);
    assert("true"@ =~= seq!['t', 'r', 'u', 'e']);
    assert("false"@ =~= seq!['f', 'a', 'l', 's', 'e']);
}

proof fn lemma_value_texts(a: AnalysisView, not_modified: Option<bool>)
    ensures
        bool_text(a.cacheable) == render(Json::Bool(a.cacheable)),
        opt_int_json(a.freshness_seconds) == render(int_or_null(a.freshness_seconds)),
        (match a.etag {
            Some(v) => json_string(v),
            None => "null"@,
        }) == render(match a.etag {
            Some(s) => Json::Str(s),
            None => Json::Null,
        }),
        opt_int_json(a.last_modified) == render(int_or_null(a.last_modified)),
        opt_i64_json(a.stale_while_revalidate) == render(i64_or_null(a.stale_while_revalidate)),
        opt_i64_json(a.stale_if_error) == render(i64_or_null(a.stale_if_error)),
        (match not_modified {
            Some(v) => bool_text(v),
            None => "null"@,
        }) == render(match not_modified {
            Some(b) => Json::Bool(b),
            None => Json::Null,
        }),
        render(Json::Array(str_values(a.vary))) == seq!['['] + json_items(a.vary) + seq![']'],
        render(Json::Array(str_values(a.notes))) == seq!['['] + json_items(a.notes) + seq![']'],
{
    lemma_key_texts();
    lemma_items_render(a.vary);
    lemma_items_render(a.notes);
}

proof fn lemma_member_piece(l: Seq<char>, v: Seq<char>, sep: char, m: (Seq<char>, Json))
    requires
        l == seq![sep] + json_string(m.0) + seq![':'],
        v == render(m.1),
    ensures
        l + v == seq![sep] + member_text(m),
{
    reveal(member_text);
    assert(l + v =~= seq![sep] + member_text(m));
}

proof fn lemma_array_member_piece(l: Seq<char>, items: Seq<char>, c: Seq<char>, m: (Seq<char>, Json))
    requires
        l == seq![','] + json_string(m.0) + seq![':'] + seq!['['],
        render(m.1) == seq!['['] + items + seq![']'],
        c == seq![']'],
    ensures
        l + items + c == seq![','] + member_text(m),
{
    reveal(member_text);
    assert(l + items + c =~= seq![','] + member_text(m));
}

proof fn lemma_last_member_piece(l: Seq<char>, items: Seq<char>, c: Seq<char>, m: (Seq<char>, Json))
    requires
        l == seq![','] + json_string(m.0) + seq![':'] + seq!['['],
        render(m.1) == seq!['['] + items + seq![']'],
        c == seq![']', '}'],
    ensures
        l + items + c == seq![','] + member_text(m) + seq!['}'],
{
    reveal(member_text);
    assert(l + items + c =~= seq![','] + member_text(m) + seq!['}']);
}

/// The members joined by commas inside braces.
pub open spec fn braced(t: Seq<Seq<char>>) -> Seq<char>
    recommends
        t.len() == 9,
{
    seq!['{'] + (t[0] + (seq![','] + (t[1] + (seq![','] + (t[2] + (seq![','] + (t[3] + (seq![
        ',',
    ] + (t[4] + (seq![','] + (t[5] + (seq![','] + (t[6] + (seq![','] + (t[7] + (seq![','] + t[8])))))))))))))))) + seq!['}']
}

/// Sequence algebra: pieces read left to right make the braced members.
proof fn lemma_pieces_braced(p: Seq<Seq<char>>, t: Seq<Seq<char>>)
    requires
        p.len() == 9,
        t.len() == 9,
        p[0] == seq!['{'] + t[0],
        p[1] == seq![','] + t[1],
        p[2] == seq![','] + t[2],
        p[3] == seq![','] + t[3],
        p[4] == seq![','] + t[4],
        p[5] == seq![','] + t[5],
        p[6] == seq![','] + t[6],
        p[7] == seq![','] + t[7],
        p[8] == seq![','] + t[8] + seq!['}'],
    ensures
        p[0] + p[1] + p[2] + p[3] + p[4] + p[5] + p[6] + p[7] + p[8] == braced(t),
{
    assert(p[0] + p[1] + p[2] + p[3] + p[4] + p[5] + p[6] + p[7] + p[8] =~= braced(t));
}

pub open spec fn members_list(a: AnalysisView, not_modified: Option<bool>) -> Seq<(Seq<char>, Json)> {
    seq![
        ("cacheable"@, Json::Bool(a.cacheable)),
        ("freshness_seconds"@, int_or_null(a.freshness_seconds)),
        (
            "etag"@,
            match a.etag {
                Some(s) => Json::Str(s),
                None => Json::Null,
            },
        ),
        ("last_modified"@, int_or_null(a.last_modified)),
        ("vary"@, Json::Array(str_values(a.vary))),
        ("stale_while_revalidate"@, i64_or_null(a.stale_while_revalidate)),
        ("stale_if_error"@, i64_or_null(a.stale_if_error)),
        (
            "not_modified"@,
            match not_modified {
                Some(b) => Json::Bool(b),
                None => Json::Null,
            },
        ),
        ("notes"@, Json::Array(str_values(a.notes))),
    ]
}

pub open spec fn member_texts(a: AnalysisView, not_modified: Option<bool>) -> Seq<Seq<char>> {
    let ms = members_list(a, not_modified);
    seq![
        member_text(ms[0]),
        member_text(ms[1]),
        member_text(ms[2]),
        member_text(ms[3]),
        member_text(ms[4]),
        member_text(ms[5]),
        member_text(ms[6]),
        member_text(ms[7]),
        member_text(ms[8]),
    ]
}

/// The pieces of `json_text`: each key prefix with the value after it.
pub open spec fn text_pieces(a: AnalysisView, not_modified: Option<bool>) -> Seq<Seq<char>> {
    seq![
        "{\"cacheable\":"@ + bool_text(a.cacheable),
        ",\"freshness_seconds\":"@ + opt_int_json(a.freshness_seconds),
        ",\"etag\":"@ + (match a.etag {
            Some(v) => json_string(v),
            None => "null"@,
        }),
        ",\"last_modified\":"@ + opt_int_json(a.last_modified),
        ",\"vary\":["@ + json_items(a.vary) + "]"@,
        ",\"stale_while_revalidate\":"@ + opt_i64_json(a.stale_while_revalidate),
        ",\"stale_if_error\":"@ + opt_i64_json(a.stale_if_error),
        ",\"not_modified\":"@ + (match not_modified {
            Some(v) => bool_text(v),
            None => "null"@,
        }),
        ",\"notes\":["@ + json_items(a.notes) + "]}"@,
    ]
}

proof fn lemma_text_is_pieces(a: AnalysisView, not_modified: Option<bool>)
    ensures
        ({
            let p = text_pieces(a, not_modified);
            json_text(a, not_modified) == p[0] + p[1] + p[2] + p[3] + p[4] + p[5] + p[6] + p[7] + p[8]
        }),
{
    let p = text_pieces(a, not_modified);
    assert(json_text(a, not_modified) =~= p[0] + p[1] + p[2] + p[3] + p[4] + p[5] + p[6] + p[7] + p[8]);
}

#[verifier::spinoff_prover]
proof fn lemma_pieces_are_members(a: AnalysisView, not_modified: Option<bool>)
    ensures
        ({
            let p = text_pieces(a, not_modified);
            let t = member_texts(a, not_modified);
            &&& p.len() == 9
            &&& t.len() == 9
            &&& p[0] == seq!['{'] + t[0]
            &&& p[1] == seq![','] + t[1]
            &&& p[2] == seq![','] + t[2]
            &&& p[3] == seq![','] + t[3]
            &&& p[4] == seq![','] + t[4]
            &&& p[5] == seq![','] + t[5]
            &&& p[6] == seq![','] + t[6]
            &&& p[7] == seq![','] + t[7]
            &&& p[8] == seq![','] + t[8] + seq!['}']
        }),
{
    lemma_key_texts();
    lemma_value_texts(a, not_modified);
    let ms = members_list(a, not_modified);
    lemma_member_piece("{\"cacheable\":"@, bool_text(a.cacheable), '{', ms[0]);
    lemma_member_piece(",\"freshness_seconds\":"@, opt_int_json(a.freshness_seconds), ',', ms[1]);
    lemma_member_piece(",\"etag\":"@, match a.etag {
        Some(v) => json_string(v),
        None => "null"@,
    }, ',', ms[2]);
    lemma_member_piece(",\"last_modified\":"@, opt_int_json(a.last_modified), ',', ms[3]);
    lemma_array_member_piece(",\"vary\":["@, json_items(a.vary), "]"@, ms[4]);
    lemma_member_piece(",\"stale_while_revalidate\":"@, opt_i64_json(a.stale_while_revalidate), ',', ms[5]);
    lemma_member_piece(",\"stale_if_error\":"@, opt_i64_json(a.stale_if_error), ',', ms[6]);
    lemma_member_piece(",\"not_modified\":"@, match not_modified {
        Some(v) => bool_text(v),
        None => "null"@,
    }, ',', ms[7]);
    lemma_last_member_piece(",\"notes\":["@, json_items(a.notes), "]}"@, ms[8]);
}

proof fn lemma_render_is_braced(a: AnalysisView, not_modified: Option<bool>)
    ensures
        render(Json::Object(members_list(a, not_modified))) == braced(member_texts(a, not_modified)),
{
    let ms = members_list(a, not_modified);
    let s8 = seq![ms[8]];
    let s7 = seq![ms[7]] + s8;
    let s6 = seq![ms[6]] + s7;
    let s5 = seq![ms[5]] + s6;
    let s4 = seq![ms[4]] + s5;
    let s3 = seq![ms[3]] + s4;
    let s2 = seq![ms[2]] + s3;
    let s1 = seq![ms[1]] + s2;
    let s0 = seq![ms[0]] + s1;
    assert(ms =~= s0);
    lemma_members_cons(ms[8], Seq::empty());
    assert(seq![ms[8]] + Seq::<(Seq<char>, Json)>::empty() =~= s8);
    lemma_members_cons(ms[7], s8);
    lemma_members_cons(ms[6], s7);
    lemma_members_cons(ms[5], s6);
    lemma_members_cons(ms[4], s5);
    lemma_members_cons(ms[3], s4);
    lemma_members_cons(ms[2], s3);
    lemma_members_cons(ms[1], s2);
    lemma_members_cons(ms[0], s1);
}

/// The text `to_json` writes is the rendering of `analysis_json`.
proof fn lemma_json_text_renders(a: AnalysisView, not_modified: Option<bool>)
    ensures
        json_text(a, not_modified) == render(analysis_json(a, not_modified)),
{
    lemma_text_is_pieces(a, not_modified);
    lemma_pieces_are_members(a, not_modified);
    lemma_pieces_braced(text_pieces(a, not_modified), member_texts(a, not_modified));
    lemma_render_is_braced(a, not_modified);
}

/// What `to_json` writes parses as one JSON object: the keys `cacheable`,
/// `freshness_seconds`, `etag`, `last_modified`, `vary`,
/// `stale_while_revalidate`, `stale_if_error`, `not_modified`, `notes` in
/// this order, each with the matching field (`null` where absent), every
/// string decoding to exactly the text it was written from.
pub proof fn lemma_json_text_parses(a: AnalysisView, not_modified: Option<bool>)
    ensures
        parse_json(json_text(a, not_modified)) == Some(analysis_json(a, not_modified)),
{
    lemma_json_text_renders(a, not_modified);
    lemma_parse_render(analysis_json(a, not_modified));
}

/// Appends the JSON escape of `c` to `out`.
fn push_escaped(out: &mut String, c: char)
    ensures
        final(out)@ == old(out)@ + escape_char(c),
{
    let ghost start = out@;
    if c == '"' {
        push_char(out, '\\');
        push_char(out, '"');
    } else if c == '\\' {
        push_char(out, '\\');
        push_char(out, '\\');
    } else if c == '\n' {
        push_char(out, '\\');
        push_char(out, 'n');
    } else if c == '\r' {
        push_char(out, '\\');
        push_char(out, 'r');
    } else if c == '\t' {
        push_char(out, '\\');
        push_char(out, 't');
    } else if (c as u32) < 0x20 {
        let u = c as u32;
        let hi = ((u / 16) as u8 + 48) as char;
        let lo_n = (u % 16) as u8;
        let lo = if lo_n < 10 {
            (lo_n + 48) as char
        } else {
            (lo_n - 10 + 97) as char
        };
        push_char(out, '\\');
        push_char(out, 'u');
        push_char(out, '0');
        push_char(out, '0');
        push_char(out, hi);
        push_char(out, lo);
    } else {
        push_char(out, c);
    }
    proof {
        assert(out@ =~= start + escape_char(c));
    }
}

/// Appends `s` as a JSON string literal to `out`.
fn push_json_string(out: &mut String, s: &str)
    ensures
        final(out)@ == old(out)@ + json_string(s@),
{
    let ghost start = out@;
    let v = to_chars(s);
    push_char(out, '"');
    let mut i: usize = 0;
    proof {
        assert(v@.take(0) =~= Seq::<char>::empty());
    }
    while i < v.len()
        invariant
            i <= v.len(),
            v@ == s@,
            out@ == start + seq!['"'] + escape_all(v@.take(i as int)),
        decreases v.len() - i,
    {
        proof {
            assert(v@.take(i + 1).drop_last() =~= v@.take(i as int));
        }
        push_escaped(out, v[i]);
        proof {
            assert(out@ =~= start + seq!['"'] + escape_all(v@.take(i + 1)));
        }
        i += 1;
    }
    push_char(out, '"');
    proof {
        assert(v@.take(i as int) =~= s@);
        assert(out@ =~= start + json_string(s@));
    }
}

/// Escapes `s` as a JSON string literal, quotes included.
pub fn json_escape(s: &str) -> (r: String)
    ensures
        r@ == json_string(s@),
{
    let mut out = String::new();
    push_json_string(&mut out, s);
    proof {
        assert(out@ =~= json_string(s@));
    }
    out
}

pub open spec fn strings_of(v: Seq<String>) -> Seq<Seq<char>> {
    v.map_values(|s: String| s@)
}

/// Appends the items of a JSON array of the strings `v` to `out`.
fn push_json_items(out: &mut String, v: &Vec<String>)
    ensures
        final(out)@ == old(out)@ + json_items(strings_of(v@)),
{
    let ghost start = out@;
    let ghost sv = strings_of(v@);
    let mut i: usize = 0;
    proof {
        assert(sv.take(0) =~= Seq::<Seq<char>>::empty());
    }
    while i < v.len()
        invariant
            i <= v@.len(),
            sv == strings_of(v@),
            out@ == start + json_items(sv.take(i as int)),
        decreases v@.len() - i,
    {
        proof {
            assert(sv.take(i + 1).drop_last() =~= sv.take(i as int));
            assert(sv[i as int] == v@[i as int]@);
        }
        if i > 0 {
            push_char(out, ',');
        }
        push_json_string(out, v[i].as_str());
        proof {
            if i == 0 {
                assert(sv.take(1) =~= seq![sv[0]]);
            }
            assert(out@ =~= start + json_items(sv.take(i + 1)));
        }
        i += 1;
    }
    proof {
        assert(sv.take(i as int) =~= sv);
    }
}

fn push_bool(out: &mut String, b: bool)
    ensures
        final(out)@ == old(out)@ + bool_text(b),
{
    if b {
        out.append("true");
    } else {
        out.append("false");
    }
}

fn push_opt_int(out: &mut String, o: Option<i64>)
    ensures
        final(out)@ == old(out)@ + opt_i64_json(o),
{
    match o {
        Some(v) => push_int(out, v),
        None => out.append("null"),
    }
}

/// The analysis as a JSON object, with the outcome of a conditional request
/// (`null` where none was evaluated). The shape is stable.
pub fn to_json(a: &Analysis, not_modified: Option<bool>) -> (out: String)
    ensures
        out@ == json_text(a@, not_modified),
{
    let mut out = string_from("{\"cacheable\":");
    push_bool(&mut out, a.cacheable);
    out.append(",\"freshness_seconds\":");
    push_opt_int(&mut out, a.freshness_seconds);
    out.append(",\"etag\":");
    match &a.etag {
        Some(v) => push_json_string(&mut out, v.as_str()),
        None => out.append("null"),
    }
    out.append(",\"last_modified\":");
    push_opt_int(&mut out, a.last_modified);
    out.append(",\"vary\":[");
    push_json_items(&mut out, &a.vary);
    out.append("]");
    out.append(",\"stale_while_revalidate\":");
    push_opt_int(&mut out, a.stale_while_revalidate);
    out.append(",\"stale_if_error\":");
    push_opt_int(&mut out, a.stale_if_error);
    out.append(",\"not_modified\":");
    match not_modified {
        Some(v) => push_bool(&mut out, v),
        None => out.append("null"),
    }
    out.append(",\"notes\":[");
    push_json_items(&mut out, &a.notes);
    out.append("]}");
    proof {
        assert(a@.vary == strings_of(a.vary@));
        assert(a@.notes == strings_of(a.notes@));
        assert(out@ =~= json_text(a@, not_modified));
    }
    out
}

/// The texts joined with `sep` between them.
pub open spec fn join(ss: Seq<Seq<char>>, sep: Seq<char>) -> Seq<char>
    decreases ss.len(),
{
    if ss.len() == 0 {
        Seq::empty()
    } else if ss.len() == 1 {
        ss[0]
    } else {
        join(ss.drop_last(), sep) + sep + ss.last()
    }
}

pub open spec fn freshness_line(f: Option<int>) -> Seq<char> {
    match f {
        Some(s) => if s >= 0 {
            "fresh for: "@ + int_text(s) + "s"@
        } else {
            "stale by: "@ + int_text(-s) + "s"@
        },
        None => "freshness: unknown"@,
    }
}

pub open spec fn window_lines(label: Seq<char>, o: Option<i64>) -> Seq<Seq<char>> {
    match o {
        Some(n) => seq![label + int_text(n as int) + "s"@],
        None => Seq::empty(),
    }
}

pub open spec fn etag_lines(etag: Option<Seq<char>>) -> Seq<Seq<char>> {
    match etag {
        Some(t) => seq!["etag: "@ + t],
        None => Seq::empty(),
    }
}

pub open spec fn vary_lines(vary: Seq<Seq<char>>) -> Seq<Seq<char>> {
    if vary.len() > 0 {
        seq!["vary: "@ + join(vary, ", "@)]
    } else {
        Seq::empty()
    }
}

pub open spec fn revalidation_lines(not_modified: Option<bool>) -> Seq<Seq<char>> {
    match not_modified {
        Some(b) => seq![
            "revalidation: "@ + (if b {
                "304 Not Modified"@
            } else {
                "200 (send full response)"@
            }),
        ],
        None => Seq::empty(),
    }
}

pub open spec fn note_lines(notes: Seq<Seq<char>>) -> Seq<Seq<char>> {
    if notes.len() > 0 {
        seq!["notes:"@] + notes.map_values(|n: Seq<char>| "  - "@ + n)
    } else {
        Seq::empty()
    }
}

/// The lines of the plain-text report: cacheability, freshness, then the
/// `ETag`, `Vary`, stale windows and revalidation outcome where there are
/// any, then the notes, each on a line of its own.
pub open spec fn human_lines(a: AnalysisView, not_modified: Option<bool>) -> Seq<Seq<char>> {
    seq!["cacheable: "@ + bool_text(a.cacheable), freshness_line(a.freshness_seconds)]
        + etag_lines(a.etag) + vary_lines(a.vary) + window_lines(
        "stale-while-revalidate: "@,
        a.stale_while_revalidate,
    ) + window_lines("stale-if-error: "@, a.stale_if_error) + revalidation_lines(not_modified)
        + note_lines(a.notes)
}

pub open spec fn lines_of(v: Seq<String>) -> Seq<Seq<char>> {
    v.map_values(|s: String| s@)
}

fn push_line(lines: &mut Vec<String>, s: String)
    ensures
        lines_of(final(lines)@) == lines_of(old(lines)@).push(s@),
{
    let ghost before = lines@;
    lines.push(s);
    proof {
        assert(lines_of(lines@) =~= lines_of(before).push(s@));
    }
}

/// `v` joined with `sep` between the items.
fn join_strings(v: &Vec<String>, sep: &str) -> (out: String)
    ensures
        out@ == join(strings_of(v@), sep@),
{
    let ghost sv = strings_of(v@);
    let mut out = String::new();
    let mut i: usize = 0;
    proof {
        assert(sv.take(0) =~= Seq::<Seq<char>>::empty());
        assert(out@ =~= join(sv.take(0), sep@));
    }
    while i < v.len()
        invariant
            i <= v@.len(),
            sv == strings_of(v@),
            out@ == join(sv.take(i as int), sep@),
        decreases v@.len() - i,
    {
        proof {
            assert(sv.take(i + 1).drop_last() =~= sv.take(i as int));
            assert(sv[i as int] == v@[i as int]@);
        }
        if i > 0 {
            out.append(sep);
        }
        out.append(v[i].as_str());
        proof {
            if i == 0 {
                assert(sv.take(1) =~= seq![sv[0]]);
                assert(out@ =~= sv[0]);
            }
            assert(out@ =~= join(sv.take(i + 1), sep@));
        }
        i += 1;
    }
    proof {
        assert(sv.take(i as int) =~= sv);
    }
    out
}

fn push_window_line(lines: &mut Vec<String>, label: &str, o: Option<i64>)
    ensures
        lines_of(final(lines)@) == lines_of(old(lines)@) + window_lines(label@, o),
{
    let ghost start = lines_of(lines@);
    if let Some(n) = o {
        let mut l = string_from(label);
        push_int(&mut l, n);
        l.append("s");
        push_line(lines, l);
    }
    proof {
        assert(lines_of(lines@) =~= start + window_lines(label@, o));
    }
}

fn push_head_lines(lines: &mut Vec<String>, a: &Analysis)
    requires
        a.freshness_seconds != Some(i64::MIN),
    ensures
        lines_of(final(lines)@) == lines_of(old(lines)@) + seq![
            "cacheable: "@ + bool_text(a@.cacheable),
            freshness_line(a@.freshness_seconds),
        ],
{
    let ghost start = lines_of(lines@);
    let mut l1 = string_from("cacheable: ");
    push_bool(&mut l1, a.cacheable);
    push_line(lines, l1);
    let l2 = match a.freshness_seconds {
        Some(s) => if s >= 0 {
            let mut l = string_from("fresh for: ");
            push_int(&mut l, s);
            l.append("s");
            l
        } else {
            let mut l = string_from("stale by: ");
            push_int(&mut l, -s);
            l.append("s");
            l
        },
        None => string_from("freshness: unknown"),
    };
    push_line(lines, l2);
    proof {
        assert(lines_of(lines@) =~= start + seq![
            "cacheable: "@ + bool_text(a@.cacheable),
            freshness_line(a@.freshness_seconds),
        ]);
    }
}

fn push_middle_lines(lines: &mut Vec<String>, a: &Analysis, not_modified: Option<bool>)
    ensures
        lines_of(final(lines)@) == lines_of(old(lines)@) + etag_lines(a@.etag) + vary_lines(
            a@.vary,
        ) + window_lines("stale-while-revalidate: "@, a@.stale_while_revalidate) + window_lines(
            "stale-if-error: "@,
            a@.stale_if_error,
        ) + revalidation_lines(not_modified),
{
    let ghost n1 = lines_of(lines@);
    if let Some(etag) = &a.etag {
        let mut l = string_from("etag: ");
        l.append(etag.as_str());
        push_line(lines, l);
    }
    proof {
        assert(lines_of(lines@) =~= n1 + etag_lines(a@.etag));
    }
    let ghost n2 = lines_of(lines@);
    if a.vary.len() > 0 {
        let mut l = string_from("vary: ");
        let j = join_strings(&a.vary, ", ");
        l.append(j.as_str());
        push_line(lines, l);
    }
    proof {
        assert(a@.vary == strings_of(a.vary@));
        assert(lines_of(lines@) =~= n2 + vary_lines(a@.vary));
    }
    push_window_line(lines, "stale-while-revalidate: ", a.stale_while_revalidate);
    push_window_line(lines, "stale-if-error: ", a.stale_if_error);
    let ghost n3 = lines_of(lines@);
    if let Some(b) = not_modified {
        let mut l = string_from("revalidation: ");
        if b {
            l.append("304 Not Modified");
        } else {
            l.append("200 (send full response)");
        }
        push_line(lines, l);
    }
    proof {
        assert(lines_of(lines@) =~= n3 + revalidation_lines(not_modified));
    }
}

fn push_note_lines(lines: &mut Vec<String>, a: &Analysis)
    ensures
        lines_of(final(lines)@) == lines_of(old(lines)@) + note_lines(a@.notes),
{
    let ghost n7 = lines_of(lines@);
    let ghost notes = a@.notes;
    if a.notes.len() > 0 {
        push_line(lines, string_from("notes:"));
        let mut i: usize = 0;
        proof {
            assert(notes.take(0).map_values(|n: Seq<char>| "  - "@ + n) =~= Seq::<Seq<char>>::empty());
        }
        while i < a.notes.len()
            invariant
                i <= a.notes@.len(),
                notes == strings_of(a.notes@),
                lines_of(lines@) == n7 + seq!["notes:"@] + notes.take(i as int).map_values(
                    |n: Seq<char>| "  - "@ + n,
                ),
            decreases a.notes@.len() - i,
        {
            let mut l = string_from("  - ");
            l.append(a.notes[i].as_str());
            push_line(lines, l);
            proof {
                assert(notes.take(i + 1).map_values(|n: Seq<char>| "  - "@ + n) =~= notes.take(
                    i as int,
                ).map_values(|n: Seq<char>| "  - "@ + n).push("  - "@ + notes[i as int]));
            }
            i += 1;
        }
        proof {
            assert(notes.take(i as int) =~= notes);
        }
    }
    proof {
        assert(lines_of(lines@) =~= n7 + note_lines(notes));
    }
}

/// The lines of the plain-text report of an analysis and the outcome of a
/// conditional request (`None` where none was evaluated).
///
/// Reporting a staleness of `i64::MIN` seconds would overflow its negation,
/// so such an analysis is excluded.
pub fn human_report(a: &Analysis, not_modified: Option<bool>) -> (lines: Vec<String>)
    requires
        a.freshness_seconds != Some(i64::MIN),
    ensures
        lines_of(lines@) == human_lines(a@, not_modified),
{
    let mut lines: Vec<String> = Vec::new();
    proof {
        assert(lines_of(lines@) =~= Seq::<Seq<char>>::empty());
    }
    push_head_lines(&mut lines, a);
    push_middle_lines(&mut lines, a, not_modified);
    push_note_lines(&mut lines, a);
    proof {
        assert(lines_of(lines@) =~= human_lines(a@, not_modified));
    }
    lines
}

} // verus!
