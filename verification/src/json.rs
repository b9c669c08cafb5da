//! JSON values (RFC 8259): how they are written without whitespace, and a
//! reader for such text. The reader takes JSON texts without insignificant
//! whitespace whose numbers are integers; on those texts it gives the value
//! that RFC 8259 gives.
use vstd::prelude::*;
use crate::number::{digits_value, digit_char, digit_value, is_digit, int_text, nat_text, all_digits};
use crate::report::{read_string, json_string, escape_all, lemma_read_escape_all};
use crate::text::starts_with;

verus! {

/// A JSON value.
pub enum Json {
    Null,
    Bool(bool),
    Int(int),
    Str(Seq<char>),
    Array(Seq<Json>),
    Object(Seq<(Seq<char>, Json)>),
}

/// The number of ASCII digits at the start of `t`.
pub open spec fn digit_run(t: Seq<char>) -> nat
    decreases t.len(),
{
    if t.len() > 0 && is_digit(t[0]) {
        1 + digit_run(t.drop_first())
    } else {
        0
    }
}

/// Reads a JSON integer (`-`, then `0` or a digit string not starting with
/// `0`) from the start of `t`: its value and the number of characters read.
pub open spec fn read_int(t: Seq<char>) -> Option<(int, int)> {
    let neg = t.len() > 0 && t[0] == '-';
    let start: int = if neg {
        1
    } else {
        0
    };
    let body = t.skip(start);
    let n = digit_run(body);
    if n == 0 || (n > 1 && body[0] == '0') {
        None
    } else {
        let v = digits_value(body.take(n as int));
        Some((if neg {
            -v
        } else {
            v
        }, start + n))
    }
}

/// Reads one JSON value from the start of `t`: the value and the number of
/// characters read.
pub open spec fn read_value(t: Seq<char>) -> Option<(Json, int)>
    decreases t.len(), 0int,
{
    if starts_with(t, seq!['n', 'u', 'l', 'l']) {
        Some((Json::Null, 4))
    } else if starts_with(t, seq!['t', 'r', 'u', 'e']) {
        Some((Json::Bool(true), 4))
    } else if starts_with(t, seq!['f', 'a', 'l', 's', 'e']) {
        Some((Json::Bool(false), 5))
    } else if t.len() > 0 && t[0] == '"' {
        match read_string(t.drop_first()) {
            Some((s, n)) => Some((Json::Str(s), n + 1)),
            None => None,
        }
    } else if t.len() > 0 && t[0] == '[' {
        match read_array(t.drop_first()) {
            Some((vs, n)) => Some((Json::Array(vs), n + 1)),
            None => None,
        }
    } else if t.len() > 0 && t[0] == '{' {
        match read_object(t.drop_first()) {
            Some((ms, n)) => Some((Json::Object(ms), n + 1)),
            None => None,
        }
    } else {
        match read_int(t) {
            Some((v, n)) => Some((Json::Int(v), n)),
            None => None,
        }
    }
}

/// Reads the rest of an array after its `[`, up to and including its `]`.
pub open spec fn read_array(t: Seq<char>) -> Option<(Seq<Json>, int)>
    decreases t.len(), 2int,
{
    if t.len() > 0 && t[0] == ']' {
        Some((Seq::empty(), 1))
    } else {
        read_items(t)
    }
}

/// Reads `value (, value)* ]` from the start of `t`.
pub open spec fn read_items(t: Seq<char>) -> Option<(Seq<Json>, int)>
    decreases t.len(), 1int,
{
    match read_value(t) {
        Some((v, n)) => if 0 < n < t.len() {
            if t[n] == ']' {
                Some((seq![v], n + 1))
            } else if t[n] == ',' {
                match read_items(t.skip(n + 1)) {
                    Some((vs, m)) => Some((seq![v] + vs, n + 1 + m)),
                    None => None,
                }
            } else {
                None
            }
        } else {
            None
        },
        None => None,
    }
}

/// Reads the rest of an object after its `{`, up to and including its `}`.
pub open spec fn read_object(t: Seq<char>) -> Option<(Seq<(Seq<char>, Json)>, int)>
    decreases t.len(), 2int,
{
    if t.len() > 0 && t[0] == '}' {
        Some((Seq::empty(), 1))
    } else {
        read_members(t)
    }
}

/// Reads `"key":value (, "key":value)* }` from the start of `t`.
pub open spec fn read_members(t: Seq<char>) -> Option<(Seq<(Seq<char>, Json)>, int)>
    decreases t.len(), 1int,
{
    if t.len() > 0 && t[0] == '"' {
        match read_string(t.drop_first()) {
            Some((k, n)) => {
                let p = n + 1;
                if 0 < p < t.len() && t[p] == ':' {
                    match read_value(t.skip(p + 1)) {
                        Some((v, m)) => {
                            let q = p + 1 + m;
                            if 0 < m && q < t.len() {
                                if t[q] == '}' {
                                    Some((seq![(k, v)], q + 1))
                                } else if t[q] == ',' {
                                    match read_members(t.skip(q + 1)) {
                                        Some((ms, r)) => Some((seq![(k, v)] + ms, q + 1 + r)),
                                        None => None,
                                    }
                                } else {
                                    None
                                }
                            } else {
                                None
                            }
                        },
                        None => None,
                    }
                } else {
                    None
                }
            },
            None => None,
        }
    } else {
        None
    }
}

/// The value of the whole text `t`, where `t` is exactly one JSON value.
pub open spec fn parse_json(t: Seq<char>) -> Option<Json> {
    match read_value(t) {
        Some((v, n)) => if n == t.len() {
            Some(v)
        } else {
            None
        },
        None => None,
    }
}

/// A value written as JSON text without whitespace.
pub open spec fn render(v: Json) -> Seq<char>
    decreases v, 0int,
{
    match v {
        Json::Null => seq!['n', 'u', 'l', 'l'],
        Json::Bool(b) => if b {
            seq!['t', 'r', 'u', 'e']
        } else {
            seq!['f', 'a', 'l', 's', 'e']
        },
        Json::Int(i) => int_text(i),
        Json::Str(s) => json_string(s),
        Json::Array(vs) => seq!['['] + render_items(vs) + seq![']'],
        Json::Object(ms) => seq!['{'] + render_members(ms) + seq!['}'],
    }
}

/// Array elements written comma-separated.
pub open spec fn render_items(vs: Seq<Json>) -> Seq<char>
    decreases vs, 0int,
{
    if vs.len() == 0 {
        Seq::empty()
    } else if vs.len() == 1 {
        render(vs[0])
    } else {
        render(vs[0]) + seq![','] + render_items(vs.drop_first())
    }
}

/// Object members written comma-separated as `"key":value`.
pub open spec fn render_members(ms: Seq<(Seq<char>, Json)>) -> Seq<char>
    decreases ms, 0int,
{
    if ms.len() == 0 {
        Seq::empty()
    } else {
        let m = json_string(ms[0].0) + seq![':'] + render(ms[0].1);
        if ms.len() == 1 {
            m
        } else {
            m + seq![','] + render_members(ms.drop_first())
        }
    }
}

/// What may follow a value inside JSON text: nothing, `,`, `]` or `}`.
pub open spec fn delimits(rest: Seq<char>) -> bool {
    rest.len() == 0 || rest[0] == ',' || rest[0] == ']' || rest[0] == '}'
}

proof fn lemma_nat_text(m: nat)
    ensures
        nat_text(m).len() >= 1,
        all_digits(nat_text(m)),
        digits_value(nat_text(m)) == m,
        nat_text(m).len() > 1 ==> nat_text(m)[0] != '0',
        m > 0 ==> nat_text(m)[0] != '0',
    decreases m,
{
    if m < 10 {
        assert(digit_char(m as int) as u32 == m + 48);
        assert(digit_value(digit_char(m as int)) == m);
        assert(nat_text(m).drop_last() =~= Seq::<char>::empty());
        assert(digits_value(Seq::<char>::empty()) == 0);
    } else {
        let q = (m / 10) as nat;
        let d = (m % 10) as int;
        lemma_nat_text(q);
        assert(digit_char(d) as u32 == d + 48);
        assert(digit_value(digit_char(d)) == d);
        let t = nat_text(m);
        assert(t == nat_text(q).push(digit_char(d)));
        assert(t.drop_last() =~= nat_text(q));
        assert(t[0] == nat_text(q)[0]);
        assert(all_digits(t)) by {
            assert forall|i: int| 0 <= i < t.len() implies is_digit(#[trigger] t[i]) by {
                if i < t.len() - 1 {
                    assert(t[i] == nat_text(q)[i]);
                }
            }
        }
    }
}

proof fn lemma_digit_run(x: Seq<char>, rest: Seq<char>)
    requires
        all_digits(x),
        rest.len() == 0 || !is_digit(rest[0]),
    ensures
        digit_run(x + rest) == x.len(),
    decreases x.len(),
{
    if x.len() == 0 {
        assert(x + rest =~= rest);
    } else {
        assert((x + rest)[0] == x[0]);
        assert(is_digit(x[0]));
        assert((x + rest).drop_first() =~= x.drop_first() + rest);
        assert(all_digits(x.drop_first())) by {
            assert forall|i: int| 0 <= i < x.drop_first().len() implies is_digit(#[trigger] x.drop_first()[i]) by {
                assert(x.drop_first()[i] == x[i + 1]);
            }
        }
        lemma_digit_run(x.drop_first(), rest);
    }
}

proof fn lemma_read_int(i: int, rest: Seq<char>)
    requires
        delimits(rest),
    ensures
        read_int(int_text(i) + rest) == Some((i, int_text(i).len() as int)),
{
    let m: nat = if i < 0 {
        (-i) as nat
    } else {
        i as nat
    };
    lemma_nat_text(m);
    let x = nat_text(m);
    assert(rest.len() == 0 || !is_digit(rest[0]));
    lemma_digit_run(x, rest);
    let t = int_text(i) + rest;
    assert(is_digit(x[0]));
    if i < 0 {
        assert(t =~= seq!['-'] + (x + rest));
        assert(t.skip(1) =~= x + rest);
        assert((x + rest).take(x.len() as int) =~= x);
    } else {
        assert(t =~= x + rest);
        assert(t[0] == x[0]);
        assert(t.skip(0) =~= x + rest);
        assert((x + rest).take(x.len() as int) =~= x);
    }
}

pub proof fn lemma_render_nonempty(v: Json)
    ensures
        render(v).len() > 0,
{
    match v {
        Json::Int(i) => {
            if i < 0 {
                lemma_nat_text((-i) as nat);
            } else {
                lemma_nat_text(i as nat);
            }
        },
        _ => {},
    }
}

/// The first character of a rendered value tells its kind.
proof fn lemma_render_start(v: Json)
    ensures
        render(v).len() > 0,
        match v {
            Json::Str(_) => render(v)[0] == '"',
            Json::Array(_) => render(v)[0] == '[',
            Json::Object(_) => render(v)[0] == '{',
            Json::Int(_) => render(v)[0] == '-' || is_digit(render(v)[0]),
            _ => true,
        },
        render(v)[0] != ']' && render(v)[0] != '}' && render(v)[0] != ',',
{
    lemma_render_nonempty(v);
    match v {
        Json::Int(i) => {
            if i < 0 {
                lemma_nat_text((-i) as nat);
            } else {
                lemma_nat_text(i as nat);
            }
        },
        _ => {},
    }
}

/// A value written as text is read back, whatever follows that may follow a value.
pub proof fn lemma_read_render(v: Json, rest: Seq<char>)
    requires
        delimits(rest),
    ensures
        read_value(render(v) + rest) == Some((v, render(v).len() as int)),
    decreases v, 1int,
{
    match v {
        Json::Null => lemma_read_null(rest),
        Json::Bool(b) => lemma_read_bool(b, rest),
        Json::Int(i) => lemma_read_int_value(i, rest),
        Json::Str(s) => lemma_read_str_value(s, rest),
        Json::Array(vs) => {
            if vs.len() > 0 {
                lemma_read_items(vs, rest);
            }
            lemma_read_array_value(vs, rest);
        },
        Json::Object(ms) => {
            if ms.len() > 0 {
                lemma_read_members(ms, rest);
            }
            lemma_read_object_value(ms, rest);
        },
    }
}

proof fn lemma_read_null(rest: Seq<char>)
    ensures
        read_value(render(Json::Null) + rest) == Some((Json::Null, 4int)),
{
    let t = seq!['n', 'u', 'l', 'l'] + rest;
    assert(t.take(4) =~= seq!['n', 'u', 'l', 'l']);
}

proof fn lemma_read_bool(b: bool, rest: Seq<char>)
    ensures
        read_value(render(Json::Bool(b)) + rest) == Some((Json::Bool(b), render(Json::Bool(b)).len() as int)),
{
    let t = render(Json::Bool(b)) + rest;
    if b {
        assert(t.take(4) =~= seq!['t', 'r', 'u', 'e']);
    } else {
        assert(t.take(5) =~= seq!['f', 'a', 'l', 's', 'e']);
        assert(t[0] == 'f');
    }
    assert(t[0] != 'n');
    assert(!starts_with(t, seq!['n', 'u', 'l', 'l'])) by {
        if starts_with(t, seq!['n', 'u', 'l', 'l']) {
            assert(t.take(4)[0] == 'n');
        }
    }
    if !b {
        assert(!starts_with(t, seq!['t', 'r', 'u', 'e'])) by {
            if starts_with(t, seq!['t', 'r', 'u', 'e']) {
                assert(t.take(4)[0] == 't');
            }
        }
    }
}

proof fn lemma_read_int_value(i: int, rest: Seq<char>)
    requires
        delimits(rest),
    ensures
        read_value(render(Json::Int(i)) + rest) == Some((Json::Int(i), render(Json::Int(i)).len() as int)),
{
    lemma_render_start(Json::Int(i));
    let t = render(Json::Int(i)) + rest;
    assert(t[0] == render(Json::Int(i))[0]);
    lemma_read_int(i, rest);
    lemma_not_keyword(t);
}

proof fn lemma_read_str_value(s: Seq<char>, rest: Seq<char>)
    ensures
        read_value(render(Json::Str(s)) + rest) == Some((Json::Str(s), render(Json::Str(s)).len() as int)),
{
    let t = render(Json::Str(s)) + rest;
    assert(t[0] == '"');
    lemma_read_escape_all(s, rest);
    assert(t.drop_first() =~= escape_all(s) + seq!['"'] + rest);
    lemma_not_keyword(t);
}

proof fn lemma_read_array_value(vs: Seq<Json>, rest: Seq<char>)
    requires
        vs.len() > 0 ==> read_items(render_items(vs) + seq![']'] + rest) == Some((vs, render_items(vs).len() + 1int)),
    ensures
        read_value(render(Json::Array(vs)) + rest) == Some((Json::Array(vs), render(Json::Array(vs)).len() as int)),
{
    let t = render(Json::Array(vs)) + rest;
    assert(t[0] == '[');
    lemma_not_keyword(t);
    assert(t.drop_first() =~= render_items(vs) + seq![']'] + rest);
    if vs.len() == 0 {
        assert(t.drop_first()[0] == ']');
        assert(render_items(vs) == Seq::<char>::empty());
        assert(read_array(t.drop_first()) == Some((vs, 1int)));
    } else {
        lemma_render_start(vs[0]);
        let ri = render_items(vs);
        if vs.len() == 1 {
            assert(ri == render(vs[0]));
        } else {
            assert(ri == render(vs[0]) + seq![','] + render_items(vs.drop_first()));
        }
        assert(ri[0] == render(vs[0])[0]);
        assert(t.drop_first()[0] == ri[0]);
        let td = t.drop_first();
        assert(td.len() > 0 && td[0] != ']');
        assert(read_array(td) == read_items(td));
        assert(td == render_items(vs) + seq![']'] + rest);
        assert(read_items(td) == Some((vs, render_items(vs).len() + 1int)));
        assert(read_array(t.drop_first()) == Some((vs, render_items(vs).len() + 1int)));
    }
    assert(read_value(t) == Some((Json::Array(vs), render_items(vs).len() + 2int)));
}

#[verifier::spinoff_prover]
#[verifier::rlimit(60)]
proof fn lemma_read_object_value(ms: Seq<(Seq<char>, Json)>, rest: Seq<char>)
    requires
        ms.len() > 0 ==> read_members(render_members(ms) + seq!['}'] + rest) == Some((ms, render_members(ms).len() + 1int)),
    ensures
        read_value(render(Json::Object(ms)) + rest) == Some((Json::Object(ms), render(Json::Object(ms)).len() as int)),
{
    let t = render(Json::Object(ms)) + rest;
    assert(t[0] == '{');
    lemma_not_keyword(t);
    assert(t.drop_first() =~= render_members(ms) + seq!['}'] + rest);
    if ms.len() == 0 {
        assert(t.drop_first()[0] == '}');
        assert(render_members(ms) == Seq::<char>::empty());
        assert(read_object(t.drop_first()) == Some((ms, 1int)));
    } else {
        let rm = render_members(ms);
        let m = json_string(ms[0].0) + seq![':'] + render(ms[0].1);
        if ms.len() == 1 {
            assert(rm == m);
        } else {
            assert(rm == m + seq![','] + render_members(ms.drop_first()));
        }
        assert(rm[0] == '"');
        assert(t.drop_first()[0] == '"');
        let td = t.drop_first();
        assert(td.len() > 0 && td[0] != '}');
        assert(read_object(td) == read_members(td));
        assert(td == render_members(ms) + seq!['}'] + rest);
        assert(read_object(td) == Some((ms, render_members(ms).len() + 1int)));
    }
    assert(read_value(t) == Some((Json::Object(ms), render_members(ms).len() + 2int)));
}

proof fn lemma_not_keyword(t: Seq<char>)
    requires
        t.len() > 0,
        t[0] != 'n' && t[0] != 't' && t[0] != 'f',
    ensures
        !starts_with(t, seq!['n', 'u', 'l', 'l']),
        !starts_with(t, seq!['t', 'r', 'u', 'e']),
        !starts_with(t, seq!['f', 'a', 'l', 's', 'e']),
{
    if starts_with(t, seq!['n', 'u', 'l', 'l']) {
        assert(t.take(4)[0] == 'n');
    }
    if starts_with(t, seq!['t', 'r', 'u', 'e']) {
        assert(t.take(4)[0] == 't');
    }
    if starts_with(t, seq!['f', 'a', 'l', 's', 'e']) {
        assert(t.take(5)[0] == 'f');
    }
}

proof fn lemma_items_step(t: Seq<char>, v: Json, n: int)
    requires
        read_value(t) == Some((v, n)),
        0 < n < t.len(),
    ensures
        t[n] == ']' ==> read_items(t) == Some((seq![v], n + 1)),
        t[n] == ',' ==> read_items(t) == match read_items(t.skip(n + 1)) {
            Some((vs, m)) => Some((seq![v] + vs, n + 1 + m)),
            None => None,
        },
{
}

proof fn lemma_members_step(t: Seq<char>, k: Seq<char>, nk: int, v: Json, m: int)
    requires
        t.len() > 0,
        t[0] == '"',
        read_string(t.drop_first()) == Some((k, nk)),
        0 < nk + 1 < t.len(),
        t[nk + 1] == ':',
        read_value(t.skip(nk + 2)) == Some((v, m)),
        0 < m,
        nk + 2 + m < t.len(),
    ensures
        t[nk + 2 + m] == '}' ==> read_members(t) == Some((seq![(k, v)], nk + 3 + m)),
        t[nk + 2 + m] == ',' ==> read_members(t) == match read_members(t.skip(nk + 3 + m)) {
            Some((ms, r)) => Some((seq![(k, v)] + ms, nk + 3 + m + r)),
            None => None,
        },
{
}

/// Elements written comma-separated and closed by `]` are read back.
#[verifier::spinoff_prover]
#[verifier::rlimit(100)]
pub proof fn lemma_read_items(vs: Seq<Json>, rest: Seq<char>)
    requires
        vs.len() > 0,
    ensures
        read_items(render_items(vs) + seq![']'] + rest) == Some((vs, render_items(vs).len() + 1int)),
    decreases vs, 1int,
{
    let v = vs[0];
    lemma_render_nonempty(v);
    let n = render(v).len() as int;
    let t = render_items(vs) + seq![']'] + rest;
    if vs.len() == 1 {
        let x = seq![']'] + rest;
        assert(render_items(vs) == render(v));
        assert(t =~= render(v) + x);
        lemma_read_render(v, x);
        assert(t[n] == ']');
        lemma_items_step(t, v, n);
        assert(seq![v] =~= vs);
    } else {
        let tail = vs.drop_first();
        let x = seq![','] + render_items(tail) + seq![']'] + rest;
        assert(render_items(vs) == render(v) + seq![','] + render_items(tail));
        assert(t =~= render(v) + x);
        lemma_read_render(v, x);
        assert(t[n] == ',');
        assert(t.skip(n + 1) =~= render_items(tail) + seq![']'] + rest);
        lemma_read_items(tail, rest);
        lemma_items_step(t, v, n);
        assert(seq![v] + tail =~= vs);
    }
}

proof fn lemma_member_prefix(k: Seq<char>, v: Json, after: Seq<char>)
    requires
        delimits(after),
    ensures
        ({
            let t = json_string(k) + seq![':'] + render(v) + after;
            let nk = escape_all(k).len() + 1int;
            &&& t.len() > 0
            &&& t[0] == '"'
            &&& read_string(t.drop_first()) == Some((k, nk))
            &&& 0 < nk + 1 < t.len()
            &&& t[nk + 1] == ':'
            &&& read_value(t.skip(nk + 2)) == Some((v, render(v).len() as int))
            &&& 0 < render(v).len()
            &&& nk + 2 + render(v).len() < t.len() || after.len() == 0
            &&& t.len() == nk + 2 + render(v).len() + after.len()
            &&& t.skip(nk + 2 + render(v).len()) == after
        }),
    decreases v, 2int,
{
    let t = json_string(k) + seq![':'] + render(v) + after;
    let rest = seq![':'] + (render(v) + after);
    lemma_render_nonempty(v);
    assert(t =~= seq!['"'] + (escape_all(k) + seq!['"'] + rest));
    lemma_read_escape_all(k, rest);
    assert(t.drop_first() =~= escape_all(k) + seq!['"'] + rest);
    let nk = escape_all(k).len() + 1int;
    assert(t.skip(nk + 2) =~= render(v) + after);
    lemma_read_render(v, after);
    assert(t.skip(nk + 2 + render(v).len()) =~= after);
}

/// Members written comma-separated and closed by `}` are read back.
#[verifier::spinoff_prover]
#[verifier::rlimit(100)]
pub proof fn lemma_read_members(ms: Seq<(Seq<char>, Json)>, rest: Seq<char>)
    requires
        ms.len() > 0,
    ensures
        read_members(render_members(ms) + seq!['}'] + rest) == Some((ms, render_members(ms).len() + 1int)),
    decreases ms, 1int,
{
    let k = ms[0].0;
    let v = ms[0].1;
    let tail = ms.drop_first();
    let after = if ms.len() == 1 {
        seq!['}'] + rest
    } else {
        seq![','] + render_members(tail) + seq!['}'] + rest
    };
    let t = json_string(k) + seq![':'] + render(v) + after;
    if ms.len() == 1 {
        assert(render_members(ms) == json_string(k) + seq![':'] + render(v));
    } else {
        assert(render_members(ms) == json_string(k) + seq![':'] + render(v) + seq![','] + render_members(tail));
    }
    assert(render_members(ms) + seq!['}'] + rest =~= t);
    lemma_member_prefix(k, v, after);
    let nk = escape_all(k).len() + 1int;
    let m = render(v).len() as int;
    lemma_members_step(t, k, nk, v, m);
    assert(t[nk + 2 + m] == after[0]);
    if ms.len() == 1 {
        assert(seq![(k, v)] =~= ms);
    } else {
        assert(after.skip(1) =~= render_members(tail) + seq!['}'] + rest);
        assert(t.skip(nk + 3 + m) == after.skip(1));
        lemma_read_members(tail, rest);
        assert(seq![(k, v)] + tail =~= ms);
    }
}

/// A value written as text is the whole of that text's value.
pub proof fn lemma_parse_render(v: Json)
    ensures
        parse_json(render(v)) == Some(v),
{
    lemma_read_render(v, Seq::empty());
    assert(render(v) + Seq::<char>::empty() =~= render(v));
}

} // verus!
