//! Decimal integers: `str::parse` for `i64` and `u32`, and the decimal
//! text of an `i64` as `format!("{}", n)` writes it.
use vstd::prelude::*;
use crate::text::{push_char, lower, lower_char, lemma_lower_char, lemma_lower_subrange};

verus! {

pub open spec fn is_digit(c: char) -> bool {
    48 <= (c as u32) <= 57
}

pub open spec fn digit_value(c: char) -> int {
    (c as u32) - 48
}

pub open spec fn all_digits(s: Seq<char>) -> bool {
    forall|i: int| 0 <= i < s.len() ==> is_digit(#[trigger] s[i])
}

/// The number that a string of decimal digits denotes.
pub open spec fn digits_value(s: Seq<char>) -> int
    decreases s.len(),
{
    if s.len() == 0 {
        0
    } else {
        digits_value(s.drop_last()) * 10 + digit_value(s.last())
    }
}

/// What `str::parse` accepts for an integer type, before the range check:
/// an optional `+` (or, for a signed type, `-`) and one or more ASCII digits.
pub open spec fn parse_int(s: Seq<char>, signed: bool) -> Option<int> {
    if s.len() == 0 {
        None
    } else {
        let neg = signed && s[0] == '-';
        let body = if s[0] == '+' || neg {
            s.drop_first()
        } else {
            s
        };
        if body.len() == 0 || !all_digits(body) {
            None
        } else if neg {
            Some(-digits_value(body))
        } else {
            Some(digits_value(body))
        }
    }
}

/// `s.parse::<i64>().ok()`.
pub open spec fn parse_i64(s: Seq<char>) -> Option<i64> {
    match parse_int(s, true) {
        Some(v) => if i64::MIN <= v <= i64::MAX {
            Some(v as i64)
        } else {
            None
        },
        None => None,
    }
}

/// `s.parse::<u32>().ok()`.
pub open spec fn parse_u32(s: Seq<char>) -> Option<u32> {
    match parse_int(s, false) {
        Some(v) => if 0 <= v <= u32::MAX {
            Some(v as u32)
        } else {
            None
        },
        None => None,
    }
}

pub proof fn lemma_digits_value_nonneg(s: Seq<char>)
    requires
        all_digits(s),
    ensures
        digits_value(s) >= 0,
    decreases s.len(),
{
    if s.len() > 0 {
        assert(all_digits(s.drop_last()));
        lemma_digits_value_nonneg(s.drop_last());
        assert(is_digit(s[s.len() - 1]));
    }
}

/// A prefix of a digit string denotes no more than the whole.
pub proof fn lemma_digits_value_prefix(s: Seq<char>, j: int)
    requires
        all_digits(s),
        0 <= j <= s.len(),
    ensures
        digits_value(s.take(j)) <= digits_value(s),
    decreases s.len(),
{
    if j < s.len() {
        assert(all_digits(s.drop_last()));
        lemma_digits_value_prefix(s.drop_last(), j);
        assert(s.drop_last().take(j) =~= s.take(j));
        lemma_digits_value_nonneg(s.drop_last());
        assert(is_digit(s[s.len() - 1]));
    } else {
        assert(s.take(j) =~= s);
    }
}

/// ASCII case does not change what `parse_int` reads.
pub proof fn lemma_parse_int_lower(s: Seq<char>, signed: bool)
    ensures
        parse_int(lower(s), signed) == parse_int(s, signed),
{
    if s.len() > 0 {
        let l = lower(s);
        lemma_lower_char(s[0]);
        assert(l[0] == lower_char(s[0]));
        let neg = signed && s[0] == '-';
        let body = if s[0] == '+' || neg {
            s.drop_first()
        } else {
            s
        };
        let lbody = if l[0] == '+' || (signed && l[0] == '-') {
            l.drop_first()
        } else {
            l
        };
        lemma_lower_subrange(s, 1, s.len() as int);
        assert(s.subrange(0, s.len() as int) =~= s);
        lemma_lower_subrange(s, 0, s.len() as int);
        assert(lbody == lower(body));
        assert forall|i: int| 0 <= i < body.len() implies is_digit(#[trigger] lbody[i]) == is_digit(
            body[i],
        ) by {
            lemma_lower_char(body[i]);
        }
        if all_digits(body) {
            assert forall|i: int| 0 <= i < body.len() implies lbody[i] == body[i] by {
                lemma_lower_char(body[i]);
            }
            assert(lbody =~= body);
        } else {
            let j = choose|j: int| 0 <= j < body.len() && !is_digit(#[trigger] body[j]);
            assert(!is_digit(lbody[j]));
        }
    }
}

const MAG_CAP: u64 = 9223372036854775808u64;

/// Parses `v[lo..hi]` as `parse_int` does, giving the sign and the magnitude;
/// `None` where the text is not an integer or its magnitude exceeds 2^63.
fn parse_magnitude(v: &Vec<char>, lo: usize, hi: usize, signed: bool) -> (r: Option<(bool, u64)>)
    requires
        lo <= hi <= v.len(),
    ensures
        match r {
            Some((neg, m)) => m <= MAG_CAP && (neg ==> signed) && parse_int(v@.subrange(lo as int, hi as int), signed)
                == Some(if neg {
                -(m as int)
            } else {
                m as int
            }),
            None => match parse_int(v@.subrange(lo as int, hi as int), signed) {
                Some(x) => x > MAG_CAP || x < -MAG_CAP,
                None => true,
            },
        },
{
    let ghost s = v@.subrange(lo as int, hi as int);
    if lo == hi {
        return None;
    }
    let neg = signed && v[lo] == '-';
    let start = if v[lo] == '+' || neg {
        lo + 1
    } else {
        lo
    };
    let ghost body = v@.subrange(start as int, hi as int);
    proof {
        if start == lo + 1 {
            assert(body =~= s.drop_first());
        } else {
            assert(body =~= s);
        }
    }
    if start == hi {
        return None;
    }
    let mut m: u64 = 0;
    let mut i = start;
    proof {
        assert(v@.subrange(start as int, start as int) =~= Seq::<char>::empty());
    }
    while i < hi
        invariant
            lo <= start <= i <= hi <= v.len(),
            s == v@.subrange(lo as int, hi as int),
            s.len() > 0,
            neg == (signed && s[0] == '-'),
            body == (if s[0] == '+' || neg {
                s.drop_first()
            } else {
                s
            }),
            body.len() > 0,
            body == v@.subrange(start as int, hi as int),
            m == digits_value(v@.subrange(start as int, i as int)),
            m <= MAG_CAP,
            all_digits(v@.subrange(start as int, i as int)),
        decreases hi - i,
    {
        let c = v[i];
        let ghost pre = v@.subrange(start as int, i + 1);
        proof {
            assert(pre.drop_last() =~= v@.subrange(start as int, i as int));
        }
        let u = c as u32;
        if !(48 <= u && u <= 57) {
            proof {
                assert(body[i - start] == c);
                assert(!is_digit(body[i - start]));
            }
            return None;
        }
        let d = (u - 48) as u64;
        if m > (MAG_CAP - d) / 10 {
            proof {
                assert(all_digits(pre));
                assert(digits_value(pre) > MAG_CAP);
                if all_digits(body) {
                    assert(body.take(i + 1 - start) =~= pre);
                    lemma_digits_value_prefix(body, i + 1 - start);
                }
            }
            return None;
        }
        m = m * 10 + d;
        proof {
            assert(all_digits(pre));
        }
        i += 1;
    }
    proof {
        assert(v@.subrange(start as int, i as int) =~= body);
    }
    Some((neg, m))
}

/// `v[lo..hi].parse::<i64>().ok()`.
pub(crate) fn parse_i64_range(v: &Vec<char>, lo: usize, hi: usize) -> (r: Option<i64>)
    requires
        lo <= hi <= v.len(),
    ensures
        r == parse_i64(v@.subrange(lo as int, hi as int)),
{
    match parse_magnitude(v, lo, hi, true) {
        Some((neg, m)) => {
            if neg {
                Some((-(m as i128)) as i64)
            } else if m <= 9223372036854775807u64 {
                Some(m as i64)
            } else {
                None
            }
        },
        None => None,
    }
}

/// `v[lo..hi].parse::<u32>().ok()`.
pub(crate) fn parse_u32_range(v: &Vec<char>, lo: usize, hi: usize) -> (r: Option<u32>)
    requires
        lo <= hi <= v.len(),
    ensures
        r == parse_u32(v@.subrange(lo as int, hi as int)),
{
    match parse_magnitude(v, lo, hi, false) {
        Some((neg, m)) => {
            if m <= 4294967295u64 {
                Some(m as u32)
            } else {
                None
            }
        },
        None => None,
    }
}

pub open spec fn digit_char(d: int) -> char {
    (d + 48) as char
}

/// The decimal digits of a natural number, without leading zeros.
pub open spec fn nat_text(n: nat) -> Seq<char>
    decreases n,
{
    if n < 10 {
        seq![digit_char(n as int)]
    } else {
        nat_text((n / 10) as nat).push(digit_char((n % 10) as int))
    }
}

/// `format!("{}", n)` for an integer.
pub open spec fn int_text(n: int) -> Seq<char> {
    if n < 0 {
        seq!['-'] + nat_text((-n) as nat)
    } else {
        nat_text(n as nat)
    }
}

/// Appends the decimal text of `n` to `out`.
pub(crate) fn push_int(out: &mut String, n: i64)
    ensures
        final(out)@ == old(out)@ + int_text(n as int),
{
    let ghost start = out@;
    if n < 0 {
        push_char(out, '-');
    }
    let mag: u64 = if n < 0 {
        (-(n as i128)) as u64
    } else {
        n as u64
    };
    push_nat(out, mag);
    proof {
        if n < 0 {
            assert(out@ =~= start + (seq!['-'] + nat_text(mag as nat)));
        } else {
            assert(out@ =~= start + nat_text(mag as nat));
        }
    }
}

/// Appends the decimal text of `n` to `out`.
pub(crate) fn push_nat(out: &mut String, mag: u64)
    ensures
        final(out)@ == old(out)@ + nat_text(mag as nat),
{
    // digits, least significant first
    let mut ds: Vec<char> = Vec::new();
    let mut q = mag;
    proof {
        assert(nat_text(mag as nat) =~= nat_text(q as nat) + ds@.reverse());
    }
    while q >= 10
        invariant
            nat_text(mag as nat) == nat_text(q as nat) + ds@.reverse(),
        decreases q,
    {
        let c = (((q % 10) as u8) + 48) as char;
        proof {
            assert(c == digit_char((q % 10) as int));
            assert(nat_text(q as nat) == nat_text((q / 10) as nat).push(c));
        }
        ds.push(c);
        proof {
            assert(ds@.reverse() =~= seq![c] + ds@.drop_last().reverse());
            assert(nat_text(mag as nat) =~= nat_text((q / 10) as nat) + ds@.reverse());
        }
        q = q / 10;
    }
    let c = ((q as u8) + 48) as char;
    proof {
        assert(nat_text(q as nat) == seq![c]);
    }
    ds.push(c);
    proof {
        assert(ds@.reverse() =~= seq![c] + ds@.drop_last().reverse());
        assert(nat_text(mag as nat) =~= ds@.reverse());
    }
    let ghost before = out@;
    let mut i = ds.len();
    while i > 0
        invariant
            i <= ds.len(),
            out@ == before + ds@.reverse().take(ds.len() - i),
        decreases i,
    {
        i -= 1;
        push_char(out, ds[i]);
        proof {
            assert(ds@.reverse().take(ds.len() - i) =~= ds@.reverse().take(ds.len() - i - 1).push(
                ds@[i as int],
            ));
        }
    }
    proof {
        assert(ds@.reverse().take(ds.len() as int) =~= ds@.reverse());
        assert(nat_text(mag as nat) == ds@.reverse());
    }
}

} // verus!
