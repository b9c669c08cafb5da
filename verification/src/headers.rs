//! Raw header text, one `Name: Value` pair per line, as `curl -sI` prints it.
use vstd::prelude::*;
use crate::text::{
    CharClass, trim, split, index_of, starts_with, to_chars, trim_range, find_char,
    split_ranges, range_starts_with, string_of, lemma_index_of, lemma_strip_within,
    lemma_strip_idempotent,
};

verus! {

/// A header as values: its name and its value.
pub type HeaderView = (Seq<char>, Seq<char>);

/// The headers of a list of `(name, value)` pairs, as values.
pub open spec fn headers_view(h: Seq<(String, String)>) -> Seq<HeaderView> {
    h.map_values(|p: (String, String)| (p.0@, p.1@))
}

/// Whether a line is a status line (`HTTP/1.1 200 OK`).
pub open spec fn is_status_line(line: Seq<char>) -> bool {
    starts_with(trim(line), "HTTP/"@)
}

/// The header that a line holds: none for a blank line, a status line or a
/// line without `:`; otherwise the trimmed text before the first `:` and
/// the trimmed text after it.
pub open spec fn header_of_line(line: Seq<char>) -> Option<HeaderView> {
    let t = trim(line);
    let i = index_of(t, ':');
    if t.len() == 0 || starts_with(t, "HTTP/"@) || i == t.len() {
        None
    } else {
        Some((trim(t.take(i)), trim(t.skip(i + 1))))
    }
}

/// The headers of the lines, in order.
pub open spec fn headers_of_lines(lines: Seq<Seq<char>>) -> Seq<HeaderView>
    decreases lines.len(),
{
    if lines.len() == 0 {
        Seq::empty()
    } else {
        let r = headers_of_lines(lines.drop_last());
        match header_of_line(lines.last()) {
            Some(h) => r.push(h),
            None => r,
        }
    }
}

/// The headers of a text: those of its lines (the pieces between `\n`s;
/// a `\r` before the `\n` is whitespace and trimmed away).
pub open spec fn parsed_headers(text: Seq<char>) -> Seq<HeaderView> {
    headers_of_lines(split(text, CharClass::Is('\n')))
}

/// The responses of the lines: each status line opens a new, empty block;
/// a header before any status line opens the first block.
pub open spec fn blocks_of_lines(lines: Seq<Seq<char>>) -> Seq<Seq<HeaderView>>
    decreases lines.len(),
{
    if lines.len() == 0 {
        Seq::empty()
    } else {
        let r = blocks_of_lines(lines.drop_last());
        if is_status_line(lines.last()) {
            r.push(Seq::empty())
        } else {
            match header_of_line(lines.last()) {
                Some(h) => if r.len() == 0 {
                    seq![seq![h]]
                } else {
                    r.update(r.len() - 1, r.last().push(h))
                },
                None => r,
            }
        }
    }
}

/// The responses of a text, one block of headers per response.
pub open spec fn parsed_blocks(text: Seq<char>) -> Seq<Seq<HeaderView>> {
    blocks_of_lines(split(text, CharClass::Is('\n')))
}

/// The blocks one after the other.
pub open spec fn concat_blocks(bs: Seq<Seq<HeaderView>>) -> Seq<HeaderView>
    decreases bs.len(),
{
    if bs.len() == 0 {
        Seq::empty()
    } else {
        concat_blocks(bs.drop_last()) + bs.last()
    }
}

/// The header of the line `v[lo..hi]`, if it holds one.
fn header_line(v: &Vec<char>, lo: usize, hi: usize) -> (r: Option<(String, String)>)
    requires
        lo <= hi <= v.len(),
    ensures
        match r {
            Some(p) => header_of_line(v@.subrange(lo as int, hi as int)) == Some((p.0@, p.1@)),
            None => header_of_line(v@.subrange(lo as int, hi as int)) is None,
        },
{
    let (t0, t1) = trim_range(v, lo, hi);
    let ghost t = v@.subrange(t0 as int, t1 as int);
    if t0 == t1 || range_starts_with(v, t0, t1, "HTTP/") {
        return None;
    }
    let c = find_char(v, t0, t1, ':');
    if c == t1 {
        return None;
    }
    proof {
        assert(v@.subrange(t0 as int, c as int) =~= t.take(c - t0));
        assert(v@.subrange(c + 1, t1 as int) =~= t.skip(c - t0 + 1));
    }
    let (n0, n1) = trim_range(v, t0, c);
    let (x0, x1) = trim_range(v, c + 1, t1);
    Some((string_of(v, n0, n1), string_of(v, x0, x1)))
}

/// Whether the line `v[lo..hi]` is a status line.
fn status_line(v: &Vec<char>, lo: usize, hi: usize) -> (b: bool)
    requires
        lo <= hi <= v.len(),
    ensures
        b == is_status_line(v@.subrange(lo as int, hi as int)),
{
    let (t0, t1) = trim_range(v, lo, hi);
    range_starts_with(v, t0, t1, "HTTP/")
}

/// Turns raw header text (one `Name: Value` pair per line, as produced by
/// `curl -sI`) into a list of (name, value) pairs. Status lines and blank
/// lines are skipped; header names keep their original case.
pub fn parse_headers(text: &str) -> (out: Vec<(String, String)>)
    ensures
        headers_view(out@) == parsed_headers(text@),
{
    let v = to_chars(text);
    proof {
        assert(v@.subrange(0, v.len() as int) =~= text@);
    }
    let lines = split_ranges(&v, 0, v.len(), CharClass::Is('\n'));
    let ghost ls = split(text@, CharClass::Is('\n'));
    let mut out: Vec<(String, String)> = Vec::new();
    let mut k: usize = 0;
    proof {
        assert(ls.take(0) =~= Seq::<Seq<char>>::empty());
        assert(headers_view(out@) =~= Seq::<HeaderView>::empty());
    }
    while k < lines.len()
        invariant
            k <= lines.len() == ls.len(),
            forall|n: int|
                0 <= n < lines.len() ==> (#[trigger] lines[n]).0 <= lines[n].1 <= v.len()
                    && v@.subrange(lines[n].0 as int, lines[n].1 as int) == ls[n],
            headers_view(out@) == headers_of_lines(ls.take(k as int)),
        decreases lines.len() - k,
    {
        proof {
            assert(ls.take(k + 1).drop_last() =~= ls.take(k as int));
        }
        let (lo, hi) = lines[k];
        match header_line(&v, lo, hi) {
            Some(p) => {
                let ghost before = out@;
                out.push(p);
                proof {
                    assert(headers_view(out@) =~= headers_view(before).push((p.0@, p.1@)));
                }
            },
            None => {},
        }
        k += 1;
    }
    proof {
        assert(ls.take(k as int) =~= ls);
    }
    out
}

/// The blocks of headers, as values.
pub open spec fn blocks_view(bs: Seq<Vec<(String, String)>>) -> Seq<Seq<HeaderView>> {
    bs.map_values(|b: Vec<(String, String)>| headers_view(b@))
}

/// Splits the output of `curl -sIL` (a redirect chain: one status line and
/// its headers per response) into one header list per response, in order.
/// Each status line starts a new response; headers before the first status
/// line form a response of their own.
pub fn parse_response_blocks(text: &str) -> (out: Vec<Vec<(String, String)>>)
    ensures
        blocks_view(out@) == parsed_blocks(text@),
        out.len() == status_count(split(text@, CharClass::Is('\n'))) + if header_before_status(
            split(text@, CharClass::Is('\n')),
        ) {
            1int
        } else {
            0int
        },
{
    proof {
        lemma_block_count(text@);
    }
    let v = to_chars(text);
    proof {
        assert(v@.subrange(0, v.len() as int) =~= text@);
    }
    let lines = split_ranges(&v, 0, v.len(), CharClass::Is('\n'));
    let ghost ls = split(text@, CharClass::Is('\n'));
    let mut out: Vec<Vec<(String, String)>> = Vec::new();
    let mut k: usize = 0;
    proof {
        assert(ls.take(0) =~= Seq::<Seq<char>>::empty());
        assert(blocks_view(out@) =~= Seq::<Seq<HeaderView>>::empty());
    }
    while k < lines.len()
        invariant
            k <= lines.len() == ls.len(),
            forall|n: int|
                0 <= n < lines.len() ==> (#[trigger] lines[n]).0 <= lines[n].1 <= v.len()
                    && v@.subrange(lines[n].0 as int, lines[n].1 as int) == ls[n],
            blocks_view(out@) == blocks_of_lines(ls.take(k as int)),
        decreases lines.len() - k,
    {
        proof {
            assert(ls.take(k + 1).drop_last() =~= ls.take(k as int));
        }
        let (lo, hi) = lines[k];
        let ghost before = out@;
        if status_line(&v, lo, hi) {
            out.push(Vec::new());
            proof {
                assert(headers_view(Seq::<(String, String)>::empty()) =~= Seq::<HeaderView>::empty());
                assert(blocks_view(out@) =~= blocks_view(before).push(Seq::empty()));
            }
        } else {
            match header_line(&v, lo, hi) {
                Some(p) => {
                    let ghost pv = (p.0@, p.1@);
                    if out.len() == 0 {
                        let mut b: Vec<(String, String)> = Vec::new();
                        b.push(p);
                        out.push(b);
                        proof {
                            assert(headers_view(b@) =~= seq![pv]);
                            assert(blocks_view(out@) =~= seq![seq![pv]]);
                        }
                    } else {
                        let mut b = out.pop().unwrap();
                        let ghost bv = b@;
                        b.push(p);
                        out.push(b);
                        proof {
                            assert(headers_view(b@) =~= headers_view(bv).push(pv));
                            assert(blocks_view(out@) =~= blocks_view(before).update(
                                before.len() - 1,
                                blocks_view(before).last().push(pv),
                            ));
                        }
                    }
                },
                None => {},
            }
        }
        k += 1;
    }
    proof {
        assert(ls.take(k as int) =~= ls);
    }
    out
}

/// Taken one after the other, the responses of a text hold exactly its
/// headers: splitting into responses loses and adds nothing.
pub proof fn lemma_blocks_hold_the_headers(text: Seq<char>)
    ensures
        concat_blocks(parsed_blocks(text)) == parsed_headers(text),
{
    lemma_blocks_of_lines(split(text, CharClass::Is('\n')));
}

proof fn lemma_blocks_of_lines(lines: Seq<Seq<char>>)
    ensures
        concat_blocks(blocks_of_lines(lines)) == headers_of_lines(lines),
    decreases lines.len(),
{
    if lines.len() > 0 {
        let r = blocks_of_lines(lines.drop_last());
        lemma_blocks_of_lines(lines.drop_last());
        let l = lines.last();
        if is_status_line(l) {
            assert(header_of_line(l) is None);
            assert(r.push(Seq::empty()).drop_last() =~= r);
            assert(concat_blocks(r.push(Seq::empty())) =~= concat_blocks(r));
        } else {
            match header_of_line(l) {
                Some(h) => {
                    if r.len() == 0 {
                        let one = seq![seq![h]];
                        assert(one.drop_last() =~= Seq::<Seq<HeaderView>>::empty());
                        assert(concat_blocks(one.drop_last()) == Seq::<HeaderView>::empty());
                        assert(one.last() == seq![h]);
                        assert(concat_blocks(one) =~= seq![h]);
                        assert(concat_blocks(r) == Seq::<HeaderView>::empty());
                        assert(headers_of_lines(lines) =~= seq![h]);
                    } else {
                        let u = r.update(r.len() - 1, r.last().push(h));
                        assert(u.drop_last() =~= r.drop_last());
                        assert(concat_blocks(u) =~= concat_blocks(r).push(h));
                    }
                },
                None => {},
            }
        }
    }
}

/// How many of the lines are status lines: their trimmed text starts with `HTTP/`.
pub open spec fn status_count(lines: Seq<Seq<char>>) -> nat
    decreases lines.len(),
{
    if lines.len() == 0 {
        0
    } else {
        status_count(lines.drop_last()) + if starts_with(trim(lines.last()), "HTTP/"@) {
            1nat
        } else {
            0nat
        }
    }
}

/// Whether a line before the first status line holds a header.
pub open spec fn header_before_status(lines: Seq<Seq<char>>) -> bool
    decreases lines.len(),
{
    lines.len() > 0 && (header_before_status(lines.drop_last()) || (status_count(lines.drop_last())
        == 0 && header_of_line(lines.last()) is Some))
}

proof fn lemma_block_count_lines(lines: Seq<Seq<char>>)
    ensures
        blocks_of_lines(lines).len() == status_count(lines) + if header_before_status(lines) {
            1int
        } else {
            0int
        },
    decreases lines.len(),
{
    if lines.len() > 0 {
        lemma_block_count_lines(lines.drop_last());
    }
}

/// Every status line opens a response of its own: a text has as many
/// responses as status lines, and one more where headers come before the
/// first status line.
pub proof fn lemma_block_count(text: Seq<char>)
    ensures
        parsed_blocks(text).len() == status_count(split(text, CharClass::Is('\n'))) + if header_before_status(
            split(text, CharClass::Is('\n')),
        ) {
            1int
        } else {
            0int
        },
{
    lemma_block_count_lines(split(text, CharClass::Is('\n')));
}

proof fn lemma_blocks_split_lines(l1: Seq<Seq<char>>, l2: Seq<Seq<char>>)
    requires
        l2.len() > 0,
        starts_with(trim(l2[0]), "HTTP/"@),
    ensures
        blocks_of_lines(l1 + l2) == blocks_of_lines(l1) + blocks_of_lines(l2),
        blocks_of_lines(l2).len() > 0,
    decreases l2.len(),
{
    let x = l1 + l2;
    assert(x.drop_last() =~= l1 + l2.drop_last());
    assert(x.last() == l2.last());
    if l2.len() == 1 {
        assert(l2.drop_last() =~= Seq::<Seq<char>>::empty());
        assert(l1 + l2.drop_last() =~= l1);
        assert(blocks_of_lines(l2.drop_last()) =~= Seq::<Seq<HeaderView>>::empty());
        assert(blocks_of_lines(l1).push(Seq::empty()) =~= blocks_of_lines(l1) + seq![Seq::<HeaderView>::empty()]);
    } else {
        lemma_blocks_split_lines(l1, l2.drop_last());
        let a = blocks_of_lines(l1);
        let b = blocks_of_lines(l2.drop_last());
        let l = l2.last();
        if is_status_line(l) {
            assert((a + b).push(Seq::empty()) =~= a + b.push(Seq::empty()));
        } else {
            match header_of_line(l) {
                Some(h) => {
                    assert((a + b).update((a + b).len() - 1, (a + b).last().push(h)) =~= a + b.update(
                        b.len() - 1,
                        b.last().push(h),
                    ));
                },
                None => {},
            }
        }
    }
}

/// A status line starts a new response: text that begins with one is
/// parsed the same whether or not other text comes before it, and its
/// responses follow those of that text.
pub proof fn lemma_status_line_starts_a_response(a: Seq<char>, b: Seq<char>)
    requires
        starts_with(trim(split(b, CharClass::Is('\n'))[0]), "HTTP/"@),
    ensures
        parsed_blocks(a + seq!['\n'] + b) == parsed_blocks(a) + parsed_blocks(b),
{
    let k = CharClass::Is('\n');
    crate::text::lemma_split_concat(a, b, k, '\n');
    crate::text::lemma_split_len(b, k);
    lemma_blocks_split_lines(split(a, k), split(b, k));
}

proof fn lemma_headers_of_lines_concat(l1: Seq<Seq<char>>, l2: Seq<Seq<char>>)
    ensures
        headers_of_lines(l1 + l2) == headers_of_lines(l1) + headers_of_lines(l2),
    decreases l2.len(),
{
    if l2.len() == 0 {
        assert(l1 + l2 =~= l1);
        assert(headers_of_lines(l1) + headers_of_lines(l2) =~= headers_of_lines(l1));
    } else {
        lemma_headers_of_lines_concat(l1, l2.drop_last());
        assert((l1 + l2).drop_last() =~= l1 + l2.drop_last());
        assert((l1 + l2).last() == l2.last());
        let h1 = headers_of_lines(l1);
        let h2 = headers_of_lines(l2.drop_last());
        match header_of_line(l2.last()) {
            Some(h) => {
                assert((h1 + h2).push(h) =~= h1 + h2.push(h));
            },
            None => {},
        }
    }
}

/// The headers of two texts joined by a line break are the headers of the
/// first followed by those of the second.
pub proof fn lemma_headers_concat(a: Seq<char>, b: Seq<char>)
    ensures
        parsed_headers(a + seq!['\n'] + b) == parsed_headers(a) + parsed_headers(b),
{
    crate::text::lemma_split_concat(a, b, CharClass::Is('\n'), '\n');
    lemma_headers_of_lines_concat(split(a, CharClass::Is('\n')), split(b, CharClass::Is('\n')));
}

/// Each parsed header is trimmed on both sides, and its name holds no `:`.
pub proof fn lemma_parsed_header_shape(text: Seq<char>, k: int)
    requires
        0 <= k < parsed_headers(text).len(),
    ensures
        trim(parsed_headers(text)[k].0) == parsed_headers(text)[k].0,
        trim(parsed_headers(text)[k].1) == parsed_headers(text)[k].1,
        !parsed_headers(text)[k].0.contains(':'),
{
    lemma_headers_shape(split(text, CharClass::Is('\n')), k);
}

proof fn lemma_headers_shape(lines: Seq<Seq<char>>, k: int)
    requires
        0 <= k < headers_of_lines(lines).len(),
    ensures
        trim(headers_of_lines(lines)[k].0) == headers_of_lines(lines)[k].0,
        trim(headers_of_lines(lines)[k].1) == headers_of_lines(lines)[k].1,
        !headers_of_lines(lines)[k].0.contains(':'),
    decreases lines.len(),
{
    let r = headers_of_lines(lines.drop_last());
    if k < r.len() {
        lemma_headers_shape(lines.drop_last(), k);
    } else {
        let t = trim(lines.last());
        let i = index_of(t, ':');
        lemma_index_of(t, ':');
        lemma_strip_idempotent(t.take(i), CharClass::Whitespace);
        lemma_strip_idempotent(t.skip(i + 1), CharClass::Whitespace);
        assert(!t.take(i).contains(':')) by {
            if t.take(i).contains(':') {
                let j = choose|j: int| 0 <= j < t.take(i).len() && t.take(i)[j] == ':';
                assert(t[j] == ':');
            }
        }
        lemma_strip_within(t.take(i), CharClass::Whitespace, ':');
    }
}

} // verus!
