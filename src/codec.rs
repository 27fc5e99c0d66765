use vstd::prelude::*;

use crate::error::{Error, ErrorKind};
use crate::geometry::{Edge, Vertex};

verus! {

/// The byte is an ASCII decimal digit.
pub open spec fn is_digit(c: u8) -> bool {
    48 <= c <= 57
}

/// The byte can stand in a printed integer: a digit or a minus sign.
pub open spec fn is_numeral(c: u8) -> bool {
    is_digit(c) || c == 45
}

/// Every byte of `s` is a digit.
pub open spec fn all_digits(s: Seq<u8>) -> bool {
    forall|i: int| 0 <= i < s.len() ==> is_digit(#[trigger] s[i])
}

/// The value of a string of decimal digits, most significant first.
pub open spec fn digits_value(s: Seq<u8>) -> int
    decreases s.len(),
{
    if s.len() == 0 {
        0
    } else {
        digits_value(s.drop_last()) * 10 + (s.last() - 48)
    }
}

/// What parsing an `i32` gives: an optional `-` or `+`, then one or more
/// digits, whose value is in range.
pub open spec fn parse_i32(s: Seq<u8>) -> Option<i32> {
    let signed = s.len() > 0 && (s[0] == 45 || s[0] == 43);
    let body = if signed {
        s.drop_first()
    } else {
        s
    };
    let v = if s.len() > 0 && s[0] == 45 {
        -digits_value(body)
    } else {
        digits_value(body)
    };
    if body.len() > 0 && all_digits(body) && i32::MIN <= v <= i32::MAX {
        Some(v as i32)
    } else {
        None
    }
}

/// A field's value: the integer it holds, or zero when it holds none.
pub open spec fn field_value(s: Seq<u8>) -> i32 {
    match parse_i32(s) {
        Some(v) => v,
        None => 0,
    }
}

/// The decimal digits of `n`, most significant first, without leading zeros.
pub open spec fn digits_of(n: nat) -> Seq<u8>
    decreases n,
{
    if n < 10 {
        seq![(48 + n) as u8]
    } else {
        digits_of(n / 10).push((48 + n % 10) as u8)
    }
}

/// `x` printed in decimal.
pub open spec fn show_i32(x: i32) -> Seq<u8> {
    if x < 0 {
        seq![45u8] + digits_of((-x) as nat)
    } else {
        digits_of(x as nat)
    }
}

proof fn lemma_digits_of(n: nat)
    ensures
        digits_of(n).len() >= 1,
        all_digits(digits_of(n)),
        digits_value(digits_of(n)) == n,
    decreases n,
{
    if n >= 10 {
        lemma_digits_of(n / 10);
        assert(digits_of(n).drop_last() =~= digits_of(n / 10));
        assert(digits_of(n).last() - 48 == n % 10);
        assert((n / 10) * 10 + n % 10 == n) by (nonlinear_arith);
        assert(digits_value(digits_of(n)) == digits_value(digits_of(n).drop_last()) * 10 + (
        digits_of(n).last() - 48));
    } else {
        assert(digits_of(n).drop_last() =~= Seq::<u8>::empty());
        assert(digits_of(n).last() == 48 + n);
        assert(digits_value(digits_of(n)) == digits_value(digits_of(n).drop_last()) * 10 + (
        digits_of(n).last() - 48));
    }
}

/// A value of more digits is no smaller than that of its leading digits.
proof fn lemma_digits_value_prefix(s: Seq<u8>, k: int)
    requires
        all_digits(s),
        0 <= k <= s.len(),
    ensures
        digits_value(s.subrange(0, k)) <= digits_value(s),
        0 <= digits_value(s.subrange(0, k)),
    decreases s.len(),
{
    if s.len() > 0 {
        if k == s.len() {
            assert(s.subrange(0, k) =~= s);
            assert(s.drop_last() =~= s.subrange(0, k - 1)) ;
            lemma_digits_value_prefix(s.drop_last(), k - 1);
        } else {
            assert(s.drop_last().subrange(0, k) =~= s.subrange(0, k));
            lemma_digits_value_prefix(s.drop_last(), k);
        }
    }
}

/// Printing then parsing gives the number back; the printed text is
/// made of digits and minus signs, and ends with a digit.
proof fn lemma_show_i32(x: i32)
    ensures
        parse_i32(show_i32(x)) == Some(x),
        show_i32(x).len() >= 1,
        forall|i: int| 0 <= i < show_i32(x).len() ==> is_numeral(#[trigger] show_i32(x)[i]),
        is_digit(show_i32(x).last()),
{
    let s = show_i32(x);
    if x < 0 {
        lemma_digits_of((-x) as nat);
        assert(s.drop_first() =~= digits_of((-x) as nat));
    } else {
        lemma_digits_of(x as nat);
    }
}

/// The first position at or after `i` where `sep` occurs in `s`, or -1.
pub open spec fn find_from(s: Seq<u8>, sep: Seq<u8>, i: int) -> int
    decreases s.len() - i,
{
    if i < 0 || sep.len() == 0 || i + sep.len() > s.len() {
        -1
    } else if s.subrange(i, i + sep.len()) == sep {
        i
    } else {
        find_from(s, sep, i + 1)
    }
}

/// The text before the first `sep` and the text after it, or `None` when
/// `sep` does not occur.
pub open spec fn split_once(s: Seq<u8>, sep: Seq<u8>) -> Option<(Seq<u8>, Seq<u8>)> {
    let i = find_from(s, sep, 0);
    if i < 0 {
        None
    } else {
        Some((s.subrange(0, i), s.subrange(i + sep.len(), s.len() as int)))
    }
}

/// The text before the first `sep`, or all of it.
pub open spec fn first_field(s: Seq<u8>, sep: Seq<u8>) -> Seq<u8> {
    match split_once(s, sep) {
        Some((a, _)) => a,
        None => s,
    }
}

/// A line that holds a record: three bytes or more, and not a comment
/// (a line that starts with `#`).
pub open spec fn is_record(line: Seq<u8>) -> bool {
    line.len() >= 3 && line[0] != 35
}

/// The point that a line holds, as `x<sep>y`: `None` for a comment, a
/// short line or one without a separator. A field that holds no integer
/// counts as zero.
pub open spec fn point_of_line(line: Seq<u8>, sep: Seq<u8>) -> Option<Vertex> {
    if !is_record(line) {
        None
    } else {
        match split_once(line, sep) {
            None => None,
            Some((f0, rest)) => Some(
                Vertex { x: field_value(f0), y: field_value(first_field(rest, sep)) },
            ),
        }
    }
}

/// The coordinates that a line holds, as `x0<sep>y0<sep>x1<sep>y1`:
/// `None` for a comment, a short line or one with fewer than three
/// separators. A field that holds no integer counts as zero.
pub open spec fn edge_of_line(line: Seq<u8>, sep: Seq<u8>) -> Option<(i32, i32, i32, i32)> {
    if !is_record(line) {
        None
    } else {
        match split_once(line, sep) {
            None => None,
            Some((f0, r0)) => match split_once(r0, sep) {
                None => None,
                Some((f1, r1)) => match split_once(r1, sep) {
                    None => None,
                    Some((f2, r2)) => Some(
                        (
                            field_value(f0),
                            field_value(f1),
                            field_value(f2),
                            field_value(first_field(r2, sep)),
                        ),
                    ),
                },
            },
        }
    }
}

/// The first position at or after `i` that holds a line feed, or the length.
pub open spec fn newline_from(t: Seq<u8>, i: int) -> int
    decreases t.len() - i,
{
    if i < 0 || i >= t.len() {
        t.len() as int
    } else if t[i] == 10 {
        i
    } else {
        newline_from(t, i + 1)
    }
}

/// Where `newline_from` stops: the first line feed at or after `i`.
pub proof fn lemma_newline_from(t: Seq<u8>, i: int)
    requires
        0 <= i <= t.len(),
    ensures
        i <= newline_from(t, i) <= t.len(),
        newline_from(t, i) < t.len() ==> t[newline_from(t, i)] == 10,
        forall|j: int| i <= j < newline_from(t, i) ==> #[trigger] t[j] != 10,
    decreases t.len() - i,
{
    if i < t.len() && t[i] != 10 {
        lemma_newline_from(t, i + 1);
    }
}

/// A line without the carriage return that ends it, if any.
pub open spec fn strip_cr(line: Seq<u8>) -> Seq<u8> {
    if line.len() > 0 && line.last() == 13 {
        line.drop_last()
    } else {
        line
    }
}

/// The lines of a text, as bytes: split at each line feed, a carriage
/// return before it dropped; a last line feed ends the last line and opens
/// no new one. Bytes are taken as they are, valid UTF-8 or not.
pub open spec fn text_lines(t: Seq<u8>) -> Seq<Seq<u8>>
    decreases t.len(),
{
    if t.len() == 0 {
        seq![]
    } else {
        let i = newline_from(t, 0);
        if i >= t.len() {
            seq![t]
        } else {
            proof {
                lemma_newline_from(t, 0);
            }
            seq![strip_cr(t.subrange(0, i))] + text_lines(t.subrange(i + 1, t.len() as int))
        }
    }
}

/// The points that the lines hold, in order.
pub open spec fn decoded_points(lines: Seq<Seq<u8>>, sep: Seq<u8>) -> Seq<Vertex>
    decreases lines.len(),
{
    if lines.len() == 0 {
        seq![]
    } else {
        let rest = decoded_points(lines.drop_first(), sep);
        match point_of_line(lines[0], sep) {
            Some(p) => seq![p] + rest,
            None => rest,
        }
    }
}

/// The edge records that the lines hold, in order.
pub open spec fn decoded_edges(lines: Seq<Seq<u8>>, sep: Seq<u8>) -> Seq<(i32, i32, i32, i32)>
    decreases lines.len(),
{
    if lines.len() == 0 {
        seq![]
    } else {
        let rest = decoded_edges(lines.drop_first(), sep);
        match edge_of_line(lines[0], sep) {
            Some(r) => seq![r] + rest,
            None => rest,
        }
    }
}

/// A record whose two endpoints coincide.
pub open spec fn is_degenerate(r: (i32, i32, i32, i32)) -> bool {
    r.0 == r.2 && r.1 == r.3
}

/// The line that encodes a point.
pub open spec fn point_line(p: Vertex, sep: Seq<u8>) -> Seq<u8> {
    show_i32(p.x) + sep + show_i32(p.y)
}

/// The line that encodes an edge.
pub open spec fn edge_line(e: Edge, sep: Seq<u8>) -> Seq<u8> {
    show_i32(e.u.x) + sep + show_i32(e.u.y) + sep + show_i32(e.v.x) + sep + show_i32(e.v.y)
}

/// One line per point, each ended by a line feed.
pub open spec fn encoded_points(pts: Seq<Vertex>, sep: Seq<u8>) -> Seq<u8>
    decreases pts.len(),
{
    if pts.len() == 0 {
        seq![]
    } else {
        point_line(pts[0], sep) + seq![10u8] + encoded_points(pts.drop_first(), sep)
    }
}

/// One line per edge, each ended by a line feed.
pub open spec fn encoded_edges(edges: Seq<Edge>, sep: Seq<u8>) -> Seq<u8>
    decreases edges.len(),
{
    if edges.len() == 0 {
        seq![]
    } else {
        edge_line(edges[0], sep) + seq![10u8] + encoded_edges(edges.drop_first(), sep)
    }
}

/// The coordinates of each edge, as a record.
pub open spec fn edge_records(edges: Seq<Edge>) -> Seq<(i32, i32, i32, i32)> {
    Seq::new(edges.len(), |k: int| (edges[k].u.x, edges[k].u.y, edges[k].v.x, edges[k].v.y))
}

/// A separator that cannot be confused with a number or a line end: it
/// holds some byte that is neither a digit nor a minus sign, and no line
/// feed.
pub open spec fn plain_separator(sep: Seq<u8>) -> bool {
    &&& exists|j: int| 0 <= j < sep.len() && !is_numeral(#[trigger] sep[j])
    &&& forall|i: int| 0 <= i < sep.len() ==> #[trigger] sep[i] != 10
}

/// Appends the digits of `n`.
fn push_digits(out: &mut Vec<u8>, n: u64)
    ensures
        final(out)@ == old(out)@ + digits_of(n as nat),
    decreases n,
{
    if n >= 10 {
        push_digits(out, n / 10);
    }
    out.push((48 + n % 10) as u8);
    assert(out@ =~= old(out)@ + digits_of(n as nat));
}

/// Appends `x` printed in decimal.
fn push_i32(out: &mut Vec<u8>, x: i32)
    ensures
        final(out)@ == old(out)@ + show_i32(x),
{
    if x < 0 {
        out.push(45u8);
        push_digits(out, (-(x as i64)) as u64);
        assert(out@ =~= old(out)@ + show_i32(x));
    } else {
        push_digits(out, x as u64);
    }
}

/// Parses an `i32` as `str::parse` does.
fn parse_int(s: &[u8]) -> (r: Option<i32>)
    ensures
        r == parse_i32(s@),
{
    let n = s.len();
    if n == 0 {
        return None;
    }
    let neg = s[0] == 45u8;
    let start: usize = if s[0] == 45u8 || s[0] == 43u8 {
        1
    } else {
        0
    };
    let ghost body = if start == 1 {
        s@.drop_first()
    } else {
        s@
    };
    assert(body =~= s@.subrange(start as int, n as int));
    assert(body == (if s@.len() > 0 && (s@[0] == 45 || s@[0] == 43) {
        s@.drop_first()
    } else {
        s@
    }));
    if start == n {
        return None;
    }
    let mut acc: u64 = 0;
    let mut k: usize = start;
    while k < n
        invariant
            start <= k <= n,
            n == s.len(),
            body == s@.subrange(start as int, n as int),
            body == (if s@.len() > 0 && (s@[0] == 45 || s@[0] == 43) {
                s@.drop_first()
            } else {
                s@
            }),
            all_digits(s@.subrange(start as int, k as int)),
            acc as int == digits_value(s@.subrange(start as int, k as int)),
            acc <= 0x8000_0000,
        decreases n - k,
    {
        let c = s[k];
        if c < 48u8 || c > 57u8 {
            assert(!is_digit(body[k - start]));
            assert(!all_digits(body));
            assert(parse_i32(s@) is None);
            return None;
        }
        proof {
            assert(s@.subrange(start as int, k + 1).drop_last() =~= s@.subrange(start as int, k as int));
        }
        acc = acc * 10 + (c - 48u8) as u64;
        if acc > 0x8000_0000 {
            proof {
                if all_digits(body) {
                    assert(body.subrange(0, k + 1 - start) =~= s@.subrange(start as int, k + 1));
                    lemma_digits_value_prefix(body, k + 1 - start);
                    assert(digits_value(body) > 0x8000_0000);
                }
                assert(parse_i32(s@) is None);
            }
            return None;
        }
        k += 1;
    }
    assert(s@.subrange(start as int, k as int) =~= body);
    if neg {
        if acc == 0x8000_0000 {
            Some(i32::MIN)
        } else {
            Some(-(acc as i32))
        }
    } else if acc > 0x7fff_ffff {
        None
    } else {
        Some(acc as i32)
    }
}

/// A field's value: the integer it holds, or zero.
fn parse_field(s: &[u8]) -> (r: i32)
    ensures
        r == field_value(s@),
{
    match parse_int(s) {
        Some(v) => v,
        None => 0,
    }
}

/// Whether `sep` occurs in `s` at position `i`.
fn occurs_at(s: &[u8], sep: &[u8], i: usize) -> (r: bool)
    requires
        i + sep.len() <= s.len(),
    ensures
        r == (s@.subrange(i as int, i + sep.len()) == sep@),
{
    let mut j: usize = 0;
    while j < sep.len()
        invariant
            i + sep.len() <= s.len(),
            j <= sep.len(),
            forall|jj: int| 0 <= jj < j ==> s[i + jj] == #[trigger] sep[jj],
        decreases sep.len() - j,
    {
        if s[i + j] != sep[j] {
            assert(s@.subrange(i as int, i + sep.len())[j as int] != sep@[j as int]);
            return false;
        }
        j += 1;
    }
    assert(s@.subrange(i as int, i + sep.len()) =~= sep@);
    true
}

/// The first position where `sep` occurs in `s`.
fn find_separator(s: &[u8], sep: &[u8]) -> (r: Option<usize>)
    ensures
        r is None <==> find_from(s@, sep@, 0) < 0,
        r matches Some(i) ==> i == find_from(s@, sep@, 0),
{
    if sep.len() == 0 || sep.len() > s.len() {
        return None;
    }
    let last = s.len() - sep.len();
    let mut i: usize = 0;
    while i <= last
        invariant
            last + sep.len() == s.len(),
            sep.len() > 0,
            find_from(s@, sep@, 0) == find_from(s@, sep@, i as int),
        decreases last + 1 - i,
    {
        if occurs_at(s, sep, i) {
            return Some(i);
        }
        i += 1;
    }
    None
}

/// The bytes of `s` from `lo` up to `hi`.
fn copy_range(s: &[u8], lo: usize, hi: usize) -> (r: Vec<u8>)
    requires
        lo <= hi <= s.len(),
    ensures
        r@ == s@.subrange(lo as int, hi as int),
{
    let mut r: Vec<u8> = Vec::new();
    let mut k: usize = lo;
    while k < hi
        invariant
            lo <= k <= hi <= s.len(),
            r@ == s@.subrange(lo as int, k as int),
        decreases hi - k,
    {
        r.push(s[k]);
        assert(r@ =~= s@.subrange(lo as int, k + 1));
        k += 1;
    }
    r
}

/// The text before the first `sep` and the text after it.
fn split_at_separator(s: &[u8], sep: &[u8]) -> (r: Option<(Vec<u8>, Vec<u8>)>)
    ensures
        r is None <==> split_once(s@, sep@) is None,
        r matches Some((a, b)) ==> split_once(s@, sep@) == Some((a@, b@)),
{
    match find_separator(s, sep) {
        None => None,
        Some(i) => {
            proof {
                lemma_find_from_bounds(s@, sep@, 0);
            }
            assert(i + sep.len() <= s.len());
            Some((copy_range(s, 0, i), copy_range(s, i + sep.len(), s.len())))
        },
    }
}

/// The text before the first `sep`, or all of it.
fn first_field_of(s: &[u8], sep: &[u8]) -> (r: Vec<u8>)
    ensures
        r@ == first_field(s@, sep@),
{
    match split_at_separator(s, sep) {
        None => copy_range(s, 0, s.len()),
        Some((a, _)) => a,
    }
}

/// The point that a line holds, if it holds one: see `point_of_line`.
pub fn parse_point_line(line: &[u8], sep: &[u8]) -> (r: Option<Vertex>)
    ensures
        r == point_of_line(line@, sep@),
{
    if line.len() < 3 || line[0] == 35u8 {
        return None;
    }
    match split_at_separator(line, sep) {
        None => None,
        Some((f0, rest)) => {
            let f1 = first_field_of(rest.as_slice(), sep);
            Some(Vertex::new(parse_field(f0.as_slice()), parse_field(f1.as_slice())))
        },
    }
}

/// The coordinates that a line holds, if it holds an edge: see `edge_of_line`.
pub fn parse_edge_line(line: &[u8], sep: &[u8]) -> (r: Option<(i32, i32, i32, i32)>)
    ensures
        r == edge_of_line(line@, sep@),
{
    if line.len() < 3 || line[0] == 35u8 {
        return None;
    }
    let (f0, r0) = match split_at_separator(line, sep) {
        None => {
            return None;
        },
        Some(p) => p,
    };
    let (f1, r1) = match split_at_separator(r0.as_slice(), sep) {
        None => {
            return None;
        },
        Some(p) => p,
    };
    let (f2, r2) = match split_at_separator(r1.as_slice(), sep) {
        None => {
            return None;
        },
        Some(p) => p,
    };
    let f3 = first_field_of(r2.as_slice(), sep);
    Some(
        (
            parse_field(f0.as_slice()),
            parse_field(f1.as_slice()),
            parse_field(f2.as_slice()),
            parse_field(f3.as_slice()),
        ),
    )
}

/// The line of `text` that starts at `pos`, and the position after its
/// line feed (or the end of the text).
fn next_line(text: &[u8], pos: usize) -> (r: (Vec<u8>, usize))
    requires
        pos < text.len(),
    ensures
        pos < r.1 <= text.len(),
        text_lines(text@.subrange(pos as int, text.len() as int)) == seq![r.0@] + text_lines(
            text@.subrange(r.1 as int, text.len() as int),
        ),
{
    let n = text.len();
    let ghost t = text@.subrange(pos as int, n as int);
    let mut q: usize = pos;
    while q < n && text[q] != 10u8
        invariant
            pos <= q <= n,
            n == text.len(),
            forall|j: int| pos <= j < q ==> #[trigger] text[j] != 10,
        decreases n - q,
    {
        q += 1;
    }
    proof {
        lemma_newline_from(t, 0);
        let f = newline_from(t, 0);
        if f < q - pos {
            assert(t[f] == text[pos + f]);
        }
        if f > q - pos {
            assert(t[q - pos] == text[q as int]);
        }
        assert(f == q - pos);
    }
    if q == n {
        proof {
            assert(text@.subrange(n as int, n as int) =~= Seq::<u8>::empty());
        }
        (copy_range(text, pos, n), n)
    } else {
        let mut line = copy_range(text, pos, q);
        if line.len() > 0 && line[line.len() - 1] == 13u8 {
            line.pop();
        }
        proof {
            assert(t.subrange(0, q - pos) =~= text@.subrange(pos as int, q as int));
            assert(t.subrange(q - pos + 1, t.len() as int) =~= text@.subrange(q + 1, n as int));
        }
        (line, q + 1)
    }
}

/// The points that `text` holds, one per line as `x<sep>y`, in order.
/// Comments, short lines and lines without a separator are skipped.
/// The text is read as bytes: whether a line is valid UTF-8 is not looked
/// at, so a caller that must skip such lines drops them before.
pub fn decode_points(text: &[u8], sep: &[u8]) -> (r: Vec<Vertex>)
    ensures
        r@ == decoded_points(text_lines(text@), sep@),
{
    let n = text.len();
    let mut out: Vec<Vertex> = Vec::new();
    let mut pos: usize = 0;
    proof {
        assert(text@.subrange(0, n as int) =~= text@);
    }
    while pos < n
        invariant
            pos <= n,
            n == text.len(),
            out@ + decoded_points(text_lines(text@.subrange(pos as int, n as int)), sep@)
                == decoded_points(text_lines(text@), sep@),
        decreases n - pos,
    {
        let (line, next) = next_line(text, pos);
        let ghost rest = text_lines(text@.subrange(next as int, n as int));
        let ghost before = out@;
        proof {
            assert((seq![line@] + rest).drop_first() =~= rest);
        }
        match parse_point_line(line.as_slice(), sep) {
            Some(p) => {
                out.push(p);
                proof {
                    assert(before + (seq![p] + decoded_points(rest, sep@)) =~= out@ + decoded_points(rest, sep@));
                }
            },
            None => {},
        }
        pos = next;
    }
    proof {
        assert(text@.subrange(n as int, n as int) =~= Seq::<u8>::empty());
        assert(out@ + Seq::<Vertex>::empty() =~= out@);
    }
    out
}

/// The edges that `text` holds, one per line as `x0<sep>y0<sep>x1<sep>y1`,
/// in order. Comments, short lines and lines with fewer than three
/// separators are skipped. A record whose endpoints coincide gives
/// `DegenerateEdge`. The text is read as bytes, as by `decode_points`.
pub fn decode_edges(text: &[u8], sep: &[u8]) -> (r: Result<Vec<Edge>, Error>)
    ensures
        r is Err <==> exists|k: int|
            0 <= k < decoded_edges(text_lines(text@), sep@).len() && is_degenerate(
                #[trigger] decoded_edges(text_lines(text@), sep@)[k],
            ),
        r matches Err(e) ==> e.kind == ErrorKind::DegenerateEdge,
        r matches Ok(edges) ==> edge_records(edges@) == decoded_edges(text_lines(text@), sep@)
            && forall|k: int| 0 <= k < edges.len() ==> (#[trigger] edges[k]).wf(),
{
    let n = text.len();
    let ghost all = decoded_edges(text_lines(text@), sep@);
    let mut out: Vec<Edge> = Vec::new();
    let mut pos: usize = 0;
    proof {
        assert(text@.subrange(0, n as int) =~= text@);
    }
    while pos < n
        invariant
            pos <= n,
            n == text.len(),
            all == decoded_edges(text_lines(text@), sep@),
            edge_records(out@) + decoded_edges(text_lines(text@.subrange(pos as int, n as int)), sep@)
                == all,
            forall|k: int| 0 <= k < out.len() ==> (#[trigger] out[k]).wf() && out[k].u != out[k].v,
        decreases n - pos,
    {
        let (line, next) = next_line(text, pos);
        let ghost rest = text_lines(text@.subrange(next as int, n as int));
        let ghost before = out@;
        proof {
            assert((seq![line@] + rest).drop_first() =~= rest);
        }
        match parse_edge_line(line.as_slice(), sep) {
            Some(rec) => {
                let (x0, y0, x1, y1) = rec;
                match Edge::new(x0, y0, x1, y1) {
                    Ok(e) => {
                        out.push(e);
                        proof {
                            assert(edge_records(out@) =~= edge_records(before) + seq![rec]);
                            assert(edge_records(before) + (seq![rec] + decoded_edges(rest, sep@))
                                =~= edge_records(out@) + decoded_edges(rest, sep@));
                        }
                    },
                    Err(e) => {
                        proof {
                            let k = edge_records(before).len() as int;
                            assert((edge_records(before) + (seq![rec] + decoded_edges(rest, sep@)))[k]
                                == rec);
                            assert(is_degenerate(all[k]));
                        }
                        return Err(e);
                    },
                }
            },
            None => {},
        }
        pos = next;
    }
    proof {
        assert(text@.subrange(n as int, n as int) =~= Seq::<u8>::empty());
        assert(edge_records(out@) + Seq::<(i32, i32, i32, i32)>::empty() =~= edge_records(out@));
        assert forall|k: int| 0 <= k < all.len() implies !is_degenerate(#[trigger] all[k]) by {
            assert(out[k].u != out[k].v);
            assert(all[k] == edge_records(out@)[k]);
        }
    }
    Ok(out)
}

/// One line `x<sep>y` per point, each ended by a line feed.
pub fn encode_points(points: &Vec<Vertex>, sep: &[u8]) -> (r: Vec<u8>)
    ensures
        r@ == encoded_points(points@, sep@),
{
    let n = points.len();
    let mut out: Vec<u8> = Vec::new();
    let mut k: usize = 0;
    proof {
        assert(points@.subrange(0, n as int) =~= points@);
    }
    while k < n
        invariant
            k <= n,
            n == points.len(),
            out@ + encoded_points(points@.subrange(k as int, n as int), sep@) == encoded_points(
                points@,
                sep@,
            ),
        decreases n - k,
    {
        let ghost before = out@;
        let p = points[k];
        push_i32(&mut out, p.x);
        push_bytes(&mut out, sep);
        push_i32(&mut out, p.y);
        out.push(10u8);
        proof {
            let tail = points@.subrange(k as int, n as int);
            assert(tail.drop_first() =~= points@.subrange(k + 1, n as int));
            assert(out@ =~= before + point_line(p, sep@) + seq![10u8]);
            assert(before + encoded_points(tail, sep@) =~= out@ + encoded_points(
                points@.subrange(k + 1, n as int),
                sep@,
            ));
        }
        k += 1;
    }
    proof {
        assert(out@ + Seq::<u8>::empty() =~= out@);
    }
    out
}

/// One line `x0<sep>y0<sep>x1<sep>y1` per edge, each ended by a line feed.
pub fn encode_edges(edges: &Vec<Edge>, sep: &[u8]) -> (r: Vec<u8>)
    ensures
        r@ == encoded_edges(edges@, sep@),
{
    let n = edges.len();
    let mut out: Vec<u8> = Vec::new();
    let mut k: usize = 0;
    proof {
        assert(edges@.subrange(0, n as int) =~= edges@);
    }
    while k < n
        invariant
            k <= n,
            n == edges.len(),
            out@ + encoded_edges(edges@.subrange(k as int, n as int), sep@) == encoded_edges(
                edges@,
                sep@,
            ),
        decreases n - k,
    {
        let ghost before = out@;
        let e = edges[k];
        push_edge_line(&mut out, e, sep);
        proof {
            let tail = edges@.subrange(k as int, n as int);
            assert(tail.drop_first() =~= edges@.subrange(k + 1, n as int));
            assert(before + encoded_edges(tail, sep@) =~= out@ + encoded_edges(
                edges@.subrange(k + 1, n as int),
                sep@,
            ));
        }
        k += 1;
    }
    proof {
        assert(out@ + Seq::<u8>::empty() =~= out@);
    }
    out
}

/// Appends the line that encodes `e`, with its line feed.
fn push_edge_line(out: &mut Vec<u8>, e: Edge, sep: &[u8])
    ensures
        final(out)@ == old(out)@ + edge_line(e, sep@) + seq![10u8],
{
    push_i32(out, e.u.x);
    push_bytes(out, sep);
    push_i32(out, e.u.y);
    push_bytes(out, sep);
    push_i32(out, e.v.x);
    push_bytes(out, sep);
    push_i32(out, e.v.y);
    out.push(10u8);
    assert(out@ =~= old(out)@ + edge_line(e, sep@) + seq![10u8]);
}

/// Appends the bytes of `s`.
fn push_bytes(out: &mut Vec<u8>, s: &[u8])
    ensures
        final(out)@ == old(out)@ + s@,
{
    let ghost start = out@;
    let mut k: usize = 0;
    while k < s.len()
        invariant
            k <= s.len(),
            out@ == start + s@.subrange(0, k as int),
        decreases s.len() - k,
    {
        out.push(s[k]);
        assert(out@ =~= start + s@.subrange(0, k + 1));
        k += 1;
    }
    assert(s@.subrange(0, s.len() as int) =~= s@);
}

/// Where `find_from` stops: a position at or after `i` where `sep` occurs.
proof fn lemma_find_from_bounds(s: Seq<u8>, sep: Seq<u8>, i: int)
    requires
        0 <= i,
        find_from(s, sep, i) >= 0,
    ensures
        i <= find_from(s, sep, i),
        find_from(s, sep, i) + sep.len() <= s.len(),
        s.subrange(find_from(s, sep, i), find_from(s, sep, i) + sep.len()) == sep,
    decreases s.len() - i,
{
    if !(i + sep.len() > s.len()) && s.subrange(i, i + sep.len()) != sep {
        lemma_find_from_bounds(s, sep, i + 1);
    }
}

/// A separator whose first `d` bytes are numerals and which repeats itself
/// `d` bytes later is numerals throughout.
proof fn lemma_numeral_run(sep: Seq<u8>, d: int, j: int)
    requires
        0 < d,
        0 <= j < sep.len(),
        forall|k: int| 0 <= k < d && k < sep.len() ==> is_numeral(#[trigger] sep[k]),
        forall|k: int| d <= k < sep.len() ==> #[trigger] sep[k] == sep[k - d],
    ensures
        is_numeral(sep[j]),
    decreases j,
{
    if j >= d {
        lemma_numeral_run(sep, d, j - d);
    }
}

/// `sep` does not occur at `i` where the bytes from `i` up to a later
/// occurrence at `m` are numerals: it would have to repeat them.
proof fn lemma_no_early_match(s: Seq<u8>, sep: Seq<u8>, i: int, m: int)
    requires
        plain_separator(sep),
        0 <= i < m,
        m + sep.len() <= s.len(),
        s.subrange(m, m + sep.len()) == sep,
        forall|j: int| i <= j < m ==> is_numeral(#[trigger] s[j]),
    ensures
        s.subrange(i, i + sep.len()) != sep,
{
    if s.subrange(i, i + sep.len()) == sep {
        let d = m - i;
        let w = s.subrange(i, i + sep.len());
        let t = s.subrange(m, m + sep.len());
        assert forall|k: int| 0 <= k < d && k < sep.len() implies is_numeral(#[trigger] sep[k]) by {
            assert(w[k] == s[i + k]);
        }
        assert forall|k: int| d <= k < sep.len() implies #[trigger] sep[k] == sep[k - d] by {
            assert(w[k] == s[i + k]);
            assert(t[k - d] == s[m + k - d]);
        }
        let j = choose|j: int| 0 <= j < sep.len() && !is_numeral(#[trigger] sep[j]);
        lemma_numeral_run(sep, d, j);
    }
}

/// `sep` is not found from `i` on where every byte from `i` on is a numeral.
proof fn lemma_find_none(s: Seq<u8>, sep: Seq<u8>, i: int)
    requires
        plain_separator(sep),
        0 <= i,
        forall|j: int| i <= j < s.len() ==> is_numeral(#[trigger] s[j]),
    ensures
        find_from(s, sep, i) == -1,
    decreases s.len() - i,
{
    if i + sep.len() <= s.len() {
        let j = choose|j: int| 0 <= j < sep.len() && !is_numeral(#[trigger] sep[j]);
        assert(s.subrange(i, i + sep.len())[j] == s[i + j]);
        lemma_find_none(s, sep, i + 1);
    }
}

/// `sep` is first found at `m` where it occurs there and every byte from
/// `i` up to `m` is a numeral.
proof fn lemma_find_at(s: Seq<u8>, sep: Seq<u8>, i: int, m: int)
    requires
        plain_separator(sep),
        0 <= i <= m,
        m + sep.len() <= s.len(),
        s.subrange(m, m + sep.len()) == sep,
        forall|j: int| i <= j < m ==> is_numeral(#[trigger] s[j]),
    ensures
        find_from(s, sep, i) == m,
    decreases m - i,
{
    if i < m {
        lemma_no_early_match(s, sep, i, m);
        lemma_find_at(s, sep, i + 1, m);
    }
}

/// A printed number followed by the separator splits there.
proof fn lemma_split_after_number(x: i32, sep: Seq<u8>, rest: Seq<u8>)
    requires
        plain_separator(sep),
    ensures
        split_once(show_i32(x) + sep + rest, sep) == Some((show_i32(x), rest)),
{
    let a = show_i32(x);
    let s = a + sep + rest;
    lemma_show_i32(x);
    assert(s.subrange(a.len() as int, (a.len() + sep.len()) as int) =~= sep);
    assert forall|j: int| 0 <= j < a.len() implies is_numeral(#[trigger] s[j]) by {
        assert(s[j] == a[j]);
    }
    lemma_find_at(s, sep, 0, a.len() as int);
    assert(s.subrange(0, a.len() as int) =~= a);
    assert(s.subrange((a.len() + sep.len()) as int, s.len() as int) =~= rest);
}

/// A printed number alone is one field.
proof fn lemma_field_of_number(y: i32, sep: Seq<u8>)
    requires
        plain_separator(sep),
    ensures
        first_field(show_i32(y), sep) == show_i32(y),
{
    lemma_show_i32(y);
    lemma_find_none(show_i32(y), sep, 0);
}

/// A line without line feeds, ended by one, is the first line of a text.
proof fn lemma_first_line(line: Seq<u8>, rest: Seq<u8>)
    requires
        line.len() > 0,
        line.last() != 13,
        forall|j: int| 0 <= j < line.len() ==> #[trigger] line[j] != 10,
    ensures
        text_lines(line + seq![10u8] + rest) == seq![line] + text_lines(rest),
{
    let t = line + seq![10u8] + rest;
    lemma_newline_from(t, 0);
    let f = newline_from(t, 0);
    if f < line.len() {
        assert(t[f] == line[f]);
    }
    if f > line.len() {
        assert(t[line.len() as int] == 10);
    }
    assert(t.subrange(0, line.len() as int) =~= line);
    assert(t.subrange((line.len() + 1) as int, t.len() as int) =~= rest);
}

/// The line that encodes a point holds no line feed, ends with a digit,
/// and decodes to the point.
proof fn lemma_point_line(p: Vertex, sep: Seq<u8>)
    requires
        plain_separator(sep),
    ensures
        point_of_line(point_line(p, sep), sep) == Some(p),
        point_line(p, sep).len() > 0,
        point_line(p, sep).last() != 13,
        forall|j: int| 0 <= j < point_line(p, sep).len() ==> #[trigger] point_line(p, sep)[j] != 10,
{
    let l = point_line(p, sep);
    lemma_show_i32(p.x);
    lemma_show_i32(p.y);
    lemma_split_after_number(p.x, sep, show_i32(p.y));
    lemma_field_of_number(p.y, sep);
    assert(l[0] == show_i32(p.x)[0]);
    assert(l.last() == show_i32(p.y).last());
    assert forall|j: int| 0 <= j < l.len() implies #[trigger] l[j] != 10 by {
        if j < show_i32(p.x).len() {
            assert(l[j] == show_i32(p.x)[j]);
        } else if j < show_i32(p.x).len() + sep.len() {
            assert(l[j] == sep[j - show_i32(p.x).len()]);
        } else {
            assert(l[j] == show_i32(p.y)[j - show_i32(p.x).len() - sep.len()]);
        }
    }
}

/// The line that encodes an edge holds no line feed, ends with a digit,
/// and decodes to the edge's coordinates.
proof fn lemma_edge_line(e: Edge, sep: Seq<u8>)
    requires
        plain_separator(sep),
    ensures
        edge_of_line(edge_line(e, sep), sep) == Some((e.u.x, e.u.y, e.v.x, e.v.y)),
        edge_line(e, sep).len() > 0,
        edge_line(e, sep).last() != 13,
        forall|j: int| 0 <= j < edge_line(e, sep).len() ==> #[trigger] edge_line(e, sep)[j] != 10,
{
    let a = show_i32(e.u.x);
    let b = show_i32(e.u.y);
    let c = show_i32(e.v.x);
    let d = show_i32(e.v.y);
    let r2 = d;
    let r1 = c + sep + d;
    let r0 = b + sep + r1;
    let l = edge_line(e, sep);
    assert(l =~= a + sep + r0);
    lemma_show_i32(e.u.x);
    lemma_show_i32(e.u.y);
    lemma_show_i32(e.v.x);
    lemma_show_i32(e.v.y);
    lemma_split_after_number(e.u.x, sep, r0);
    lemma_split_after_number(e.u.y, sep, r1);
    lemma_split_after_number(e.v.x, sep, r2);
    lemma_field_of_number(e.v.y, sep);
    assert(l[0] == a[0]);
    assert(l.last() == d.last());
    assert forall|j: int| 0 <= j < l.len() implies #[trigger] l[j] != 10 by {
        let p1 = a.len() as int;
        let p2 = p1 + sep.len();
        let p3 = p2 + b.len();
        let p4 = p3 + sep.len();
        let p5 = p4 + c.len();
        let p6 = p5 + sep.len();
        if j < p1 {
            assert(l[j] == a[j]);
        } else if j < p2 {
            assert(l[j] == sep[j - p1]);
        } else if j < p3 {
            assert(l[j] == b[j - p2]);
        } else if j < p4 {
            assert(l[j] == sep[j - p3]);
        } else if j < p5 {
            assert(l[j] == c[j - p4]);
        } else if j < p6 {
            assert(l[j] == sep[j - p5]);
        } else {
            assert(l[j] == d[j - p6]);
        }
    }
}

/// Encoding points as text and decoding the text gives the points back,
/// for a separator that cannot be confused with a number or a line end.
pub proof fn lemma_points_round_trip(pts: Seq<Vertex>, sep: Seq<u8>)
    requires
        plain_separator(sep),
    ensures
        decoded_points(text_lines(encoded_points(pts, sep)), sep) == pts,
    decreases pts.len(),
{
    if pts.len() > 0 {
        let rest = encoded_points(pts.drop_first(), sep);
        lemma_point_line(pts[0], sep);
        lemma_first_line(point_line(pts[0], sep), rest);
        lemma_points_round_trip(pts.drop_first(), sep);
        let ls = seq![point_line(pts[0], sep)] + text_lines(rest);
        assert(ls.drop_first() =~= text_lines(rest));
        assert(seq![pts[0]] + pts.drop_first() =~= pts);
    }
}

/// Encoding edges as text and decoding the text gives their coordinates
/// back, for a separator that cannot be confused with a number or a line end.
pub proof fn lemma_edges_round_trip(edges: Seq<Edge>, sep: Seq<u8>)
    requires
        plain_separator(sep),
    ensures
        decoded_edges(text_lines(encoded_edges(edges, sep)), sep) == edge_records(edges),
    decreases edges.len(),
{
    if edges.len() > 0 {
        let rest = encoded_edges(edges.drop_first(), sep);
        lemma_edge_line(edges[0], sep);
        lemma_first_line(edge_line(edges[0], sep), rest);
        lemma_edges_round_trip(edges.drop_first(), sep);
        let ls = seq![edge_line(edges[0], sep)] + text_lines(rest);
        assert(ls.drop_first() =~= text_lines(rest));
        assert(seq![(edges[0].u.x, edges[0].u.y, edges[0].v.x, edges[0].v.y)] + edge_records(
            edges.drop_first(),
        ) =~= edge_records(edges));
    } else {
        assert(edge_records(edges) =~= Seq::<(i32, i32, i32, i32)>::empty());
    }
}

} // verus!
