//! Lines of a source buffer and the whitespace that starts them.
//!
//! A buffer is cut at each `\n`. A line's content excludes its line ending,
//! which is either `\n` or `\r\n` (the `\r` only when it belongs to the same
//! line). The last line may have no line ending at all.
use vstd::prelude::*;

verus! {

/// The byte `\n`.
pub const LF: u8 = 10u8;

/// The byte `\r`.
pub const CR: u8 = 13u8;

/// The byte `#`.
pub const HASH: u8 = 35u8;

/// One line of a buffer, given by offsets into that buffer:
/// the content is `content_start..content_end`, the line ending
/// is `content_end..full_end`.
#[derive(Clone, Copy, Debug)]
pub struct LineInfo {
    pub content_start: usize,
    pub content_end: usize,
    pub full_end: usize,
}

/// Indentation bytes: space and tab.
pub open spec fn is_ws_byte(b: u8) -> bool {
    b == 32u8 || b == 9u8
}

/// Every byte of `s` is a space or a tab (so the empty sequence is blank).
pub open spec fn blank(s: Seq<u8>) -> bool {
    forall|i: int| 0 <= i < s.len() ==> #[trigger] is_ws_byte(s[i])
}

/// The end of the run of spaces and tabs that starts at `i`.
pub open spec fn ws_end(s: Seq<u8>, i: int) -> int
    decreases s.len() - i,
{
    if 0 <= i < s.len() && is_ws_byte(s[i]) {
        ws_end(s, i + 1)
    } else {
        i
    }
}

/// The first `\n` at or after `i`, or the length of `s` when there is none.
pub open spec fn next_newline(s: Seq<u8>, i: int) -> int
    decreases s.len() - i,
{
    if i < 0 || i >= s.len() {
        s.len() as int
    } else if s[i] == LF {
        i
    } else {
        next_newline(s, i + 1)
    }
}

/// The start of the line that holds position `pos`: just after the last `\n`
/// before `pos`, or 0.
pub open spec fn line_start_before(s: Seq<u8>, pos: int) -> int
    decreases pos,
{
    if pos <= 0 {
        0
    } else if s[pos - 1] == LF {
        pos
    } else {
        line_start_before(s, pos - 1)
    }
}

/// The line that starts at `start`.
pub open spec fn line_at(s: Seq<u8>, start: int) -> LineInfo {
    let j = next_newline(s, start);
    if j < s.len() {
        let content_end = if j > start && s[j - 1] == CR {
            j - 1
        } else {
            j
        };
        LineInfo {
            content_start: start as usize,
            content_end: content_end as usize,
            full_end: (j + 1) as usize,
        }
    } else {
        LineInfo { content_start: start as usize, content_end: j as usize, full_end: j as usize }
    }
}

/// The lines of `s` from offset `start` on.
pub open spec fn lines_from(s: Seq<u8>, start: int) -> Seq<LineInfo>
    decreases s.len() - start,
{
    if start < 0 || start >= s.len() || s.len() > usize::MAX {
        Seq::empty()
    } else {
        let l = line_at(s, start);
        if start < l.full_end <= s.len() {
            seq![l] + lines_from(s, l.full_end as int)
        } else {
            seq![l]
        }
    }
}

/// All lines of `s`. An empty buffer has no lines; a final `\n` does not
/// start another line.
pub open spec fn spec_lines(s: Seq<u8>) -> Seq<LineInfo> {
    lines_from(s, 0)
}

/// The content of line `l` of `s`.
pub open spec fn content_of(s: Seq<u8>, l: LineInfo) -> Seq<u8> {
    s.subrange(l.content_start as int, l.content_end as int)
}

/// The line ending of line `l` of `s`.
pub open spec fn newline_of(s: Seq<u8>, l: LineInfo) -> Seq<u8> {
    s.subrange(l.content_end as int, l.full_end as int)
}

/// The whole text of line `l` of `s`, line ending included.
pub open spec fn text_of(s: Seq<u8>, l: LineInfo) -> Seq<u8> {
    s.subrange(l.content_start as int, l.full_end as int)
}

/// The texts of the given lines, one after another.
pub open spec fn join_texts(s: Seq<u8>, ls: Seq<LineInfo>) -> Seq<u8>
    decreases ls.len(),
{
    if ls.len() == 0 {
        Seq::empty()
    } else {
        join_texts(s, ls.drop_last()) + text_of(s, ls.last())
    }
}

pub proof fn lemma_ws_end_bounds(s: Seq<u8>, i: int)
    requires
        0 <= i <= s.len(),
    ensures
        i <= ws_end(s, i) <= s.len(),
        forall|k: int| i <= k < ws_end(s, i) ==> #[trigger] is_ws_byte(s[k]),
        ws_end(s, i) < s.len() ==> !is_ws_byte(s[ws_end(s, i)]),
    decreases s.len() - i,
{
    if i < s.len() && is_ws_byte(s[i]) {
        lemma_ws_end_bounds(s, i + 1);
    }
}

pub proof fn lemma_next_newline_bounds(s: Seq<u8>, i: int)
    requires
        0 <= i <= s.len(),
    ensures
        i <= next_newline(s, i) <= s.len(),
        forall|k: int| i <= k < next_newline(s, i) ==> s[k] != LF,
        next_newline(s, i) < s.len() ==> s[next_newline(s, i)] == LF,
    decreases s.len() - i,
{
    if i < s.len() && s[i] != LF {
        lemma_next_newline_bounds(s, i + 1);
    }
}

pub proof fn lemma_line_start_before_bounds(s: Seq<u8>, pos: int)
    requires
        0 <= pos <= s.len(),
    ensures
        0 <= line_start_before(s, pos) <= pos,
        forall|k: int| line_start_before(s, pos) <= k < pos ==> s[k] != LF,
        line_start_before(s, pos) > 0 ==> s[line_start_before(s, pos) - 1] == LF,
    decreases pos,
{
    if pos > 0 && s[pos - 1] != LF {
        lemma_line_start_before_bounds(s, pos - 1);
    }
}

/// A line of `s` that starts inside `s` is well placed: its content ends
/// before its line ending, it ends after it starts, and within `s`.
pub proof fn lemma_line_at_shape(s: Seq<u8>, start: int)
    requires
        0 <= start < s.len() <= usize::MAX,
    ensures
        line_at(s, start).content_start == start,
        start <= line_at(s, start).content_end <= line_at(s, start).full_end <= s.len(),
        start < line_at(s, start).full_end,
        forall|k: int|
            start <= k < line_at(s, start).content_end ==> s[k] != LF,
{
    lemma_next_newline_bounds(s, start);
}

/// The lines of `s` are ordered and well placed, and the line after each one
/// starts where it ends.
pub proof fn lemma_lines_from_shape(s: Seq<u8>, start: int)
    requires
        0 <= start <= s.len() <= usize::MAX,
    ensures
        forall|k: int|
            0 <= k < lines_from(s, start).len() ==> {
                let l = #[trigger] lines_from(s, start)[k];
                &&& start <= l.content_start < s.len()
                &&& l.content_start <= l.content_end <= l.full_end <= s.len()
                &&& l.content_start < l.full_end
                &&& l == line_at(s, l.content_start as int)
            },
        forall|k: int|
            0 < k < lines_from(s, start).len() ==> (#[trigger] lines_from(s, start)[k]).content_start
                == lines_from(s, start)[k - 1].full_end,
        lines_from(s, start).len() > 0 ==> lines_from(s, start)[0].content_start == start,
        lines_from(s, start).len() > 0 ==> lines_from(s, start).last().full_end == s.len(),
        lines_from(s, start).len() == 0 ==> start == s.len(),
    decreases s.len() - start,
{
    if start < s.len() {
        lemma_line_at_shape(s, start);
        let l = line_at(s, start);
        lemma_lines_from_shape(s, l.full_end as int);
        let rest = lines_from(s, l.full_end as int);
        assert(lines_from(s, start) == seq![l] + rest);
        assert forall|k: int| 0 <= k < lines_from(s, start).len() implies {
            let m = #[trigger] lines_from(s, start)[k];
            &&& start <= m.content_start < s.len()
            &&& m.content_start <= m.content_end <= m.full_end <= s.len()
            &&& m.content_start < m.full_end
            &&& m == line_at(s, m.content_start as int)
        } by {
            if k > 0 {
                assert(lines_from(s, start)[k] == rest[k - 1]);
            }
        }
        assert forall|k: int| 0 < k < lines_from(s, start).len() implies (
        #[trigger] lines_from(s, start)[k]).content_start == lines_from(s, start)[k - 1].full_end by {
            assert(lines_from(s, start)[k] == rest[k - 1]);
            if k > 1 {
                assert(lines_from(s, start)[k - 1] == rest[k - 2]);
                assert(rest[k - 1].content_start == rest[k - 2].full_end);
            } else {
                assert(lines_from(s, start)[0] == l);
                assert(rest[0].content_start == l.full_end);
            }
        }
    }
}

/// Line `j` of `s` lies within `s`, with its content before its line ending.
pub proof fn lemma_line_of(s: Seq<u8>, j: int)
    requires
        s.len() <= usize::MAX,
        0 <= j < spec_lines(s).len(),
    ensures
        ({
            let l = spec_lines(s)[j];
            &&& l.content_start <= l.content_end <= l.full_end <= s.len()
            &&& l.content_start < l.full_end
            &&& l == line_at(s, l.content_start as int)
            &&& j == 0 ==> l.content_start == 0
            &&& j > 0 ==> l.content_start == spec_lines(s)[j - 1].full_end
            &&& j == spec_lines(s).len() - 1 ==> l.full_end == s.len()
        }),
{
    lemma_lines_from_shape(s, 0);
    let l = spec_lines(s)[j];
    assert(l == lines_from(s, 0)[j]);
}

/// The line texts of `s`, one after another, give back `s`.
pub proof fn lemma_lines_cover(s: Seq<u8>)
    requires
        s.len() <= usize::MAX,
    ensures
        join_texts(s, spec_lines(s)) == s,
{
    lemma_lines_from_cover(s, 0);
    assert(s.subrange(0, s.len() as int) == s);
}

proof fn lemma_join_texts_prepend(s: Seq<u8>, l: LineInfo, rest: Seq<LineInfo>)
    ensures
        join_texts(s, seq![l] + rest) == text_of(s, l) + join_texts(s, rest),
    decreases rest.len(),
{
    let whole = seq![l] + rest;
    if rest.len() == 0 {
        assert(whole == seq![l]);
        assert(seq![l].drop_last() =~= Seq::<LineInfo>::empty());
        assert(join_texts(s, seq![l]) == join_texts(s, Seq::<LineInfo>::empty()) + text_of(s, l));
        assert(join_texts(s, Seq::<LineInfo>::empty()) == Seq::<u8>::empty());
        assert(join_texts(s, rest) == Seq::<u8>::empty());
        assert(text_of(s, l) + Seq::<u8>::empty() =~= text_of(s, l));
        assert(Seq::<u8>::empty() + text_of(s, l) =~= text_of(s, l));
    } else {
        assert(whole.drop_last() =~= seq![l] + rest.drop_last());
        lemma_join_texts_prepend(s, l, rest.drop_last());
        assert(whole.last() == rest.last());
        assert(join_texts(s, whole) == join_texts(s, whole.drop_last()) + text_of(s, whole.last()));
        assert(join_texts(s, rest) == join_texts(s, rest.drop_last()) + text_of(s, rest.last()));
        assert(text_of(s, l) + join_texts(s, rest.drop_last()) + text_of(s, rest.last()) =~= text_of(
            s,
            l,
        ) + (join_texts(s, rest.drop_last()) + text_of(s, rest.last())));
    }
}

proof fn lemma_lines_from_cover(s: Seq<u8>, start: int)
    requires
        0 <= start <= s.len() <= usize::MAX,
    ensures
        join_texts(s, lines_from(s, start)) == s.subrange(start, s.len() as int),
    decreases s.len() - start,
{
    if start < s.len() {
        lemma_line_at_shape(s, start);
        let l = line_at(s, start);
        lemma_lines_from_cover(s, l.full_end as int);
        lemma_join_texts_prepend(s, l, lines_from(s, l.full_end as int));
        assert(s.subrange(start, l.full_end as int) + s.subrange(
            l.full_end as int,
            s.len() as int,
        ) == s.subrange(start, s.len() as int));
    } else {
        assert(s.subrange(start, s.len() as int) == Seq::<u8>::empty());
    }
}

/// A line's content `c` and line ending `nl` as they can stand in a buffer:
/// no `\n` in the content, a line ending that is `\n` (after content that
/// does not end in `\r`), `\r\n` or nothing, and not both empty.
pub open spec fn piece_ok(c: Seq<u8>, nl: Seq<u8>) -> bool {
    &&& forall|i: int| 0 <= i < c.len() ==> c[i] != LF
    &&& ((nl == seq![LF] && (c.len() == 0 || c[c.len() - 1] != CR)) || nl == seq![CR, LF]
        || nl.len() == 0)
    &&& c.len() + nl.len() > 0
}

/// The first `m` pieces (content, then line ending), one after another.
pub open spec fn join_pieces(p: Seq<(Seq<u8>, Seq<u8>)>, m: int) -> Seq<u8>
    decreases m,
{
    if m <= 0 || m > p.len() {
        Seq::empty()
    } else {
        join_pieces(p, m - 1) + p[m - 1].0 + p[m - 1].1
    }
}

/// Every piece can stand as a line, and only the last one lacks a line ending.
pub open spec fn pieces_ok(p: Seq<(Seq<u8>, Seq<u8>)>) -> bool {
    forall|k: int|
        0 <= k < p.len() ==> piece_ok(#[trigger] p[k].0, p[k].1) && (p[k].1.len() == 0 ==> k
            == p.len() - 1)
}

proof fn lemma_join_prefix(p: Seq<(Seq<u8>, Seq<u8>)>, m: int, n: int)
    requires
        0 <= m <= n <= p.len(),
    ensures
        join_pieces(p, m).len() <= join_pieces(p, n).len(),
        join_pieces(p, n).subrange(0, join_pieces(p, m).len() as int) == join_pieces(p, m),
    decreases n,
{
    if m < n {
        lemma_join_prefix(p, m, n - 1);
        let a = join_pieces(p, n - 1);
        let b = join_pieces(p, n);
        assert(b == a + p[n - 1].0 + p[n - 1].1);
        assert(b.subrange(0, a.len() as int) == a);
        let lm = join_pieces(p, m).len() as int;
        assert(b.subrange(0, lm) == a.subrange(0, lm));
    } else {
        assert(join_pieces(p, n).subrange(0, join_pieces(p, n).len() as int) == join_pieces(p, n));
    }
}

proof fn lemma_join_piece_at(p: Seq<(Seq<u8>, Seq<u8>)>, m: int, n: int)
    requires
        0 <= m < n <= p.len(),
    ensures
        join_pieces(p, m + 1).len() == join_pieces(p, m).len() + p[m].0.len() + p[m].1.len(),
        join_pieces(p, m + 1).len() <= join_pieces(p, n).len(),
        join_pieces(p, n).subrange(
            join_pieces(p, m).len() as int,
            (join_pieces(p, m).len() + p[m].0.len()) as int,
        ) == p[m].0,
        join_pieces(p, n).subrange(
            (join_pieces(p, m).len() + p[m].0.len()) as int,
            join_pieces(p, m + 1).len() as int,
        ) == p[m].1,
{
    lemma_join_prefix(p, m + 1, n);
    let s = join_pieces(p, n);
    let a = join_pieces(p, m);
    let b = join_pieces(p, m + 1);
    assert(b == a + p[m].0 + p[m].1);
    let x = a.len() as int;
    let y = x + p[m].0.len();
    assert(s.subrange(x, y) == b.subrange(x, y));
    assert(b.subrange(x, y) == p[m].0);
    assert(s.subrange(y, b.len() as int) == b.subrange(y, b.len() as int));
    assert(b.subrange(y, b.len() as int) == p[m].1);
}

proof fn lemma_next_newline_at(s: Seq<u8>, i: int, j: int)
    requires
        0 <= i <= j <= s.len(),
        forall|k: int| i <= k < j ==> s[k] != LF,
        j == s.len() || s[j] == LF,
    ensures
        next_newline(s, i) == j,
    decreases j - i,
{
    if i < j {
        lemma_next_newline_at(s, i + 1, j);
    }
}

proof fn lemma_line_of_piece(s: Seq<u8>, start: int, c: Seq<u8>, nl: Seq<u8>)
    requires
        s.len() <= usize::MAX,
        0 <= start < s.len(),
        start + c.len() + nl.len() <= s.len(),
        s.subrange(start, start + c.len()) == c,
        s.subrange(start + c.len(), start + c.len() + nl.len()) == nl,
        piece_ok(c, nl),
        nl.len() == 0 ==> start + c.len() == s.len(),
    ensures
        line_at(s, start) == (LineInfo {
            content_start: start as usize,
            content_end: (start + c.len()) as usize,
            full_end: (start + c.len() + nl.len()) as usize,
        }),
{
    let e = start + c.len();
    assert forall|k: int| start <= k < e implies s[k] != LF by {
        assert(s[k] == c[k - start]);
    }
    if nl.len() == 0 {
        lemma_next_newline_at(s, start, e);
    } else if nl == seq![LF] {
        assert(s[e] == nl[0]);
        lemma_next_newline_at(s, start, e);
        if e > start {
            assert(s[e - 1] == c[c.len() - 1]);
        }
    } else {
        assert(nl == seq![CR, LF]);
        assert(s[e] == nl[0]);
        assert(s[e + 1] == nl[1]);
        lemma_next_newline_at(s, start, e + 1);
    }
}

proof fn lemma_lines_from_pieces(p: Seq<(Seq<u8>, Seq<u8>)>, m: int)
    requires
        pieces_ok(p),
        join_pieces(p, p.len() as int).len() <= usize::MAX,
        0 <= m <= p.len(),
    ensures
        ({
            let s = join_pieces(p, p.len() as int);
            let ls = lines_from(s, join_pieces(p, m).len() as int);
            &&& ls.len() == p.len() - m
            &&& forall|i: int|
                0 <= i < p.len() - m ==> #[trigger] ls[i] == (LineInfo {
                    content_start: join_pieces(p, m + i).len() as usize,
                    content_end: (join_pieces(p, m + i).len() + p[m + i].0.len()) as usize,
                    full_end: join_pieces(p, m + i + 1).len() as usize,
                })
        }),
    decreases p.len() - m,
{
    let n = p.len() as int;
    let s = join_pieces(p, n);
    let off = join_pieces(p, m).len() as int;
    if m == n {
        assert(lines_from(s, off) == Seq::<LineInfo>::empty());
    } else {
        lemma_join_piece_at(p, m, n);
        assert(piece_ok(p[m].0, p[m].1));
        if p[m].1.len() == 0 {
            assert(m == n - 1);
            assert(join_pieces(p, m + 1) == join_pieces(p, n));
        }
        lemma_line_of_piece(s, off, p[m].0, p[m].1);
        let l = line_at(s, off);
        lemma_lines_from_pieces(p, m + 1);
        let rest = lines_from(s, join_pieces(p, m + 1).len() as int);
        assert(lines_from(s, off) == seq![l] + rest);
        let ls = lines_from(s, off);
        assert forall|i: int| 0 <= i < n - m implies #[trigger] ls[i] == (LineInfo {
            content_start: join_pieces(p, m + i).len() as usize,
            content_end: (join_pieces(p, m + i).len() + p[m + i].0.len()) as usize,
            full_end: join_pieces(p, m + i + 1).len() as usize,
        }) by {
            if i > 0 {
                assert(ls[i] == rest[i - 1]);
                assert(m + 1 + (i - 1) == m + i);
            }
        }
    }
}

/// Pieces that can stand as lines, put one after another, are the lines of
/// the result: one line per piece, with the piece's content and line ending.
pub proof fn lemma_lines_of_pieces(p: Seq<(Seq<u8>, Seq<u8>)>)
    requires
        pieces_ok(p),
        join_pieces(p, p.len() as int).len() <= usize::MAX,
    ensures
        ({
            let s = join_pieces(p, p.len() as int);
            &&& spec_lines(s).len() == p.len()
            &&& forall|k: int|
                0 <= k < p.len() ==> content_of(s, #[trigger] spec_lines(s)[k]) == p[k].0
                    && newline_of(s, spec_lines(s)[k]) == p[k].1
        }),
{
    let n = p.len() as int;
    let s = join_pieces(p, n);
    lemma_lines_from_pieces(p, 0);
    assert(join_pieces(p, 0).len() == 0);
    assert forall|k: int| 0 <= k < n implies content_of(s, #[trigger] spec_lines(s)[k]) == p[k].0
        && newline_of(s, spec_lines(s)[k]) == p[k].1 by {
        assert(spec_lines(s)[k] == lines_from(s, 0)[k]);
        assert(0 + k == k);
        lemma_join_piece_at(p, k, n);
    }
}

/// Whether a byte is a space or a tab.
pub fn is_ws(b: u8) -> (r: bool)
    ensures
        r == is_ws_byte(b),
{
    b == 32u8 || b == 9u8
}

/// Whether a line's content holds only spaces and tabs (an empty line is blank).
pub fn is_blank(content: &[u8]) -> (r: bool)
    ensures
        r == blank(content@),
{
    let mut i: usize = 0;
    while i < content.len()
        invariant
            i <= content@.len(),
            forall|k: int| 0 <= k < i ==> #[trigger] is_ws_byte(content@[k]),
        decreases content@.len() - i,
    {
        if !is_ws(content[i]) {
            return false;
        }
        i = i + 1;
    }
    true
}

/// The end of the run of spaces and tabs in `s` that starts at `from`,
/// looking no further than `to`.
pub fn ws_run_end(s: &[u8], from: usize, to: usize) -> (r: usize)
    requires
        from <= to <= s@.len(),
    ensures
        r == ws_end(s@.subrange(0, to as int), from as int),
        from <= r <= to,
{
    let ghost t = s@.subrange(0, to as int);
    let mut i = from;
    while i < to && is_ws(s[i])
        invariant
            from <= i <= to <= s@.len(),
            t == s@.subrange(0, to as int),
            ws_end(t, from as int) == ws_end(t, i as int),
        decreases to - i,
    {
        i = i + 1;
    }
    i
}

/// The leading spaces and tabs of a line's content.
pub fn leading_ws(content: &[u8]) -> (r: &[u8])
    ensures
        r@ == content@.subrange(0, ws_end(content@, 0)),
        0 <= ws_end(content@, 0) <= content@.len(),
{
    let end = ws_run_end(content, 0, content.len());
    assert(content@.subrange(0, content@.len() as int) == content@);
    vstd::slice::slice_subrange(content, 0, end)
}

/// The leading spaces and tabs of the line of `body` that holds position `pos`,
/// as the offsets `(start, end)` of that run in `body`.
pub fn leading_ws_of_line(body: &[u8], pos: usize) -> (r: (usize, usize))
    requires
        pos <= body@.len(),
    ensures
        r.0 == line_start_before(body@, pos as int),
        r.1 == ws_end(body@, r.0 as int),
        r.0 <= r.1 <= body@.len(),
{
    let mut ls = pos;
    while ls > 0 && body[ls - 1] != LF
        invariant
            ls <= pos <= body@.len(),
            line_start_before(body@, pos as int) == line_start_before(body@, ls as int),
        decreases ls,
    {
        ls = ls - 1;
    }
    let end = ws_run_end(body, ls, body.len());
    assert(body@.subrange(0, body@.len() as int) == body@);
    proof {
        lemma_ws_end_bounds(body@, ls as int);
    }
    (ls, end)
}

/// Cuts `body` into lines.
pub fn split_lines(body: &[u8]) -> (lines: Vec<LineInfo>)
    ensures
        lines@ == spec_lines(body@),
{
    let mut lines: Vec<LineInfo> = Vec::new();
    let mut i: usize = 0;
    while i < body.len()
        invariant
            i <= body@.len(),
            lines@ + lines_from(body@, i as int) == spec_lines(body@),
        decreases body@.len() - i,
    {
        let line_start = i;
        let mut j = i;
        while j < body.len() && body[j] != LF
            invariant
                line_start <= j <= body@.len(),
                line_start < body@.len(),
                next_newline(body@, line_start as int) == next_newline(body@, j as int),
            decreases body@.len() - j,
        {
            j = j + 1;
        }
        let content_end: usize;
        let full_end: usize;
        if j < body.len() {
            if j > line_start && body[j - 1] == CR {
                content_end = j - 1;
            } else {
                content_end = j;
            }
            full_end = j + 1;
        } else {
            content_end = j;
            full_end = j;
        }
        let l = LineInfo { content_start: line_start, content_end, full_end };
        proof {
            lemma_line_at_shape(body@, line_start as int);
            assert(l == line_at(body@, line_start as int));
            assert(lines_from(body@, i as int) == seq![l] + lines_from(body@, full_end as int));
            assert(lines@.push(l) + lines_from(body@, full_end as int) == lines@ + (seq![l]
                + lines_from(body@, full_end as int)));
        }
        lines.push(l);
        i = full_end;
    }
    lines
}

} // verus!
