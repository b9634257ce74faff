//! Danger zones: byte ranges where blank lines must not be touched
//! (string literals, comments and parse-error regions).
use vstd::prelude::*;

use crate::syntax::{NodeKind, SyntaxNode, SyntaxTree};
use crate::trusted::sort_by_start;

verus! {

/// A byte range `start..end` of the source.
#[derive(Clone, Copy, Debug)]
pub struct Interval {
    pub start: usize,
    pub end: usize,
}

/// `a` comes no later than `b` when ordered by start, then by end.
pub open spec fn interval_le(a: Interval, b: Interval) -> bool {
    a.start < b.start || (a.start == b.start && a.end <= b.end)
}

/// Ordering by start, then by end, is a total order on intervals.
pub proof fn lemma_interval_le_total()
    ensures
        vstd::relations::total_ordering(|a: Interval, b: Interval| interval_le(a, b)),
{
}

/// The key by which the intervals are sorted: start, then end.
pub fn interval_key(iv: &Interval) -> (r: (usize, usize))
    ensures
        r == (iv.start, iv.end),
{
    (iv.start, iv.end)
}

/// The ends of the intervals never decrease.
pub open spec fn ends_sorted(iv: Seq<Interval>) -> bool {
    forall|i: int, j: int| 0 <= i <= j < iv.len() ==> iv[i].end <= iv[j].end
}

/// The starts of the intervals never decrease.
pub open spec fn starts_sorted(iv: Seq<Interval>) -> bool {
    forall|i: int, j: int| 0 <= i <= j < iv.len() ==> iv[i].start <= iv[j].start
}

/// Both the starts and the ends of the intervals never decrease.
pub open spec fn sorted_intervals(iv: Seq<Interval>) -> bool {
    starts_sorted(iv) && ends_sorted(iv)
}

/// No interval is reversed, and each interval ends strictly before the next
/// one starts.
pub open spec fn sorted_disjoint(iv: Seq<Interval>) -> bool {
    &&& forall|i: int| 0 <= i < iv.len() ==> (#[trigger] iv[i]).start <= iv[i].end
    &&& forall|i: int, j: int| 0 <= i < j < iv.len() ==> iv[i].end < iv[j].start
}

/// Byte `b` lies in some interval.
pub open spec fn covers(iv: Seq<Interval>, b: int) -> bool {
    exists|i: int| 0 <= i < iv.len() && (#[trigger] iv[i]).start <= b < iv[i].end
}

/// Some interval meets the byte range `start..end`: it starts before `end`
/// and ends after `start`.
pub open spec fn overlaps(iv: Seq<Interval>, start: int, end: int) -> bool {
    exists|i: int| 0 <= i < iv.len() && (#[trigger] iv[i]).start < end && start < iv[i].end
}

/// How many intervals at the front end at or before `b`: where the first
/// interval that ends after `b` stands.
pub open spec fn ending_by(iv: Seq<Interval>, b: int) -> int
    decreases iv.len(),
{
    if iv.len() > 0 && iv[0].end <= b {
        1 + ending_by(iv.drop_first(), b)
    } else {
        0
    }
}

/// What `byte_in_any` answers: the first interval that ends after `b`
/// starts at or before `b`.
pub open spec fn spec_byte_in_any(iv: Seq<Interval>, b: int) -> bool {
    let p = ending_by(iv, b);
    p < iv.len() && iv[p].start <= b
}

/// What `range_overlaps_any` answers.
pub open spec fn spec_range_overlaps_any(iv: Seq<Interval>, start: int, end: int) -> bool {
    if start >= end {
        spec_byte_in_any(iv, start)
    } else {
        let p = ending_by(iv, start);
        p < iv.len() && iv[p].start < end
    }
}

/// `p` splits `iv` into the intervals that end by `b` and those that end after it.
proof fn lemma_ending_by(iv: Seq<Interval>, b: int, p: int)
    requires
        0 <= p <= iv.len(),
        forall|i: int| 0 <= i < p ==> (#[trigger] iv[i]).end <= b,
        forall|i: int| p <= i < iv.len() ==> (#[trigger] iv[i]).end > b,
    ensures
        ending_by(iv, b) == p,
    decreases iv.len(),
{
    if iv.len() > 0 && p > 0 {
        let rest = iv.drop_first();
        assert forall|i: int| 0 <= i < p - 1 implies (#[trigger] rest[i]).end <= b by {
            assert(rest[i] == iv[i + 1]);
        }
        assert forall|i: int| p - 1 <= i < rest.len() implies (#[trigger] rest[i]).end > b by {
            assert(rest[i] == iv[i + 1]);
        }
        lemma_ending_by(rest, b, p - 1);
    } else if iv.len() > 0 {
        assert(iv[0].end > b);
    }
}

/// When the starts are sorted too, the answer of `byte_in_any` is whether the
/// byte lies in some interval.
pub proof fn lemma_byte_in_any_covers(iv: Seq<Interval>, b: int, p: int)
    requires
        sorted_intervals(iv),
        0 <= p <= iv.len(),
        forall|i: int| 0 <= i < p ==> (#[trigger] iv[i]).end <= b,
        forall|i: int| p <= i < iv.len() ==> (#[trigger] iv[i]).end > b,
    ensures
        spec_byte_in_any(iv, b) == covers(iv, b),
        spec_range_overlaps_any(iv, b, b) == covers(iv, b),
{
    lemma_ending_by(iv, b, p);
    if covers(iv, b) {
        let i = choose|i: int| 0 <= i < iv.len() && (#[trigger] iv[i]).start <= b < iv[i].end;
        assert(i >= p);
        assert(iv[p].start <= iv[i].start);
    }
    if spec_byte_in_any(iv, b) {
        assert(iv[p].start <= b < iv[p].end);
    }
}

/// When the starts are sorted too, the answer of `range_overlaps_any` for a
/// non-empty range is whether some interval meets the range.
pub proof fn lemma_range_overlaps_any(iv: Seq<Interval>, start: int, end: int, p: int)
    requires
        sorted_intervals(iv),
        start < end,
        0 <= p <= iv.len(),
        forall|i: int| 0 <= i < p ==> (#[trigger] iv[i]).end <= start,
        forall|i: int| p <= i < iv.len() ==> (#[trigger] iv[i]).end > start,
    ensures
        spec_range_overlaps_any(iv, start, end) == overlaps(iv, start, end),
{
    lemma_ending_by(iv, start, p);
    if overlaps(iv, start, end) {
        let i = choose|i: int|
            0 <= i < iv.len() && (#[trigger] iv[i]).start < end && start < iv[i].end;
        assert(i >= p);
        assert(iv[p].start <= iv[i].start);
    }
    if spec_range_overlaps_any(iv, start, end) {
        assert(iv[p].start < end && start < iv[p].end);
    }
}

/// The first position in `intervals` whose interval ends after `b`
/// (intervals ordered by their ends).
fn partition_point_end(intervals: &[Interval], b: usize) -> (p: usize)
    requires
        ends_sorted(intervals@),
    ensures
        p <= intervals@.len(),
        forall|i: int| 0 <= i < p ==> (#[trigger] intervals@[i]).end <= b,
        forall|i: int| p <= i < intervals@.len() ==> (#[trigger] intervals@[i]).end > b,
        p == ending_by(intervals@, b as int),
{
    let mut lo: usize = 0;
    let mut hi: usize = intervals.len();
    while lo < hi
        invariant
            lo <= hi <= intervals@.len(),
            ends_sorted(intervals@),
            forall|i: int| 0 <= i < lo ==> (#[trigger] intervals@[i]).end <= b,
            forall|i: int| hi <= i < intervals@.len() ==> (#[trigger] intervals@[i]).end > b,
        decreases hi - lo,
    {
        let mid = lo + (hi - lo) / 2;
        if intervals[mid].end <= b {
            assert forall|i: int| 0 <= i < mid + 1 implies (#[trigger] intervals@[i]).end <= b by {
                assert(intervals@[i].end <= intervals@[mid as int].end);
            }
            lo = mid + 1;
        } else {
            assert forall|i: int| mid <= i < intervals@.len() implies (
            #[trigger] intervals@[i]).end > b by {
                assert(intervals@[mid as int].end <= intervals@[i].end);
            }
            hi = mid;
        }
    }
    proof {
        lemma_ending_by(intervals@, b as int, lo as int);
    }
    lo
}

/// Whether `byte` lies in one of the sorted intervals.
pub fn byte_in_any(intervals: &[Interval], byte: usize) -> (r: bool)
    requires
        ends_sorted(intervals@),
    ensures
        r == spec_byte_in_any(intervals@, byte as int),
        starts_sorted(intervals@) ==> r == covers(intervals@, byte as int),
{
    let index = partition_point_end(intervals, byte);
    proof {
        if starts_sorted(intervals@) {
            lemma_byte_in_any_covers(intervals@, byte as int, index as int);
        }
    }
    index < intervals.len() && intervals[index].start <= byte
}

/// Whether the byte range `start..end` meets one of the sorted intervals; an
/// empty range asks about the byte at `start`.
pub fn range_overlaps_any(intervals: &[Interval], start: usize, end: usize) -> (r: bool)
    requires
        ends_sorted(intervals@),
    ensures
        r == spec_range_overlaps_any(intervals@, start as int, end as int),
        starts_sorted(intervals@) && start < end ==> r == overlaps(
            intervals@,
            start as int,
            end as int,
        ),
        starts_sorted(intervals@) && start >= end ==> r == covers(intervals@, start as int),
{
    if start >= end {
        return byte_in_any(intervals, start);
    }
    let index = partition_point_end(intervals, start);
    proof {
        if starts_sorted(intervals@) {
            lemma_range_overlaps_any(intervals@, start as int, end as int, index as int);
        }
    }
    index < intervals.len() && intervals[index].start < end
}

/// A node whose blank lines must stay as they are: a syntax error, a comment
/// or a string literal.
pub open spec fn is_danger(n: SyntaxNode) -> bool {
    n.error || n.kind == NodeKind::Comment || n.kind == NodeKind::StringLiteral
}

/// Some proper ancestor of node `i` is a danger node.
pub open spec fn under_danger(ns: Seq<SyntaxNode>, i: int) -> bool
    decreases i,
{
    if 0 <= i < ns.len() {
        match ns[i].parent {
            Some(p) => if 0 <= p < i {
                is_danger(ns[p as int]) || under_danger(ns, p as int)
            } else {
                false
            },
            None => false,
        }
    } else {
        false
    }
}

/// The byte ranges of the outermost danger nodes among the first `n` nodes,
/// in table order.
pub open spec fn zone_roots(ns: Seq<SyntaxNode>, n: int) -> Seq<Interval>
    decreases n,
{
    if n <= 0 || n > ns.len() {
        Seq::empty()
    } else {
        let prev = zone_roots(ns, n - 1);
        let node = ns[n - 1];
        if is_danger(node) && !under_danger(ns, n - 1) {
            prev.push(Interval { start: node.start, end: node.end })
        } else {
            prev
        }
    }
}

/// Intervals sorted by start, with each one that starts at or before the end
/// of the last merged interval folded into it.
pub open spec fn merge_spec(s: Seq<Interval>) -> Seq<Interval>
    decreases s.len(),
{
    if s.len() == 0 {
        Seq::empty()
    } else {
        let m = merge_spec(s.drop_last());
        let iv = s.last();
        if m.len() > 0 && iv.start <= m.last().end {
            let last = m.last();
            let end = if last.end >= iv.end {
                last.end
            } else {
                iv.end
            };
            m.drop_last().push(Interval { start: last.start, end })
        } else {
            m.push(iv)
        }
    }
}

/// No interval is reversed.
pub open spec fn all_ordered(s: Seq<Interval>) -> bool {
    forall|i: int| 0 <= i < s.len() ==> (#[trigger] s[i]).start <= s[i].end
}

/// Merging sorted, non-reversed intervals gives disjoint intervals that cover
/// the same bytes.
pub proof fn lemma_merge(s: Seq<Interval>)
    requires
        starts_sorted(s),
        all_ordered(s),
    ensures
        sorted_disjoint(merge_spec(s)),
        forall|b: int| covers(merge_spec(s), b) <==> covers(s, b),
        s.len() > 0 ==> merge_spec(s).len() > 0 && merge_spec(s).last().start <= s.last().start,
        s.len() == 0 ==> merge_spec(s).len() == 0,
    decreases s.len(),
{
    if s.len() > 0 {
        let p = s.drop_last();
        assert(starts_sorted(p));
        assert(all_ordered(p));
        lemma_merge(p);
        let m = merge_spec(p);
        let iv = s.last();
        let r = merge_spec(s);
        if m.len() > 0 && iv.start <= m.last().end {
            let last = m.last();
            assert(last.start <= iv.start) by {
                assert(p.last().start <= iv.start);
            }
            let end = if last.end >= iv.end {
                last.end
            } else {
                iv.end
            };
            let nl = Interval { start: last.start, end };
            assert(r == m.drop_last().push(nl));
            assert(sorted_disjoint(r)) by {
                assert forall|i: int, j: int| 0 <= i < j < r.len() implies r[i].end < r[j].start by {
                    if j == r.len() - 1 {
                        assert(r[i] == m[i]);
                        assert(m[i].end < m[m.len() - 1].start);
                    } else {
                        assert(r[i] == m[i] && r[j] == m[j]);
                    }
                }
                assert forall|i: int| 0 <= i < r.len() implies (#[trigger] r[i]).start <= r[i].end by {
                    if i < r.len() - 1 {
                        assert(r[i] == m[i]);
                    }
                }
            }
            assert forall|b: int| covers(r, b) <==> covers(s, b) by {
                assert(covers(m, b) <==> covers(p, b));
                if covers(r, b) {
                    let i = choose|i: int| 0 <= i < r.len() && (#[trigger] r[i]).start <= b < r[i].end;
                    if i < r.len() - 1 {
                        assert(r[i] == m[i]);
                        assert(covers(m, b));
                    } else if b < last.end {
                        assert(m[m.len() - 1].start <= b < m[m.len() - 1].end);
                        assert(covers(m, b));
                    } else {
                        assert(s[s.len() - 1].start <= b < s[s.len() - 1].end);
                    }
                    if covers(m, b) {
                        let k = choose|k: int| 0 <= k < p.len() && (#[trigger] p[k]).start <= b < p[k].end;
                        assert(s[k] == p[k]);
                    }
                }
                if covers(s, b) {
                    let k = choose|k: int| 0 <= k < s.len() && (#[trigger] s[k]).start <= b < s[k].end;
                    if k < s.len() - 1 {
                        assert(p[k] == s[k]);
                        assert(covers(p, b));
                        let i = choose|i: int| 0 <= i < m.len() && (#[trigger] m[i]).start <= b < m[i].end;
                        if i < m.len() - 1 {
                            assert(r[i] == m[i]);
                        } else {
                            assert(r[r.len() - 1].start <= b < r[r.len() - 1].end);
                        }
                    } else {
                        assert(r[r.len() - 1].start <= b < r[r.len() - 1].end);
                    }
                }
            }
        } else {
            assert(r == m.push(iv));
            assert(m.len() > 0 ==> m.last().start <= iv.start) by {
                if m.len() > 0 {
                    assert(p.last().start <= iv.start);
                }
            }
            assert(sorted_disjoint(r)) by {
                assert forall|i: int, j: int| 0 <= i < j < r.len() implies r[i].end < r[j].start by {
                    if j == r.len() - 1 {
                        assert(r[i] == m[i]);
                        if i < m.len() - 1 {
                            assert(m[i].end < m[m.len() - 1].start);
                        }
                    } else {
                        assert(r[i] == m[i] && r[j] == m[j]);
                    }
                }
                assert forall|i: int| 0 <= i < r.len() implies (#[trigger] r[i]).start <= r[i].end by {
                    if i < r.len() - 1 {
                        assert(r[i] == m[i]);
                    }
                }
            }
            assert forall|b: int| covers(r, b) <==> covers(s, b) by {
                assert(covers(m, b) <==> covers(p, b));
                if covers(r, b) {
                    let i = choose|i: int| 0 <= i < r.len() && (#[trigger] r[i]).start <= b < r[i].end;
                    if i < r.len() - 1 {
                        assert(r[i] == m[i]);
                        assert(covers(m, b));
                        let k = choose|k: int| 0 <= k < p.len() && (#[trigger] p[k]).start <= b < p[k].end;
                        assert(s[k] == p[k]);
                    } else {
                        assert(s[s.len() - 1].start <= b < s[s.len() - 1].end);
                    }
                }
                if covers(s, b) {
                    let k = choose|k: int| 0 <= k < s.len() && (#[trigger] s[k]).start <= b < s[k].end;
                    if k < s.len() - 1 {
                        assert(p[k] == s[k]);
                        assert(covers(p, b));
                        let i = choose|i: int| 0 <= i < m.len() && (#[trigger] m[i]).start <= b < m[i].end;
                        assert(r[i] == m[i]);
                    } else {
                        assert(r[r.len() - 1] == iv);
                    }
                }
            }
        }
    }
}

/// Merges intervals sorted by start.
fn merge_sorted(sorted: &Vec<Interval>) -> (merged: Vec<Interval>)
    ensures
        merged@ == merge_spec(sorted@),
{
    let mut merged: Vec<Interval> = Vec::new();
    let mut i: usize = 0;
    while i < sorted.len()
        invariant
            i <= sorted@.len(),
            merged@ == merge_spec(sorted@.subrange(0, i as int)),
        decreases sorted@.len() - i,
    {
        let iv = sorted[i];
        proof {
            assert(sorted@.subrange(0, i + 1).drop_last() == sorted@.subrange(0, i as int));
            assert(sorted@.subrange(0, i + 1).last() == iv);
        }
        let n = merged.len();
        if n > 0 && iv.start <= merged[n - 1].end {
            let last = merged[n - 1];
            let end = if last.end >= iv.end {
                last.end
            } else {
                iv.end
            };
            merged.set(n - 1, Interval { start: last.start, end });
            proof {
                assert(merged@ == merge_spec(sorted@.subrange(0, i as int)).drop_last().push(
                    Interval { start: last.start, end },
                ));
            }
        } else {
            merged.push(iv);
        }
        i = i + 1;
    }
    assert(sorted@.subrange(0, sorted@.len() as int) == sorted@);
    merged
}

/// The byte ranges of the outermost danger nodes (syntax errors, comments
/// and string literals), in table order.
fn zone_intervals(tree: &SyntaxTree) -> (out: Vec<Interval>)
    requires
        tree.well_formed(),
    ensures
        out@ == zone_roots(tree.nodes@, tree.nodes@.len() as int),
{
    let ghost ns = tree.nodes@;
    let mut out: Vec<Interval> = Vec::new();
    // covered[i]: node i is a danger node or lies under one.
    let mut covered: Vec<bool> = Vec::new();
    let mut i: usize = 0;
    while i < tree.nodes.len()
        invariant
            ns == tree.nodes@,
            crate::syntax::nodes_ok(ns),
            i <= ns.len(),
            covered@.len() == i,
            forall|k: int|
                0 <= k < i ==> #[trigger] covered@[k] == (is_danger(ns[k]) || under_danger(ns, k)),
            out@ == zone_roots(ns, i as int),
        decreases ns.len() - i,
    {
        let node = tree.nodes[i];
        assert(crate::syntax::node_ok(ns, i as int));
        let above = match node.parent {
            Some(p) => covered[p],
            None => false,
        };
        assert(above == under_danger(ns, i as int));
        let danger = node.error || node.kind == NodeKind::Comment || node.kind
            == NodeKind::StringLiteral;
        if danger && !above {
            out.push(Interval { start: node.start, end: node.end });
        }
        covered.push(danger || above);
        i = i + 1;
    }
    out
}

/// Byte `b` lies in some danger node of the table.
pub open spec fn in_danger_node(ns: Seq<SyntaxNode>, b: int) -> bool {
    exists|i: int| 0 <= i < ns.len() && is_danger(#[trigger] ns[i]) && ns[i].start <= b < ns[i].end
}

/// Some danger node of the table starts at `x`.
pub open spec fn danger_start(ns: Seq<SyntaxNode>, x: usize) -> bool {
    exists|i: int| 0 <= i < ns.len() && is_danger(#[trigger] ns[i]) && ns[i].start == x
}

/// Some danger node of the table ends at `x`.
pub open spec fn danger_end(ns: Seq<SyntaxNode>, x: usize) -> bool {
    exists|i: int| 0 <= i < ns.len() && is_danger(#[trigger] ns[i]) && ns[i].end == x
}

/// `iv` is the byte range of a danger node of the table.
pub open spec fn danger_range(ns: Seq<SyntaxNode>, iv: Interval) -> bool {
    exists|i: int|
        0 <= i < ns.len() && is_danger(#[trigger] ns[i]) && ns[i].start == iv.start && ns[i].end
            == iv.end
}

/// Some interval of `s` starts at `x`.
pub open spec fn some_start(s: Seq<Interval>, x: usize) -> bool {
    exists|i: int| 0 <= i < s.len() && (#[trigger] s[i]).start == x
}

/// Some interval of `s` ends at `x`.
pub open spec fn some_end(s: Seq<Interval>, x: usize) -> bool {
    exists|i: int| 0 <= i < s.len() && (#[trigger] s[i]).end == x
}

/// Every range among the first `n` outermost danger ranges is a danger node's.
proof fn lemma_zone_roots_from_nodes(ns: Seq<SyntaxNode>, n: int)
    ensures
        forall|k: int|
            0 <= k < zone_roots(ns, n).len() ==> danger_range(ns, #[trigger] zone_roots(ns, n)[k]),
    decreases n,
{
    if 0 < n <= ns.len() {
        lemma_zone_roots_from_nodes(ns, n - 1);
        let prev = zone_roots(ns, n - 1);
        assert forall|k: int| 0 <= k < zone_roots(ns, n).len() implies danger_range(
            ns,
            #[trigger] zone_roots(ns, n)[k],
        ) by {
            if k < prev.len() {
                assert(zone_roots(ns, n)[k] == prev[k]);
            } else {
                assert(is_danger(ns[n - 1]));
            }
        }
    }
}

/// A danger node that lies under no danger node gives one of the outermost
/// danger ranges.
proof fn lemma_root_in_zone_roots(ns: Seq<SyntaxNode>, i: int, n: int)
    requires
        0 <= i < n <= ns.len(),
        is_danger(ns[i]),
        !under_danger(ns, i),
    ensures
        zone_roots(ns, n).contains(Interval { start: ns[i].start, end: ns[i].end }),
    decreases n,
{
    let iv = Interval { start: ns[i].start, end: ns[i].end };
    if i == n - 1 {
        assert(zone_roots(ns, n).last() == iv);
    } else {
        lemma_root_in_zone_roots(ns, i, n - 1);
        let prev = zone_roots(ns, n - 1);
        let k = choose|k: int| 0 <= k < prev.len() && prev[k] == iv;
        assert(zone_roots(ns, n)[k] == prev[k]);
    }
}

/// The bytes of a danger node, or of a node under one, lie in an outermost
/// danger range.
proof fn lemma_danger_bytes_covered(ns: Seq<SyntaxNode>, i: int, b: int)
    requires
        crate::syntax::nodes_ok(ns),
        0 <= i < ns.len(),
        is_danger(ns[i]) || under_danger(ns, i),
        ns[i].start <= b < ns[i].end,
    ensures
        covers(zone_roots(ns, ns.len() as int), b),
    decreases i,
{
    if !under_danger(ns, i) {
        lemma_root_in_zone_roots(ns, i, ns.len() as int);
        let z = zone_roots(ns, ns.len() as int);
        let k = choose|k: int| 0 <= k < z.len() && z[k] == Interval { start: ns[i].start, end: ns[i].end };
        assert(z[k].start <= b < z[k].end);
    } else {
        assert(crate::syntax::node_ok(ns, i));
        let p = ns[i].parent.unwrap();
        lemma_danger_bytes_covered(ns, p as int, b);
    }
}

/// The merged intervals start where some interval starts and end where some
/// interval ends.
proof fn lemma_merge_bounds(s: Seq<Interval>)
    ensures
        forall|k: int|
            0 <= k < merge_spec(s).len() ==> some_start(s, (#[trigger] merge_spec(s)[k]).start)
                && some_end(s, merge_spec(s)[k].end),
    decreases s.len(),
{
    if s.len() > 0 {
        let t = s.drop_last();
        lemma_merge_bounds(t);
        let m = merge_spec(t);
        let iv = s.last();
        assert forall|x: usize| some_start(t, x) implies some_start(s, x) by {
            let i = choose|i: int| 0 <= i < t.len() && (#[trigger] t[i]).start == x;
            assert(s[i] == t[i]);
        }
        assert forall|x: usize| some_end(t, x) implies some_end(s, x) by {
            let i = choose|i: int| 0 <= i < t.len() && (#[trigger] t[i]).end == x;
            assert(s[i] == t[i]);
        }
        assert(some_start(s, iv.start)) by {
            assert(s[s.len() - 1] == iv);
        }
        assert(some_end(s, iv.end)) by {
            assert(s[s.len() - 1] == iv);
        }
        assert forall|k: int| 0 <= k < merge_spec(s).len() implies some_start(
            s,
            (#[trigger] merge_spec(s)[k]).start,
        ) && some_end(s, merge_spec(s)[k].end) by {
            if m.len() > 0 && iv.start <= m.last().end {
                if k < m.len() - 1 {
                    assert(merge_spec(s)[k] == m[k]);
                } else {
                    assert(some_start(t, m[m.len() - 1].start));
                    assert(some_end(t, m[m.len() - 1].end));
                }
            } else {
                if k < m.len() {
                    assert(merge_spec(s)[k] == m[k]);
                }
            }
        }
    }
}

/// `d` is what `collect` makes of the node table `ns`: the ranges of the
/// outermost danger nodes, sorted by start and merged.
pub open spec fn zones_of(ns: Seq<SyntaxNode>, d: Seq<Interval>) -> bool {
    exists|s: Seq<Interval>|
        s.to_multiset() == zone_roots(ns, ns.len() as int).to_multiset()
            && vstd::relations::sorted_by(s, |a: Interval, b: Interval| interval_le(a, b))
            && starts_sorted(s) && d == merge_spec(s)
}

/// The danger zones of a table are determined by the table.
pub proof fn lemma_zones_unique(ns: Seq<SyntaxNode>, d1: Seq<Interval>, d2: Seq<Interval>)
    requires
        zones_of(ns, d1),
        zones_of(ns, d2),
    ensures
        d1 == d2,
{
    let le = |a: Interval, b: Interval| interval_le(a, b);
    let s1 = choose|s: Seq<Interval>|
        s.to_multiset() == zone_roots(ns, ns.len() as int).to_multiset()
            && vstd::relations::sorted_by(s, |a: Interval, b: Interval| interval_le(a, b))
            && starts_sorted(s) && d1 == merge_spec(s);
    let s2 = choose|s: Seq<Interval>|
        s.to_multiset() == zone_roots(ns, ns.len() as int).to_multiset()
            && vstd::relations::sorted_by(s, |a: Interval, b: Interval| interval_le(a, b))
            && starts_sorted(s) && d2 == merge_spec(s);
    lemma_interval_le_total();
    vstd::seq_lib::lemma_sorted_unique(s1, s2, le);
}

/// The danger zones of a tree: the byte ranges of its outermost syntax errors,
/// comments and string literals, sorted and with touching or overlapping
/// ranges merged.
pub fn collect(tree: &SyntaxTree) -> (merged: Vec<Interval>)
    requires
        tree.well_formed(),
    ensures
        zones_of(tree.nodes@, merged@),
        sorted_disjoint(merged@),
        sorted_intervals(merged@),
        forall|b: int|
            covers(merged@, b) <==> covers(zone_roots(tree.nodes@, tree.nodes@.len() as int), b),
        forall|b: int| covers(merged@, b) <==> in_danger_node(tree.nodes@, b),
        forall|k: int|
            0 <= k < merged@.len() ==> danger_start(tree.nodes@, (#[trigger] merged@[k]).start)
                && danger_end(tree.nodes@, merged@[k].end),
{
    let mut out = zone_intervals(tree);
    let ghost raw = out@;
    proof {
        lemma_zone_roots_ordered(tree.nodes@, tree.nodes@.len() as int);
    }
    sort_by_start(&mut out);
    let ghost sorted = out@;
    proof {
        broadcast use vstd::seq_lib::group_to_multiset_ensures;

        assert(all_ordered(sorted)) by {
            assert forall|i: int| 0 <= i < sorted.len() implies (#[trigger] sorted[i]).start
                <= sorted[i].end by {
                assert(sorted.to_multiset().count(sorted[i]) > 0);
                assert(raw.contains(sorted[i]));
            }
        }
        assert forall|b: int| covers(sorted, b) <==> covers(raw, b) by {
            if covers(sorted, b) {
                let i = choose|i: int| 0 <= i < sorted.len() && (#[trigger] sorted[i]).start <= b
                    < sorted[i].end;
                assert(sorted.to_multiset().count(sorted[i]) > 0);
                assert(raw.contains(sorted[i]));
            }
            if covers(raw, b) {
                let i = choose|i: int| 0 <= i < raw.len() && (#[trigger] raw[i]).start <= b
                    < raw[i].end;
                assert(raw.to_multiset().count(raw[i]) > 0);
                assert(sorted.contains(raw[i]));
            }
        }
        lemma_merge(sorted);
    }
    let merged = merge_sorted(&out);
    proof {
        lemma_sorted_disjoint_sorted(merged@);
        let ns = tree.nodes@;
        let z = zone_roots(ns, ns.len() as int);
        lemma_zone_roots_from_nodes(ns, ns.len() as int);
        assert forall|b: int| covers(merged@, b) <==> in_danger_node(ns, b) by {
            if covers(z, b) {
                let k = choose|k: int| 0 <= k < z.len() && (#[trigger] z[k]).start <= b < z[k].end;
                assert(danger_range(ns, z[k]));
            }
            if in_danger_node(ns, b) {
                let i = choose|i: int|
                    0 <= i < ns.len() && is_danger(#[trigger] ns[i]) && ns[i].start <= b < ns[i].end;
                lemma_danger_bytes_covered(ns, i, b);
            }
        }
        lemma_merge_bounds(sorted);
        assert forall|k: int| 0 <= k < merged@.len() implies danger_start(
            ns,
            (#[trigger] merged@[k]).start,
        ) && danger_end(ns, merged@[k].end) by {
            let i = choose|i: int| 0 <= i < sorted.len() && (#[trigger] sorted[i]).start == merged@[k].start;
            let j = choose|j: int| 0 <= j < sorted.len() && (#[trigger] sorted[j]).end == merged@[k].end;
            assert(sorted.to_multiset().count(sorted[i]) > 0);
            assert(z.contains(sorted[i]));
            assert(sorted.to_multiset().count(sorted[j]) > 0);
            assert(z.contains(sorted[j]));
            let ki = choose|ki: int| 0 <= ki < z.len() && z[ki] == sorted[i];
            let kj = choose|kj: int| 0 <= kj < z.len() && z[kj] == sorted[j];
            assert(danger_range(ns, z[ki]));
            assert(danger_range(ns, z[kj]));
        }
    }
    merged
}

/// Disjoint ordered intervals have sorted starts and sorted ends.
pub proof fn lemma_sorted_disjoint_sorted(iv: Seq<Interval>)
    requires
        sorted_disjoint(iv),
    ensures
        sorted_intervals(iv),
{
    assert forall|i: int, j: int| 0 <= i <= j < iv.len() implies iv[i].start <= iv[j].start
        && iv[i].end <= iv[j].end by {
        if i < j {
            assert(iv[i].start <= iv[i].end);
            assert(iv[j].start <= iv[j].end);
        }
    }
}

/// The danger ranges of a well-formed table are not reversed.
proof fn lemma_zone_roots_ordered(ns: Seq<SyntaxNode>, n: int)
    requires
        crate::syntax::nodes_ok(ns),
    ensures
        all_ordered(zone_roots(ns, n)),
    decreases n,
{
    if 0 < n <= ns.len() {
        lemma_zone_roots_ordered(ns, n - 1);
        assert(crate::syntax::node_ok(ns, n - 1));
    }
}

} // verus!
