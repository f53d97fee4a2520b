//! Laws of the lines a text is cut into, and of looking lines up.

use crate::line_map::{
    continues, ended_by, grouped, is_newline, lemma_counts_bounded, lemma_ended_by, lemma_line_len_bounds, lemma_started_before, line_len,
    lines_of, lookup_outcome, ordered, probe_end, probe_start, started_before, LineMapError, LineSpan,
};
use crate::location::{Location, Offset};
use vstd::prelude::*;

verus! {

/// Line `k` ends where line `k + 1` starts.
pub open spec fn adjacent(ls: Seq<LineSpan>, k: int) -> bool {
    ls[k].end == ls[k + 1].start
}

/// The lines cover `[a, e)` exactly: each is nonempty, each ends where the
/// next starts, the first starts at `a` and the last ends at `e`.
pub open spec fn tiles(ls: Seq<LineSpan>, a: int, e: int) -> bool {
    &&& ordered(ls)
    &&& forall|k: int| 0 <= k < ls.len() - 1 ==> #[trigger] adjacent(ls, k)
    &&& if ls.len() == 0 {
        a == e
    } else {
        ls[0].start == a && ls.last().end == e
    }
}

/// Line `k` holds byte `p`.
pub open spec fn holds(ls: Seq<LineSpan>, k: int, p: int) -> bool {
    0 <= k < ls.len() && ls[k].start <= p < ls[k].end
}

/// Within the first line of a text, only its last byte can be a newline,
/// and it is one unless the line runs to the end of the text.
pub proof fn lemma_line_len_content(b: Seq<u8>)
    ensures
        forall|q: int| 0 <= q < line_len(b) - 1 ==> !is_newline(#[trigger] b[q]),
        0 < line_len(b) < b.len() ==> is_newline(b[line_len(b) - 1]),
        b.len() > 0 && line_len(b) == b.len() ==> (is_newline(b[b.len() - 1]) || forall|q: int|
            0 <= q < b.len() ==> !is_newline(#[trigger] b[q])),
    decreases b.len(),
{
    lemma_line_len_bounds(b);
    if b.len() > 0 && !is_newline(b[0]) {
        let t = b.drop_first();
        lemma_line_len_content(t);
        lemma_line_len_bounds(t);
        assert forall|q: int| 0 <= q < line_len(b) - 1 implies !is_newline(#[trigger] b[q]) by {
            if q > 0 {
                assert(b[q] == t[q - 1]);
            }
        }
        if 0 < line_len(b) < b.len() {
            assert(b[line_len(b) - 1] == t[line_len(t) - 1]);
        }
        if line_len(b) == b.len() && !is_newline(b[b.len() - 1]) && t.len() > 0 {
            assert(b[b.len() - 1] == t[t.len() - 1]);
            assert forall|q: int| 0 <= q < b.len() implies !is_newline(#[trigger] b[q]) by {
                if q > 0 {
                    assert(b[q] == t[q - 1]);
                }
            }
        }
    }
}

/// The lines of a text cover it from `start` on without gaps or overlap;
/// they are numbered consecutively from `number` and record `source`.
pub proof fn lemma_lines_tile(b: Seq<u8>, start: nat, number: nat, source: nat)
    ensures
        tiles(lines_of(b, start, number, source), start as int, (start + b.len()) as int),
        lines_of(b, start, number, source).len() <= b.len(),
        forall|k: int|
            0 <= k < lines_of(b, start, number, source).len() ==> (#[trigger] lines_of(
                b,
                start,
                number,
                source,
            )[k]).number == number + k && lines_of(b, start, number, source)[k].source == source,
    decreases b.len(),
{
    let ls = lines_of(b, start, number, source);
    if b.len() > 0 {
        lemma_line_len_bounds(b);
        let k = line_len(b);
        let rest = b.skip(k as int);
        let r = lines_of(rest, start + k, number + 1, source);
        lemma_lines_tile(rest, start + k, number + 1, source);
        let first = LineSpan { start, end: start + k, number, source };
        assert(ls == seq![first] + r);
        assert(ls.len() == r.len() + 1);
        assert forall|j: int| 0 <= j < r.len() implies #[trigger] r[j].start >= start + k by {
            if j > 0 {
                assert(r[0].end <= r[j].start);
            }
        }
        assert forall|i: int, j: int| 0 <= i < j < ls.len() implies #[trigger] ls[i].end
            <= #[trigger] ls[j].start by {
            if i > 0 {
                assert(ls[i] == r[i - 1] && ls[j] == r[j - 1]);
            } else {
                assert(ls[j] == r[j - 1]);
            }
        }
        assert forall|j: int| 0 <= j < ls.len() - 1 implies #[trigger] adjacent(ls, j) by {
            if j > 0 {
                assert(adjacent(r, j - 1));
                assert(ls[j] == r[j - 1] && ls[j + 1] == r[j]);
            } else {
                assert(ls[1] == r[0]);
            }
        }
        assert forall|j: int| 0 <= j < ls.len() implies #[trigger] ls[j].number == number + j
            && ls[j].source == source && ls[j].start < ls[j].end by {
            if j > 0 {
                assert(ls[j] == r[j - 1]);
            }
        }
        if r.len() > 0 {
            assert(ls.last() == r.last());
        }
    }
}

/// Only the last byte of a line can be a newline, and every line but one
/// that reaches the end of the text ends with one: lines own their newline.
pub proof fn lemma_lines_own_newline(b: Seq<u8>, start: nat, number: nat, source: nat)
    ensures
        forall|k: int, p: int|
            #![trigger lines_of(b, start, number, source)[k], b[p - start]]
            0 <= k < lines_of(b, start, number, source).len() && lines_of(
                b,
                start,
                number,
                source,
            )[k].start <= p < lines_of(b, start, number, source)[k].end - 1 ==> !is_newline(
                b[p - start],
            ),
        forall|k: int|
            0 <= k < lines_of(b, start, number, source).len() - 1 ==> is_newline(
                b[#[trigger] lines_of(b, start, number, source)[k].end - 1 - start],
            ),
    decreases b.len(),
{
    let ls = lines_of(b, start, number, source);
    if b.len() > 0 {
        lemma_line_len_bounds(b);
        lemma_line_len_content(b);
        let k = line_len(b);
        let rest = b.skip(k as int);
        let r = lines_of(rest, start + k, number + 1, source);
        lemma_lines_own_newline(rest, start + k, number + 1, source);
        lemma_lines_tile(rest, start + k, number + 1, source);
        let first = LineSpan { start, end: start + k, number, source };
        assert(ls == seq![first] + r);
        assert forall|j: int, p: int|
            #![trigger ls[j], b[p - start]]
            0 <= j < ls.len() && ls[j].start <= p < ls[j].end - 1 implies !is_newline(
                b[p - start],
            ) by {
            if j > 0 {
                assert(ls[j] == r[j - 1]);
                assert(r[j - 1].start >= start + k) by {
                    if j > 1 {
                        assert(r[0].end <= r[j - 1].start);
                    }
                }
                assert(rest[p - (start + k)] == b[p - start]);
                assert(r[j - 1].start <= p < r[j - 1].end - 1);
            } else {
                assert(b[p - start] == b[p - start]);
            }
        }
        assert forall|j: int| 0 <= j < ls.len() - 1 implies is_newline(
            b[#[trigger] ls[j].end - 1 - start],
        ) by {
            if j > 0 {
                assert(ls[j] == r[j - 1]);
                assert(r[j - 1].start >= start + k) by {
                    if j > 1 {
                        assert(r[0].end <= r[j - 1].start);
                    }
                }
                assert(r[j - 1].end - 1 - (start + k) >= 0);
                assert(rest[r[j - 1].end - 1 - (start + k)] == b[ls[j].end - 1 - start]);
            } else {
                assert(r.len() > 0);
                assert(k < b.len());
            }
        }
    }
}

/// Two tilings side by side tile the union of their ranges.
pub proof fn lemma_tiles_concat(x: Seq<LineSpan>, y: Seq<LineSpan>, a: int, m: int, e: int)
    requires
        tiles(x, a, m),
        tiles(y, m, e),
    ensures
        tiles(x + y, a, e),
{
    let z = x + y;
    assert forall|j: int| 0 <= j < y.len() implies #[trigger] y[j].start >= m by {
        if j > 0 {
            assert(y[0].end <= y[j].start);
        }
    }
    assert forall|j: int| 0 <= j < x.len() implies #[trigger] x[j].end <= m by {
        if j < x.len() - 1 {
            assert(x[j].end <= x[x.len() - 1].start);
        }
    }
    assert forall|i: int, j: int| 0 <= i < j < z.len() implies #[trigger] z[i].end
        <= #[trigger] z[j].start by {
        if j < x.len() {
            assert(z[i] == x[i] && z[j] == x[j]);
        } else if i >= x.len() {
            assert(z[i] == y[i - x.len()] && z[j] == y[j - x.len()]);
        } else {
            assert(z[i] == x[i] && z[j] == y[j - x.len()]);
        }
    }
    assert forall|j: int| 0 <= j < z.len() implies #[trigger] z[j].start < z[j].end by {
        if j < x.len() {
            assert(z[j] == x[j]);
        } else {
            assert(z[j] == y[j - x.len()]);
        }
    }
    assert forall|j: int| 0 <= j < z.len() - 1 implies #[trigger] adjacent(z, j) by {
        if j < x.len() - 1 {
            assert(adjacent(x, j));
            assert(z[j] == x[j] && z[j + 1] == x[j + 1]);
        } else if j >= x.len() {
            assert(adjacent(y, j - x.len()));
            assert(z[j] == y[j - x.len()] && z[j + 1] == y[j + 1 - x.len()]);
        } else {
            assert(z[j] == x[j] && z[j + 1] == y[0]);
        }
    }
    if x.len() == 0 {
        assert(z =~= y);
    } else if y.len() == 0 {
        assert(z =~= x);
    } else {
        assert(z[0] == x[0]);
        assert(z.last() == y.last());
    }
}

/// In a tiling every byte of the covered range lies in exactly one line.
pub proof fn lemma_tiling_holds(ls: Seq<LineSpan>, a: int, e: int, p: int) -> (k: int)
    requires
        tiles(ls, a, e),
        a <= p < e,
    ensures
        holds(ls, k, p),
        forall|j: int| #[trigger] holds(ls, j, p) ==> j == k,
    decreases ls.len(),
{
    let n = ls.len();
    if p >= ls[n - 1].start {
        assert forall|j: int| #[trigger] holds(ls, j, p) implies j == n - 1 by {
            if j < n - 1 {
                assert(ls[j].end <= ls[n - 1].start);
            }
        }
        n - 1
    } else {
        let t = ls.drop_last();
        assert(adjacent(ls, n - 2));
        assert(tiles(t, a, ls[n - 2].end as int)) by {
            assert forall|j: int| 0 <= j < t.len() - 1 implies #[trigger] adjacent(t, j) by {
                assert(adjacent(ls, j));
            }
        }
        let k = lemma_tiling_holds(t, a, ls[n - 2].end as int, p);
        assert forall|j: int| #[trigger] holds(ls, j, p) implies j == k by {
            if j < n - 1 {
                assert(holds(t, j, p));
            }
        }
        k
    }
}

/// In a tiling, the first line that does not end at or before byte `p`
/// is the one holding it.
pub proof fn lemma_first_unended_holds(ls: Seq<LineSpan>, a: int, e: int, p: int)
    requires
        tiles(ls, a, e),
        a <= p < e,
    ensures
        holds(ls, ended_by(ls, p) as int, p),
{
    let f = lemma_tiling_holds(ls, a, e, p);
    assert forall|k: int| 0 <= k < f implies #[trigger] ls[k].end <= p by {
        assert(ls[k].end <= ls[f].start);
    }
    assert forall|k: int| f <= k < ls.len() implies #[trigger] ls[k].end > p by {
        if k > f {
            assert(ls[f].end <= ls[k].start);
        }
    }
    lemma_ended_by(ls, p, f);
}

/// Looking up a span that lies inside a tiling finds the line holding its
/// first byte through the line holding its last byte.
pub proof fn lemma_lookup_in_tiling(ls: Seq<LineSpan>, a: int, e: int, loc: Location) -> (r: (int, int))
    requires
        tiles(ls, a, e),
        a <= probe_start(loc),
        probe_start(loc) < probe_end(loc) <= e,
    ensures
        ended_by(ls, probe_start(loc)) == r.0,
        started_before(ls, probe_end(loc)) == r.1,
        r.0 < r.1,
        holds(ls, r.0, probe_start(loc)),
        holds(ls, r.1 - 1, probe_end(loc) - 1),
{
    let s = probe_start(loc);
    let t = probe_end(loc);
    let f = lemma_tiling_holds(ls, a, e, s);
    let g = lemma_tiling_holds(ls, a, e, t - 1);
    assert forall|k: int| 0 <= k < f implies #[trigger] ls[k].end <= s by {
        assert(ls[k].end <= ls[f].start);
    }
    assert forall|k: int| f <= k < ls.len() implies #[trigger] ls[k].end > s by {
        if k > f {
            assert(ls[f].end <= ls[k].start);
        }
    }
    lemma_ended_by(ls, s, f);
    assert forall|k: int| 0 <= k < g + 1 implies #[trigger] ls[k].start < t by {
        if k < g {
            assert(ls[k].end <= ls[g].start);
        }
    }
    assert forall|k: int| g + 1 <= k < ls.len() implies #[trigger] ls[k].start >= t by {
        assert(ls[g].end <= ls[k].start);
    }
    lemma_started_before(ls, t, g + 1);
    if g < f {
        assert(ls[g].end <= ls[f].start);
    }
    (f, g + 1)
}

/// Looking up a span inside one text finds the lines of that text from the
/// one holding its first byte to the one holding its last byte. An empty
/// span stands for the byte before it.
pub proof fn lemma_lookup_text(b: Seq<u8>, start: nat, loc: Location) -> (r: (int, int))
    requires
        loc.lo() <= loc.hi(),
        start <= probe_start(loc),
        probe_end(loc) <= start + b.len(),
    ensures
        lookup_outcome(lines_of(b, start, 1, start), loc) == Ok::<(int, int), LineMapError>(r),
        holds(lines_of(b, start, 1, start), r.0, probe_start(loc)),
        holds(lines_of(b, start, 1, start), r.1 - 1, probe_end(loc) - 1),
{
    let ls = lines_of(b, start, 1, start);
    lemma_lines_tile(b, start, 1, start);
    let r = lemma_lookup_in_tiling(ls, start as int, (start + b.len()) as int, loc);
    assert(ls[r.0].source == start && ls[r.1 - 1].source == start);
    r
}

/// Looking up a span whose first byte lies at or past the end of a tiling
/// finds no line, and says which byte it looked for.
pub proof fn lemma_lookup_outside(ls: Seq<LineSpan>, a: int, e: int, loc: Location)
    requires
        tiles(ls, a, e),
        e <= probe_start(loc),
    ensures
        lookup_outcome(ls, loc) == Err::<(int, int), LineMapError>(
            LineMapError::LinesNotFound(Offset(probe_start(loc) as u32)),
        ),
{
    let s = probe_start(loc);
    assert forall|k: int| 0 <= k < ls.len() implies #[trigger] ls[k].end <= s by {
        if k < ls.len() - 1 {
            assert(ls[k].end <= ls[ls.len() - 1].start);
        }
    }
    lemma_ended_by(ls, s, ls.len() as int);
    lemma_counts_bounded(ls, s, probe_end(loc));
}

/// The lines of a text placed after grouped, ordered lines keep them grouped:
/// its lines all record its start, follow each other and are numbered from one.
pub proof fn lemma_grouped_extend(ls: Seq<LineSpan>, b: Seq<u8>, start: nat)
    requires
        ordered(ls),
        grouped(ls),
        ls.len() > 0 ==> ls.last().end <= start,
    ensures
        grouped(ls + lines_of(b, start, 1, start)),
{
    let n = lines_of(b, start, 1, start);
    let z = ls + n;
    lemma_lines_tile(b, start, 1, start);
    assert forall|k: int| 0 <= k < n.len() implies #[trigger] n[k].start >= start by {
        if k > 0 {
            assert(n[0].end <= n[k].start);
        }
    }
    assert forall|k: int| 0 <= k < ls.len() implies #[trigger] ls[k].source < start by {
        assert(ls[k].source <= ls[k].start);
        if k < ls.len() - 1 {
            assert(ls[k].end <= ls[ls.len() - 1].start);
        }
    }
    assert forall|k: int| 0 <= k < z.len() implies #[trigger] z[k].source <= z[k].start by {
        if k < ls.len() {
            assert(z[k] == ls[k]);
        } else {
            assert(z[k] == n[k - ls.len()]);
        }
    }
    assert forall|i: int, j: int| 0 <= i < j < z.len() implies #[trigger] z[i].source
        <= #[trigger] z[j].source by {
        if j < ls.len() {
            assert(z[i] == ls[i] && z[j] == ls[j]);
        } else if i < ls.len() {
            assert(z[i] == ls[i] && z[j] == n[j - ls.len()]);
        } else {
            assert(z[i] == n[i - ls.len()] && z[j] == n[j - ls.len()]);
        }
    }
    assert forall|k: int| 0 <= k < z.len() - 1 implies #[trigger] continues(z, k) by {
        if k + 1 < ls.len() {
            assert(z[k] == ls[k] && z[k + 1] == ls[k + 1]);
            assert(continues(ls, k));
        } else if k + 1 == ls.len() {
            assert(z[k] == ls[k] && z[k + 1] == n[0]);
        } else {
            assert(z[k] == n[k - ls.len()] && z[k + 1] == n[k + 1 - ls.len()]);
            assert(adjacent(n, k - ls.len()));
        }
    }
}

/// Number of newlines in `b`.
pub open spec fn newlines_in(b: Seq<u8>) -> nat
    decreases b.len(),
{
    if b.len() == 0 {
        0
    } else {
        (if is_newline(b[0]) {
            1nat
        } else {
            0nat
        }) + newlines_in(b.drop_first())
    }
}

/// Newlines of two texts side by side add up.
pub proof fn lemma_newlines_concat(a: Seq<u8>, c: Seq<u8>)
    ensures
        newlines_in(a + c) == newlines_in(a) + newlines_in(c),
    decreases a.len(),
{
    if a.len() == 0 {
        assert(a + c =~= c);
    } else {
        assert((a + c).drop_first() =~= a.drop_first() + c);
        assert((a + c)[0] == a[0]);
        lemma_newlines_concat(a.drop_first(), c);
    }
}

/// A text without a newline counts none.
pub proof fn lemma_no_newlines(a: Seq<u8>)
    requires
        forall|q: int| 0 <= q < a.len() ==> !is_newline(#[trigger] a[q]),
    ensures
        newlines_in(a) == 0,
    decreases a.len(),
{
    if a.len() > 0 {
        let t = a.drop_first();
        assert forall|q: int| 0 <= q < t.len() implies !is_newline(#[trigger] t[q]) by {
            assert(t[q] == a[q + 1]);
        }
        lemma_no_newlines(t);
    }
}

/// A first line that is not the whole text holds exactly one newline.
pub proof fn lemma_first_line_newlines(b: Seq<u8>)
    requires
        line_len(b) < b.len(),
    ensures
        newlines_in(b.take(line_len(b) as int)) == 1,
{
    lemma_line_len_bounds(b);
    lemma_line_len_content(b);
    let m = line_len(b) as int;
    let head = b.take(m - 1);
    assert forall|q: int| 0 <= q < head.len() implies !is_newline(#[trigger] head[q]) by {
        assert(head[q] == b[q]);
    }
    lemma_no_newlines(head);
    let last = seq![b[m - 1]];
    assert(b.take(m) =~= head + last);
    lemma_newlines_concat(head, last);
    assert(last.drop_first() =~= Seq::<u8>::empty());
    assert(newlines_in(Seq::<u8>::empty()) == 0);
    assert(is_newline(last[0]));
    assert(newlines_in(last) == 1);
}

/// Each line is numbered by the newlines before it: its number is the first
/// number plus the newlines of the text before the line.
pub proof fn lemma_line_numbers_count_newlines(b: Seq<u8>, start: nat, number: nat, source: nat)
    ensures
        forall|k: int|
            0 <= k < lines_of(b, start, number, source).len() ==> (#[trigger] lines_of(
                b,
                start,
                number,
                source,
            )[k]).number == number + newlines_in(
                b.take(lines_of(b, start, number, source)[k].start - start),
            ),
    decreases b.len(),
{
    let ls = lines_of(b, start, number, source);
    if b.len() > 0 {
        lemma_line_len_bounds(b);
        let m = line_len(b);
        let rest = b.skip(m as int);
        let r = lines_of(rest, start + m, number + 1, source);
        lemma_line_numbers_count_newlines(rest, start + m, number + 1, source);
        lemma_lines_tile(rest, start + m, number + 1, source);
        assert(ls == seq![LineSpan { start, end: start + m, number, source }] + r);
        assert forall|k: int| 0 <= k < ls.len() implies (#[trigger] ls[k]).number == number
            + newlines_in(b.take(ls[k].start - start)) by {
            if k == 0 {
                assert(b.take(0) =~= Seq::<u8>::empty());
            } else {
                let j = k - 1;
                assert(ls[k] == r[j]);
                assert(r[j].start >= start + m) by {
                    if j > 0 {
                        assert(r[0].end <= r[j].start);
                    }
                }
                assert(r[j].end <= start + m + rest.len()) by {
                    if j < r.len() - 1 {
                        assert(r[j].end <= r[r.len() - 1].start);
                    }
                }
                let x = r[j].start - start - m;
                assert(b.take(m + x) =~= b.take(m as int) + rest.take(x));
                lemma_newlines_concat(b.take(m as int), rest.take(x));
                lemma_first_line_newlines(b);
            }
        }
    }
}

} // verus!
