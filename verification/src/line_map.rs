//! The lines of every loaded source, laid out over the global byte offsets.

use crate::location::{location_text, Location, Offset};
use crate::text::{decimal, decimal_string};
use crate::tiling::{lemma_grouped_extend, lemma_line_numbers_count_newlines, newlines_in};
use vstd::prelude::*;
use vstd::slice::slice_subrange;
use vstd::string::*;

verus! {

/// The bytes a line covers, `[start, end)`, its number within its source,
/// and the offset at which its source begins.
pub struct LineSpan {
    pub start: nat,
    pub end: nat,
    pub number: nat,
    pub source: nat,
}

/// The byte `\n`.
pub open spec fn is_newline(b: u8) -> bool {
    b == 10u8
}

/// Number of bytes of the first line of `b`: up to and including the first
/// newline, or all of `b` when it holds none.
pub open spec fn line_len(b: Seq<u8>) -> nat
    decreases b.len(),
{
    if b.len() == 0 {
        0
    } else if is_newline(b[0]) {
        1
    } else {
        1 + line_len(b.drop_first())
    }
}

/// A nonempty text has a first line of at least one byte.
pub proof fn lemma_line_len_bounds(b: Seq<u8>)
    ensures
        b.len() == 0 ==> line_len(b) == 0,
        b.len() > 0 ==> 1 <= line_len(b) <= b.len(),
    decreases b.len(),
{
    if b.len() > 0 && !is_newline(b[0]) {
        lemma_line_len_bounds(b.drop_first());
    }
}

/// The lines of the text `b` placed at byte `start`, numbered from `number`,
/// each recording `source` as the start of its source.
pub open spec fn lines_of(b: Seq<u8>, start: nat, number: nat, source: nat) -> Seq<LineSpan>
    decreases b.len(),
{
    if b.len() == 0 {
        Seq::empty()
    } else {
        let k = line_len(b);
        proof {
            lemma_line_len_bounds(b);
        }
        seq![LineSpan { start, end: start + k, number, source }] + lines_of(
            b.skip(k as int),
            start + k,
            number + 1,
            source,
        )
    }
}

/// Lines that are nonempty and come in increasing order without overlap.
pub open spec fn ordered(ls: Seq<LineSpan>) -> bool {
    &&& forall|k: int| 0 <= k < ls.len() ==> #[trigger] ls[k].start < ls[k].end
    &&& forall|i: int, j: int| 0 <= i < j < ls.len() ==> #[trigger] ls[i].end <= #[trigger] ls[j].start
}

/// Where lines `k` and `k + 1` belong to one source, the second starts where
/// the first ends and has the next number.
pub open spec fn continues(ls: Seq<LineSpan>, k: int) -> bool {
    ls[k].source == ls[k + 1].source ==> ls[k].end == ls[k + 1].start && ls[k + 1].number
        == ls[k].number + 1
}

/// Each line's source starts no later than the line, sources never go back,
/// and the lines of one source follow each other, numbered consecutively.
pub open spec fn grouped(ls: Seq<LineSpan>) -> bool {
    &&& forall|k: int| 0 <= k < ls.len() ==> #[trigger] ls[k].source <= ls[k].start
    &&& forall|i: int, j: int|
        0 <= i < j < ls.len() ==> #[trigger] ls[i].source <= #[trigger] ls[j].source
    &&& forall|k: int| 0 <= k < ls.len() - 1 ==> #[trigger] continues(ls, k)
}

/// Line `j + 1` starts where line `j` ends, has the next number, and belongs
/// to the same source.
pub open spec fn steps_on(ls: Seq<LineSpan>, j: int) -> bool {
    &&& ls[j].end == ls[j + 1].start
    &&& ls[j + 1].number == ls[j].number + 1
    &&& ls[j + 1].source == ls[j].source
}

/// Lines that follow each other without gaps, all of one source, numbered
/// consecutively.
pub open spec fn consecutive(ls: Seq<LineSpan>) -> bool {
    forall|j: int| 0 <= j < ls.len() - 1 ==> #[trigger] steps_on(ls, j)
}

/// The lines a successful lookup finds follow each other without gaps,
/// belong to one source, and are numbered consecutively.
pub proof fn lemma_lookup_consecutive(ls: Seq<LineSpan>, loc: Location)
    requires
        grouped(ls),
        lookup_outcome(ls, loc) is Ok,
    ensures
        ({
            let (f, l) = lookup_outcome(ls, loc)->Ok_0;
            &&& 0 <= f < l <= ls.len()
            &&& consecutive(ls.subrange(f, l))
        }),
{
    let (f, l) = lookup_outcome(ls, loc)->Ok_0;
    lemma_counts_bounded(ls, probe_start(loc), probe_end(loc));
    let t = ls.subrange(f, l);
    assert forall|j: int| 0 <= j < t.len() - 1 implies #[trigger] steps_on(t, j) by {
        let a = f + j;
        assert(ls[f].source <= ls[a].source) by {
            if a > f {
                assert(ls[f].source <= ls[a].source);
            }
        }
        assert(ls[a + 1].source <= ls[l - 1].source) by {
            if a + 1 < l - 1 {
                assert(ls[a + 1].source <= ls[l - 1].source);
            }
        }
        assert(ls[a].source <= ls[a + 1].source);
        assert(continues(ls, a));
        assert(t[j] == ls[a] && t[j + 1] == ls[a + 1]);
    }
}

/// Number of leading lines that end at or before byte `s`.
pub open spec fn ended_by(ls: Seq<LineSpan>, s: int) -> nat
    decreases ls.len(),
{
    if ls.len() == 0 || ls[0].end > s {
        0
    } else {
        1 + ended_by(ls.drop_first(), s)
    }
}

/// Number of leading lines that start before byte `e`.
pub open spec fn started_before(ls: Seq<LineSpan>, e: int) -> nat
    decreases ls.len(),
{
    if ls.len() == 0 || ls[0].start >= e {
        0
    } else {
        1 + started_before(ls.drop_first(), e)
    }
}

/// First byte a lookup of `loc` covers: an empty span stands for the byte
/// just before it (or the first byte, when there is none).
pub open spec fn probe_start(loc: Location) -> int {
    if loc.lo() == loc.hi() {
        if loc.lo() >= 1 {
            loc.lo() - 1
        } else {
            0
        }
    } else {
        loc.lo() as int
    }
}

/// One past the last byte a lookup of `loc` covers.
pub open spec fn probe_end(loc: Location) -> int {
    if loc.lo() == loc.hi() {
        probe_start(loc) + 1
    } else {
        loc.hi() as int
    }
}

/// What a lookup of `loc` among the lines `ls` gives: the index range of the
/// lines it covers, or why there is none.
pub open spec fn lookup_outcome(ls: Seq<LineSpan>, loc: Location) -> Result<(int, int), LineMapError> {
    let f = ended_by(ls, probe_start(loc)) as int;
    let l = started_before(ls, probe_end(loc)) as int;
    if f >= l {
        Err(LineMapError::LinesNotFound(Offset(probe_start(loc) as u32)))
    } else if ls[f].source != ls[l - 1].source {
        Err(LineMapError::CrossesFileBoundary(loc))
    } else {
        Ok((f, l))
    }
}

/// The spans of a sequence of lines.
pub open spec fn spans_of(ls: Seq<Line>) -> Seq<LineSpan> {
    ls.map_values(|l: Line| l@)
}

/// One line of a source, with its newline if it has one.
#[derive(Debug, Clone, Copy, PartialEq, Eq, Structural)]
pub struct Line {
    location: Location,
    line_number: u32,
    source_offset: Offset,
}

impl View for Line {
    type V = LineSpan;

    closed spec fn view(&self) -> LineSpan {
        LineSpan {
            start: self.location.lo() as nat,
            end: self.location.hi() as nat,
            number: self.line_number as nat,
            source: self.source_offset.0 as nat,
        }
    }
}

impl Line {
    fn new(start_offset: Offset, len: u32, line_number: u32, source_offset: Offset) -> (r: Line)
        requires
            start_offset.0 + len <= u32::MAX,
        ensures
            r@ == (LineSpan {
                start: start_offset.0 as nat,
                end: (start_offset.0 + len) as nat,
                number: line_number as nat,
                source: source_offset.0 as nat,
            }),
    {
        Line { location: Location::new(start_offset, len), line_number, source_offset }
    }

    /// The column, counted in bytes from zero, at which `location` starts
    /// within this line.
    pub fn get_column(&self, location: Location) -> (r: u32)
        requires
            self@.start <= location.lo() <= self@.end,
        ensures
            r == location.lo() - self@.start,
    {
        location.get_start().0 - self.location.get_start().0
    }

    /// The number of the line within its source, counted from one.
    pub fn get_number(&self) -> (r: u32)
        ensures
            r == self@.number,
    {
        self.line_number
    }

    /// The bytes the line covers.
    pub fn get_location(&self) -> (r: Location)
        ensures
            r.lo() == self@.start,
            r.hi() == self@.end,
    {
        self.location
    }

    /// The offset at which the line's source begins.
    pub fn get_source_offset(&self) -> (r: Offset)
        ensures
            r.0 == self@.source,
    {
        self.source_offset
    }
}

/// Why a lookup found no lines.
#[derive(Debug, Clone, Copy, PartialEq, Eq, Structural)]
pub enum LineMapError {
    /// No line covers the offset.
    LinesNotFound(Offset),
    /// The location spans lines of more than one source.
    CrossesFileBoundary(Location),
}

/// How a line lookup error is reported.
pub open spec fn line_map_error_text(e: LineMapError) -> Seq<char> {
    match e {
        LineMapError::LinesNotFound(o) => "Offset "@ + decimal(o.0 as nat) + " is not within any line"@,
        LineMapError::CrossesFileBoundary(l) => "Location "@ + location_text(l)
            + " crosses file boundaries"@,
    }
}

impl LineMapError {
    /// The message that reports the error.
    pub fn to_string(&self) -> (r: String)
        ensures
            r@ == line_map_error_text(*self),
    {
        match self {
            LineMapError::LinesNotFound(o) => {
                let mut r = String::from_str("Offset ");
                let n = decimal_string(o.0);
                r.append(n.as_str());
                r.append(" is not within any line");
                r
            },
            LineMapError::CrossesFileBoundary(l) => {
                let mut r = String::from_str("Location ");
                let t = l.to_string();
                r.append(t.as_str());
                r.append(" crosses file boundaries");
                r
            },
        }
    }
}

/// The lines of all sources, in order of their offsets.
#[derive(Debug)]
pub struct LineMap {
    lines: Vec<Line>,
}

impl View for LineMap {
    type V = Seq<LineSpan>;

    closed spec fn view(&self) -> Seq<LineSpan> {
        spans_of(self.lines@)
    }
}

/// The first line of `s` ends at byte `m`, which is a newline, or `s` ends
/// there without one.
proof fn lemma_line_len_scan(s: Seq<u8>, m: int)
    requires
        0 <= m <= s.len(),
        forall|k: int| 0 <= k < m ==> !is_newline(#[trigger] s[k]),
        m < s.len() ==> is_newline(s[m]),
    ensures
        line_len(s) == (if m < s.len() {
            m + 1
        } else {
            m
        }),
    decreases m,
{
    if m > 0 {
        assert(!is_newline(s[0]));
        let t = s.drop_first();
        assert forall|k: int| 0 <= k < m - 1 implies !is_newline(#[trigger] t[k]) by {
            assert(t[k] == s[k + 1]);
        }
        lemma_line_len_scan(t, m - 1);
    }
}

/// The counts of leading lines are at most the number of lines.
pub proof fn lemma_counts_bounded(ls: Seq<LineSpan>, s: int, e: int)
    ensures
        ended_by(ls, s) <= ls.len(),
        started_before(ls, e) <= ls.len(),
    decreases ls.len(),
{
    if ls.len() > 0 {
        lemma_counts_bounded(ls.drop_first(), s, e);
    }
}

/// A prefix of lines ending at or before `s`, followed by lines ending
/// after it, has the prefix's length as its count.
pub proof fn lemma_ended_by(ls: Seq<LineSpan>, s: int, m: int)
    requires
        0 <= m <= ls.len(),
        forall|k: int| 0 <= k < m ==> #[trigger] ls[k].end <= s,
        forall|k: int| m <= k < ls.len() ==> #[trigger] ls[k].end > s,
    ensures
        ended_by(ls, s) == m,
    decreases m,
{
    if m > 0 {
        let t = ls.drop_first();
        assert forall|k: int| 0 <= k < m - 1 implies #[trigger] t[k].end <= s by {
            assert(t[k] == ls[k + 1]);
        }
        assert forall|k: int| m - 1 <= k < t.len() implies #[trigger] t[k].end > s by {
            assert(t[k] == ls[k + 1]);
        }
        lemma_ended_by(t, s, m - 1);
    }
}

/// A prefix of lines starting before `e`, followed by lines starting at or
/// after it, has the prefix's length as its count.
pub proof fn lemma_started_before(ls: Seq<LineSpan>, e: int, m: int)
    requires
        0 <= m <= ls.len(),
        forall|k: int| 0 <= k < m ==> #[trigger] ls[k].start < e,
        forall|k: int| m <= k < ls.len() ==> #[trigger] ls[k].start >= e,
    ensures
        started_before(ls, e) == m,
    decreases m,
{
    if m > 0 {
        let t = ls.drop_first();
        assert forall|k: int| 0 <= k < m - 1 implies #[trigger] t[k].start < e by {
            assert(t[k] == ls[k + 1]);
        }
        assert forall|k: int| m - 1 <= k < t.len() implies #[trigger] t[k].start >= e by {
            assert(t[k] == ls[k + 1]);
        }
        lemma_started_before(t, e, m - 1);
    }
}

/// Number of leading lines whose end (when `by_end`) or start (otherwise)
/// is at most `bound`.
fn count_through(lines: &Vec<Line>, bound: u32, by_end: bool) -> (r: usize)
    requires
        ordered(spans_of(lines@)),
    ensures
        r <= lines.len(),
        by_end ==> r == ended_by(spans_of(lines@), bound as int),
        !by_end ==> r == started_before(spans_of(lines@), bound + 1),
        forall|k: int|
            0 <= k < r ==> (if by_end {
                #[trigger] spans_of(lines@)[k].end <= bound
            } else {
                spans_of(lines@)[k].start <= bound
            }),
        forall|k: int|
            r <= k < lines.len() ==> (if by_end {
                #[trigger] spans_of(lines@)[k].end > bound
            } else {
                spans_of(lines@)[k].start > bound
            }),
{
    let ghost ls = spans_of(lines@);
    let mut lo: usize = 0;
    let mut hi: usize = lines.len();
    while lo < hi
        invariant
            ls == spans_of(lines@),
            ordered(ls),
            0 <= lo <= hi <= lines.len(),
            forall|k: int|
                0 <= k < lo ==> (if by_end {
                    #[trigger] ls[k].end <= bound
                } else {
                    ls[k].start <= bound
                }),
            forall|k: int|
                hi <= k < lines.len() ==> (if by_end {
                    #[trigger] ls[k].end > bound
                } else {
                    ls[k].start > bound
                }),
        decreases hi - lo,
    {
        let mid = lo + (hi - lo) / 2;
        let line = &lines[mid];
        let key = if by_end {
            line.location.end().0
        } else {
            line.location.start().0
        };
        assert(ls[mid as int] == line@);
        if key <= bound {
            assert forall|k: int| 0 <= k <= mid implies (if by_end {
                #[trigger] ls[k].end <= bound
            } else {
                ls[k].start <= bound
            }) by {
                if k < mid {
                    assert(ls[k].end <= ls[mid as int].start);
                }
            }
            lo = mid + 1;
        } else {
            assert forall|k: int| mid <= k < lines.len() implies (if by_end {
                #[trigger] ls[k].end > bound
            } else {
                ls[k].start > bound
            }) by {
                if k > mid {
                    assert(ls[mid as int].end <= ls[k].start);
                }
            }
            hi = mid;
        }
    }
    proof {
        if by_end {
            lemma_ended_by(ls, bound as int, lo as int);
        } else {
            lemma_started_before(ls, bound + 1, lo as int);
        }
    }
    lo
}

impl LineMap {
    #[verifier::type_invariant]
    spec fn well_formed(self) -> bool {
        &&& ordered(spans_of(self.lines@))
        &&& grouped(spans_of(self.lines@))
    }

    /// A map without lines.
    pub fn new() -> (r: LineMap)
        ensures
            r@ == Seq::<LineSpan>::empty(),
    {
        let r = LineMap { lines: Vec::new() };
        assert(r@ =~= Seq::<LineSpan>::empty());
        r
    }

    /// The lines, in order.
    pub fn as_slice(&self) -> (r: &[Line])
        ensures
            spans_of(r@) == self@,
            ordered(self@),
            grouped(self@),
    {
        proof {
            use_type_invariant(self);
        }
        self.lines.as_slice()
    }

    /// Adds the lines of `text`, which starts at `offset`. Lines own their
    /// newline; their numbers start again from one.
    pub fn extend_from(&mut self, text: &str, offset: Offset)
        requires
            offset.0 + text.spec_bytes().len() <= u32::MAX,
            old(self)@.len() > 0 ==> old(self)@.last().end <= offset.0,
        ensures
            final(self)@ == old(self)@ + lines_of(text.spec_bytes(), offset.0 as nat, 1, offset.0 as nat),
            ordered(final(self)@),
            grouped(final(self)@),
            forall|k: int|
                old(self)@.len() <= k < final(self)@.len() ==> (#[trigger] final(self)@[k]).number == 1
                    + newlines_in(text.spec_bytes().take(final(self)@[k].start - offset.0)),
    {
        proof {
            use_type_invariant(&*self);
        }
        let bytes = text.as_bytes();
        let n = bytes.len();
        let ghost b = bytes@;
        let ghost old_view = spans_of(self.lines@);
        let ghost total = old_view + lines_of(b, offset.0 as nat, 1, offset.0 as nat);
        let mut lines: Vec<Line> = Vec::new();
        std::mem::swap(&mut lines, &mut self.lines);
        let mut pos: usize = 0;
        let mut number: u64 = 1;
        assert(b.skip(0) =~= b);
        while pos < n
            invariant
                b == bytes@,
                n == b.len(),
                pos <= n,
                offset.0 + n <= u32::MAX,
                1 <= number <= pos + 1,
                spans_of(lines@) + lines_of(b.skip(pos as int), (offset.0 + pos) as nat, number as nat, offset.0 as nat) == total,
                ordered(spans_of(lines@)),
                spans_of(lines@).len() > 0 ==> spans_of(lines@).last().end <= offset.0 + pos,
            decreases n - pos,
        {
            let mut j = pos;
            while j < n && bytes[j] != 10u8
                invariant
                    b == bytes@,
                    n == b.len(),
                    pos <= j <= n,
                    forall|k: int| pos <= k < j ==> !is_newline(#[trigger] b[k]),
                decreases n - j,
            {
                j += 1;
            }
            let end = if j < n {
                j + 1
            } else {
                n
            };
            let ghost rest = b.skip(pos as int);
            proof {
                assert forall|k: int| 0 <= k < j - pos implies !is_newline(#[trigger] rest[k]) by {
                    assert(rest[k] == b[pos + k]);
                }
                if j < n {
                    assert(rest[j - pos] == b[j as int]);
                }
                lemma_line_len_scan(rest, j - pos);
                assert(rest.skip((end - pos) as int) =~= b.skip(end as int));
            }
            let line = Line::new(
                Offset(offset.0 + pos as u32),
                (end - pos) as u32,
                number as u32,
                offset,
            );
            let ghost before = spans_of(lines@);
            lines.push(line);
            proof {
                assert(spans_of(lines@) =~= before.push(line@));
                let tail = lines_of(rest.skip((end - pos) as int), (offset.0 + end) as nat, (number + 1) as nat, offset.0 as nat);
                assert(lines_of(rest, (offset.0 + pos) as nat, number as nat, offset.0 as nat) == seq![line@] + tail);
                assert(before.push(line@) + tail =~= before + (seq![line@] + tail));
                let now = spans_of(lines@);
                assert forall|i: int, k: int| 0 <= i < k < now.len() implies #[trigger] now[i].end <= #[trigger] now[k].start by {
                    if k < before.len() {
                        assert(now[i] == before[i] && now[k] == before[k]);
                    } else if i < before.len() {
                        assert(now[i] == before[i]);
                        assert(before[i].end <= before.last().end) by {
                            if i < before.len() - 1 {
                                assert(before[i].end <= before[before.len() - 1].start);
                            }
                        }
                    }
                }
            }
            pos = end;
            number = number + 1;
        }
        proof {
            assert(b.skip(n as int) =~= Seq::<u8>::empty());
            assert(spans_of(lines@) =~= total);
            lemma_grouped_extend(old_view, b, offset.0 as nat);
            lemma_line_numbers_count_newlines(b, offset.0 as nat, 1, offset.0 as nat);
            let added = lines_of(b, offset.0 as nat, 1, offset.0 as nat);
            assert forall|k: int| old_view.len() <= k < total.len() implies (#[trigger] total[k]).number
                == 1 + newlines_in(b.take(total[k].start - offset.0)) by {
                assert(total[k] == added[k - old_view.len()]);
            }
        }
        self.lines = lines;
    }

    /// The lines that `location` covers. An empty location stands for the
    /// byte just before it.
    pub fn lookup(&self, location: Location) -> (r: Result<&[Line], LineMapError>)
        ensures
            match (r, lookup_outcome(self@, location)) {
                (Ok(found), Ok((f, l))) => spans_of(found@) == self@.subrange(f, l) && consecutive(
                    spans_of(found@),
                ),
                (Err(e), Err(expected)) => e == expected,
                _ => false,
            },
    {
        proof {
            use_type_invariant(self);
        }
        let ghost ls = self@;
        let mut start = location.get_start();
        let mut end = location.get_end();
        if location.is_empty() {
            start = start.saturating_sub(1);
            end = start.advanced_by(1);
        }
        assert(start.0 == probe_start(location) && end.0 == probe_end(location));
        let first = count_through(&self.lines, start.0, true);
        let last = count_through(&self.lines, end.0 - 1, false);
        proof {
            if first > last {
                let k = last as int;
                assert(ls[k].end <= start.0);
                assert(ls[k].start >= end.0);
            }
        }
        if first == last {
            return Err(LineMapError::LinesNotFound(start));
        }
        let head = &self.lines[first];
        let tail = &self.lines[last - 1];
        assert(ls[first as int] == head@ && ls[last - 1] == tail@);
        if head.source_offset.0 != tail.source_offset.0 {
            return Err(LineMapError::CrossesFileBoundary(location));
        }
        let found = slice_subrange(self.lines.as_slice(), first, last);
        assert(spans_of(found@) =~= ls.subrange(first as int, last as int));
        proof {
            lemma_lookup_consecutive(ls, location);
        }
        Ok(found)
    }
}

impl Default for LineMap {
    fn default() -> (r: LineMap)
        ensures
            r@ == Seq::<LineSpan>::empty(),
    {
        LineMap::new()
    }
}

} // verus!
