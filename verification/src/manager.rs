//! All loaded sources, placed one after the other, with their lines.

use crate::line_map::{
    consecutive,
    line_map_error_text,
    lines_of,
    lookup_outcome,
    probe_end,
    probe_start,
    spans_of,
    Line,
    LineMap,
    LineMapError,
    LineSpan,
};
use crate::location::{location_text, Location, Offset};
use crate::source::{Source, SourceView};
use crate::text::byte_len;
use crate::tiling::{holds, lemma_lines_tile, lemma_lookup_in_tiling, lemma_tiles_concat, tiles};
use vstd::prelude::*;
use vstd::string::*;
use vstd::utf8::encode_utf8;

verus! {

/// The bytes of a source's text.
pub open spec fn bytes_of(s: SourceView) -> Seq<u8> {
    encode_utf8(s.text)
}

/// The offset of a placed source.
pub open spec fn start_of(s: SourceView) -> nat {
    s.offset->0
}

/// One past the last byte of a placed source.
pub open spec fn end_of(s: SourceView) -> nat {
    s.offset->0 + byte_len(s.text)
}

/// Source `k + 1` starts where source `k` ends.
pub open spec fn follows(srcs: Seq<SourceView>, k: int) -> bool {
    start_of(srcs[k + 1]) == end_of(srcs[k])
}

/// Sources placed one after the other from offset zero.
pub open spec fn placed(srcs: Seq<SourceView>) -> bool {
    &&& forall|k: int| 0 <= k < srcs.len() ==> (#[trigger] srcs[k]).offset is Some
    &&& srcs.len() > 0 ==> start_of(srcs[0]) == 0
    &&& forall|k: int| 0 <= k < srcs.len() - 1 ==> #[trigger] follows(srcs, k)
}

/// One past the last byte of all sources.
pub open spec fn total_end(srcs: Seq<SourceView>) -> nat {
    if srcs.len() == 0 {
        0
    } else {
        end_of(srcs.last())
    }
}

/// The lines of all sources, in order.
pub open spec fn all_lines(srcs: Seq<SourceView>) -> Seq<LineSpan>
    decreases srcs.len(),
{
    if srcs.len() == 0 {
        Seq::empty()
    } else {
        let s = srcs.last();
        all_lines(srcs.drop_last()) + lines_of(bytes_of(s), start_of(s), 1, start_of(s))
    }
}

/// Index of the source that holds the byte at offset `o`, if one does.
pub open spec fn source_index(srcs: Seq<SourceView>, o: int) -> Option<int>
    decreases srcs.len(),
{
    if srcs.len() == 0 {
        None
    } else if start_of(srcs.last()) <= o < end_of(srcs.last()) {
        Some(srcs.len() - 1)
    } else {
        source_index(srcs.drop_last(), o)
    }
}

/// What a manager is: its sources and its lines.
pub struct ManagerView {
    pub sources: Seq<SourceView>,
    pub lines: Seq<LineSpan>,
}

/// Why a manager could not look a location up.
#[derive(Debug, Clone, Copy, PartialEq, Eq, Structural)]
pub enum ManagerError {
    /// No source holds the location's first byte.
    SourceNotFound(Location),
    /// The source was found, but the lines were not.
    Lines(LineMapError),
}

/// How a manager lookup error is reported.
pub open spec fn manager_error_text(e: ManagerError) -> Seq<char> {
    match e {
        ManagerError::SourceNotFound(l) => "Source not found for location: "@ + location_text(l),
        ManagerError::Lines(e) => line_map_error_text(e),
    }
}

impl ManagerError {
    /// The message that reports the error.
    pub fn to_string(&self) -> (r: String)
        ensures
            r@ == manager_error_text(*self),
    {
        match self {
            ManagerError::SourceNotFound(l) => {
                let mut r = String::from_str("Source not found for location: ");
                let t = l.to_string();
                r.append(t.as_str());
                r
            },
            ManagerError::Lines(e) => e.to_string(),
        }
    }
}

/// The lines a location covers, with the source that holds its first byte.
pub struct FoundLines<'life> {
    lines: &'life [Line],
    source: &'life Source,
}

impl<'life> FoundLines<'life> {
    /// Pairs lines with their source.
    pub fn new(lines: &'life [Line], source: &'life Source) -> (r: FoundLines<'life>)
        ensures
            r.spec_lines() == spans_of(lines@),
            r.spec_source() == source@,
    {
        FoundLines { lines, source }
    }

    /// The spans of the lines found.
    pub closed spec fn spec_lines(&self) -> Seq<LineSpan> {
        spans_of(self.lines@)
    }

    /// The source found.
    pub closed spec fn spec_source(&self) -> SourceView {
        self.source@
    }

    /// The lines found.
    pub fn get_lines(&self) -> (r: &'life [Line])
        ensures
            spans_of(r@) == self.spec_lines(),
    {
        self.lines
    }

    /// The source found.
    pub fn get_source(&self) -> (r: &'life Source)
        ensures
            r@ == self.spec_source(),
    {
        self.source
    }
}

/// The loaded sources and the lines of all of them.
#[derive(Debug)]
pub struct Manager {
    offset: Offset,
    sources: Vec<Source>,
    lines: LineMap,
}

impl View for Manager {
    type V = ManagerView;

    closed spec fn view(&self) -> ManagerView {
        ManagerView { sources: self.sources@.map_values(|s: Source| s@), lines: self.lines@ }
    }
}

/// Placed sources keep their order: each ends at or before the next starts.
pub proof fn lemma_placed_ordered(srcs: Seq<SourceView>, j: int, k: int)
    requires
        placed(srcs),
        0 <= j < k < srcs.len(),
    ensures
        end_of(srcs[j]) <= start_of(srcs[k]),
    decreases k - j,
{
    assert(follows(srcs, k - 1));
    if j < k - 1 {
        lemma_placed_ordered(srcs, j, k - 1);
    }
}

/// Dropping the last source keeps the others placed.
pub proof fn lemma_placed_drop_last(srcs: Seq<SourceView>)
    requires
        placed(srcs),
        srcs.len() > 0,
    ensures
        placed(srcs.drop_last()),
{
    let t = srcs.drop_last();
    assert forall|k: int| 0 <= k < t.len() - 1 implies #[trigger] follows(t, k) by {
        assert(follows(srcs, k));
    }
    assert forall|k: int| 0 <= k < t.len() implies (#[trigger] t[k]).offset is Some by {
        assert(srcs[k].offset is Some);
    }
}

/// The lines of placed sources cover all their bytes, and each line records
/// the offset of the source it belongs to.
pub proof fn lemma_all_lines_tile(srcs: Seq<SourceView>)
    requires
        placed(srcs),
    ensures
        tiles(all_lines(srcs), 0, total_end(srcs) as int),
        forall|j: int, k: int|
            #![trigger all_lines(srcs)[j], srcs[k]]
            0 <= j < all_lines(srcs).len() && 0 <= k < srcs.len() && start_of(srcs[k])
                <= all_lines(srcs)[j].start < end_of(srcs[k]) ==> all_lines(srcs)[j].source
                == start_of(srcs[k]) && all_lines(srcs)[j].end <= end_of(srcs[k]),
    decreases srcs.len(),
{
    if srcs.len() > 0 {
        let t = srcs.drop_last();
        let s = srcs.last();
        lemma_placed_drop_last(srcs);
        lemma_all_lines_tile(t);
        lemma_lines_tile(bytes_of(s), start_of(s), 1, start_of(s));
        if t.len() > 0 {
            assert(follows(srcs, t.len() - 1));
            assert(t.last() == srcs[t.len() - 1]);
        }
        lemma_tiles_concat(
            all_lines(t),
            lines_of(bytes_of(s), start_of(s), 1, start_of(s)),
            0,
            total_end(t) as int,
            end_of(s) as int,
        );
        let a = all_lines(t);
        let b = lines_of(bytes_of(s), start_of(s), 1, start_of(s));
        let ls = all_lines(srcs);
        assert(ls == a + b);
        assert forall|j: int, k: int|
            #![trigger ls[j], srcs[k]]
            0 <= j < ls.len() && 0 <= k < srcs.len() && start_of(srcs[k]) <= ls[j].start < end_of(
                srcs[k],
            ) implies ls[j].source == start_of(srcs[k]) && ls[j].end <= end_of(srcs[k]) by {
            if j < a.len() {
                assert(ls[j] == a[j]);
                assert(a[j].end <= total_end(t)) by {
                    if j < a.len() - 1 {
                        assert(a[j].end <= a[a.len() - 1].start);
                    }
                }
                if k == srcs.len() - 1 {
                    assert(false);
                } else {
                    assert(t[k] == srcs[k]);
                }
            } else {
                assert(ls[j] == b[j - a.len()]);
                assert(b[j - a.len()].start >= start_of(s)) by {
                    if j - a.len() > 0 {
                        assert(b[0].end <= b[j - a.len()].start);
                    }
                }
                if k < srcs.len() - 1 {
                    lemma_placed_ordered(srcs, k, srcs.len() - 1);
                    assert(false);
                }
                assert(b[j - a.len()].end <= b.last().end) by {
                    if j - a.len() < b.len() - 1 {
                        assert(b[j - a.len()].end <= b[b.len() - 1].start);
                    }
                }
            }
        }
    }
}

/// The index a placed source list gives for an offset is the source holding it.
pub proof fn lemma_source_index(srcs: Seq<SourceView>, o: int)
    requires
        placed(srcs),
    ensures
        source_index(srcs, o) matches Some(k) ==> 0 <= k < srcs.len() && start_of(srcs[k]) <= o
            < end_of(srcs[k]),
        source_index(srcs, o) is None ==> forall|k: int|
            0 <= k < srcs.len() ==> !(start_of(#[trigger] srcs[k]) <= o < end_of(srcs[k])),
    decreases srcs.len(),
{
    if srcs.len() > 0 {
        let t = srcs.drop_last();
        lemma_placed_drop_last(srcs);
        lemma_source_index(t, o);
        if source_index(srcs, o) is None {
            assert forall|k: int| 0 <= k < srcs.len() implies !(start_of(#[trigger] srcs[k]) <= o
                < end_of(srcs[k])) by {
                if k < t.len() {
                    assert(t[k] == srcs[k]);
                }
            }
        }
    }
}

/// The source that holds an offset is the one the index names.
pub proof fn lemma_source_index_of(srcs: Seq<SourceView>, o: int, k: int)
    requires
        placed(srcs),
        0 <= k < srcs.len(),
        start_of(srcs[k]) <= o < end_of(srcs[k]),
    ensures
        source_index(srcs, o) == Some(k),
{
    lemma_source_index(srcs, o);
    if let Some(j) = source_index(srcs, o) {
        if j < k {
            lemma_placed_ordered(srcs, j, k);
        } else if k < j {
            lemma_placed_ordered(srcs, k, j);
        }
    }
}


/// Placed sources hold every offset below their end.
pub proof fn lemma_sources_cover(srcs: Seq<SourceView>, o: int)
    requires
        placed(srcs),
        0 <= o < total_end(srcs),
    ensures
        source_index(srcs, o) is Some,
    decreases srcs.len(),
{
    let t = srcs.drop_last();
    if o < start_of(srcs.last()) {
        lemma_placed_drop_last(srcs);
        assert(t.len() > 0);
        assert(follows(srcs, t.len() - 1));
        assert(t.last() == srcs[t.len() - 1]);
        lemma_sources_cover(t, o);
    }
}

/// A source ends no later than all sources do.
pub proof fn lemma_source_within(srcs: Seq<SourceView>, k: int)
    requires
        placed(srcs),
        0 <= k < srcs.len(),
    ensures
        end_of(srcs[k]) <= total_end(srcs),
{
    if k < srcs.len() - 1 {
        lemma_placed_ordered(srcs, k, srcs.len() - 1);
    }
}

/// A source added after placed sources holds the offsets it was given, and
/// every earlier offset keeps the source it had: what is added is found
/// again, and nothing else moves.
pub proof fn lemma_added_source_found(srcs: Seq<SourceView>, s: SourceView, o: int)
    requires
        placed(srcs),
        s.offset == Some(total_end(srcs)),
    ensures
        placed(srcs.push(s)),
        total_end(srcs.push(s)) == total_end(srcs) + byte_len(s.text),
        total_end(srcs) <= o < total_end(srcs) + byte_len(s.text) ==> source_index(srcs.push(s), o)
            == Some(srcs.len() as int),
        o < total_end(srcs) ==> source_index(srcs.push(s), o) == source_index(srcs, o),
{
    let p = srcs.push(s);
    assert(p.drop_last() =~= srcs);
    assert forall|k: int| 0 <= k < p.len() implies (#[trigger] p[k]).offset is Some by {
        if k < srcs.len() {
            assert(p[k] == srcs[k]);
        }
    }
    assert forall|k: int| 0 <= k < p.len() - 1 implies #[trigger] follows(p, k) by {
        if k < srcs.len() - 1 {
            assert(follows(srcs, k));
        }
    }
}

/// A manager that keeps its invariant has its sources placed, its next
/// offset at their end, and the lines of exactly those sources.
pub proof fn lemma_manager_wf(m: &Manager)
    requires
        m.wf(),
    ensures
        placed(m@.sources),
        m.next_offset() == total_end(m@.sources),
        total_end(m@.sources) <= u32::MAX,
        m@.lines == all_lines(m@.sources),
{
}

/// Looking up a span that lies inside one source finds lines, all of that
/// source: from the one holding the span's first byte to the one holding its
/// last. An empty span stands for the byte before it.
pub proof fn lemma_lookup_within_source(srcs: Seq<SourceView>, k: int, loc: Location) -> (r: (int, int))
    requires
        placed(srcs),
        0 <= k < srcs.len(),
        loc.lo() <= loc.hi(),
        start_of(srcs[k]) <= probe_start(loc),
        probe_end(loc) <= end_of(srcs[k]),
    ensures
        lookup_outcome(all_lines(srcs), loc) == Ok::<(int, int), LineMapError>(r),
        holds(all_lines(srcs), r.0, probe_start(loc)),
        holds(all_lines(srcs), r.1 - 1, probe_end(loc) - 1),
        forall|j: int| r.0 <= j < r.1 ==> (#[trigger] all_lines(srcs)[j]).source == start_of(srcs[k]),
{
    let ls = all_lines(srcs);
    lemma_all_lines_tile(srcs);
    lemma_source_within(srcs, k);
    let r = lemma_lookup_in_tiling(ls, 0, total_end(srcs) as int, loc);
    assert forall|j: int| r.0 <= j < r.1 implies (#[trigger] ls[j]).source == start_of(srcs[k]) by {
        let o = ls[j].start as int;
        assert(ls[j].start >= ls[r.0].start) by {
            if j > r.0 {
                assert(ls[r.0].end <= ls[j].start);
            }
        }
        assert(ls[j].end <= ls[r.1 - 1].end) by {
            if j < r.1 - 1 {
                assert(ls[j].end <= ls[r.1 - 1].start);
            }
        }
        assert(ls[j].end <= total_end(srcs)) by {
            if j < ls.len() - 1 {
                assert(ls[j].end <= ls[ls.len() - 1].start);
            }
        }
        lemma_sources_cover(srcs, o);
        lemma_source_index(srcs, o);
        let kk = source_index(srcs, o)->0;
        assert(ls[j].source == start_of(srcs[kk]) && ls[j].end <= end_of(srcs[kk]));
        let q = if ls[j].start >= probe_start(loc) { ls[j].start as int } else { probe_start(loc) };
        assert(start_of(srcs[kk]) <= q < end_of(srcs[kk]));
        assert(start_of(srcs[k]) <= q < end_of(srcs[k]));
        lemma_source_index_of(srcs, q, kk);
        lemma_source_index_of(srcs, q, k);
    }
    r
}

impl Manager {
    /// The manager keeps its sources placed one after the other, its offset
    /// at their end, and the lines of exactly those sources.
    pub closed spec fn wf(&self) -> bool {
        &&& placed(self@.sources)
        &&& self.offset.0 == total_end(self@.sources)
        &&& self@.lines == all_lines(self@.sources)
    }

    /// One past the last byte of all sources: where the next source goes.
    pub closed spec fn next_offset(&self) -> nat {
        self.offset.0 as nat
    }

    /// A manager without sources.
    pub fn new() -> (r: Manager)
        ensures
            r.wf(),
            r@.sources == Seq::<SourceView>::empty(),
            r.next_offset() == 0,
    {
        let r = Manager { offset: Offset(0), sources: Vec::new(), lines: LineMap::new() };
        assert(r@.sources =~= Seq::<SourceView>::empty());
        r
    }

    /// The lines of all sources.
    pub fn get_lines(&self) -> (r: &LineMap)
        ensures
            r@ == self@.lines,
    {
        &self.lines
    }

    /// The offset at which a source added now would start.
    fn get_next_offset(&self, source: &Source) -> (r: Offset)
        requires
            self.offset.0 + byte_len(source@.text) <= u32::MAX,
        ensures
            r.0 == self.offset.0 + byte_len(source@.text),
    {
        self.offset.advanced_by(source.byte_count())
    }

    /// Places `source` after all sources so far and takes in its lines.
    pub fn add_source(&mut self, source: Source) -> (r: &Source)
        requires
            old(self).wf(),
            old(self).next_offset() + byte_len(source@.text) <= u32::MAX,
        ensures
            final(self).wf(),
            final(self)@.sources == old(self)@.sources.push(
                SourceView { offset: Some(old(self).next_offset()), ..source@ },
            ),
            final(self).next_offset() == old(self).next_offset() + byte_len(source@.text),
            r@ == (SourceView { offset: Some(old(self).next_offset()), ..source@ }),
    {
        let ghost old_srcs = self@.sources;
        let ghost old_lines = self@.lines;
        proof {
            lemma_all_lines_tile(old_srcs);
        }
        let mut source = source;
        let offset = self.offset;
        let next = self.get_next_offset(&source);
        source.patch_offset(offset);
        let ghost added = source@;
        self.offset = next;
        self.sources.push(source);
        let n = self.sources.len();
        proof {
            assert(self@.sources =~= old_srcs.push(added));
        }
        self.lines.extend_from(self.sources[n - 1].get_source(), offset);
        proof {
            let srcs = self@.sources;
            assert(srcs.drop_last() =~= old_srcs);
            assert forall|k: int| 0 <= k < srcs.len() implies (#[trigger] srcs[k]).offset is Some by {
                if k < old_srcs.len() {
                    assert(srcs[k] == old_srcs[k]);
                }
            }
            assert forall|k: int| 0 <= k < srcs.len() - 1 implies #[trigger] follows(srcs, k) by {
                if k < old_srcs.len() - 1 {
                    assert(follows(old_srcs, k));
                }
            }
        }
        &self.sources[n - 1]
    }

    /// The source that holds the byte at `offset`, if one does.
    pub fn get_by_offset(&self, offset: Offset) -> (r: Option<&Source>)
        requires
            self.wf(),
        ensures
            match source_index(self@.sources, offset.0 as int) {
                Some(k) => r matches Some(s) && s@ == self@.sources[k],
                None => r is None,
            },
    {
        let ghost srcs = self@.sources;
        let mut lo: usize = 0;
        let mut hi: usize = self.sources.len();
        while lo < hi
            invariant
                srcs == self@.sources,
                placed(srcs),
                0 <= lo <= hi <= srcs.len(),
                forall|k: int| 0 <= k < lo ==> end_of(#[trigger] srcs[k]) <= offset.0,
                forall|k: int| hi <= k < srcs.len() ==> start_of(#[trigger] srcs[k]) > offset.0,
            decreases hi - lo,
        {
            let mid = lo + (hi - lo) / 2;
            let source = &self.sources[mid];
            assert(srcs[mid as int] == source@);
            assert(srcs[mid as int].offset is Some);
            if source.get_offset().0 > offset.0 {
                assert forall|k: int| mid <= k < srcs.len() implies start_of(#[trigger] srcs[k])
                    > offset.0 by {
                    if k > mid {
                        lemma_placed_ordered(srcs, mid as int, k);
                    }
                }
                hi = mid;
            } else if !source.contains(offset) {
                assert forall|k: int| 0 <= k <= mid implies end_of(#[trigger] srcs[k]) <= offset.0 by {
                    if k < mid {
                        lemma_placed_ordered(srcs, k, mid as int);
                    }
                }
                lo = mid + 1;
            } else {
                proof {
                    lemma_source_index_of(srcs, offset.0 as int, mid as int);
                }
                return Some(source);
            }
        }
        proof {
            lemma_source_index(srcs, offset.0 as int);
            if let Some(k) = source_index(srcs, offset.0 as int) {
                if k < lo {
                } else {
                    assert(start_of(srcs[k]) > offset.0);
                }
            }
        }
        None
    }

    /// The lines `location` covers, with the source holding its first byte.
    pub fn lookup_lines<'life>(&'life self, location: Location) -> (r: Result<FoundLines<'life>, ManagerError>)
        requires
            self.wf(),
        ensures
            match source_index(self@.sources, location.lo() as int) {
                None => r == Err::<FoundLines, ManagerError>(ManagerError::SourceNotFound(location)),
                Some(k) => match lookup_outcome(self@.lines, location) {
                    Err(e) => r == Err::<FoundLines, ManagerError>(ManagerError::Lines(e)),
                    Ok((f, l)) => r matches Ok(found) && found.spec_lines() == self@.lines.subrange(f, l)
                        && consecutive(found.spec_lines()) && found.spec_source() == self@.sources[k],
                },
            },
    {
        let source = match self.get_by_offset(location.get_start()) {
            Some(source) => source,
            None => return Err(ManagerError::SourceNotFound(location)),
        };
        let lines = match self.lines.lookup(location) {
            Ok(lines) => lines,
            Err(e) => return Err(ManagerError::Lines(e)),
        };
        Ok(FoundLines::new(lines, source))
    }
}

impl Default for Manager {
    fn default() -> (r: Manager)
        ensures
            r.wf(),
            r@.sources == Seq::<SourceView>::empty(),
            r.next_offset() == 0,
    {
        Manager::new()
    }
}

} // verus!
