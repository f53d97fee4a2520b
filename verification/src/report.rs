//! Reports: diagnostics written as lines of text that point into the sources.

use crate::diagnostic::{label_views, severity_text, Diagnostic, DiagnosticView, LabelView, Severity};
use crate::line_map::{ended_by, lemma_counts_bounded, lookup_outcome, probe_end, probe_start, spans_of};
use crate::location::Location;
use crate::manager::{
    end_of,
    lemma_all_lines_tile,
    lemma_lookup_within_source,
    lemma_manager_wf,
    lemma_source_index,
    lemma_source_index_of,
    lemma_source_within,
    lemma_sources_cover,
    source_index,
    start_of,
    total_end,
    Manager,
    ManagerError,
    ManagerView,
};
use crate::source::SourceView;
use crate::text::{decimal, decimal_string};
use crate::tiling::{holds, lemma_first_unended_holds, lemma_tiling_holds};
use vstd::prelude::*;
use vstd::string::*;

verus! {

/// One line of a report: a severity, a message, where it points, and
/// whether it stands indented under the diagnostic it belongs to.
pub struct EntryView {
    pub severity: Severity,
    pub message: Seq<char>,
    pub location: Location,
    pub indent: bool,
}

/// The indentation of an entry: four spaces for a label, none otherwise.
pub open spec fn indent_text(indent: bool) -> Seq<char> {
    if indent {
        "    "@
    } else {
        Seq::empty()
    }
}

/// `name:number:column: severity: message` and a newline, after the indentation.
pub open spec fn entry_text(
    indent: bool,
    name: Seq<char>,
    number: nat,
    column: nat,
    severity: Severity,
    message: Seq<char>,
) -> Seq<char> {
    indent_text(indent) + name + ":"@ + decimal(number) + ":"@ + decimal(column) + ": "@
        + severity_text(severity) + ": "@ + message + "\n"@
}

/// What reporting one entry against the manager `m` gives: its text, naming
/// the source that holds the location's first byte, the number of the first
/// line the location covers, and the column, counted from one, at which the
/// location starts within that line; or why the lines were not found.
pub open spec fn entry_outcome(m: ManagerView, e: EntryView) -> Result<Seq<char>, ManagerError> {
    match source_index(m.sources, e.location.lo() as int) {
        None => Err(ManagerError::SourceNotFound(e.location)),
        Some(k) => match lookup_outcome(m.lines, e.location) {
            Err(err) => Err(ManagerError::Lines(err)),
            Ok(range) => {
                let line = m.lines[range.0];
                Ok(
                    entry_text(
                        e.indent,
                        m.sources[k].name,
                        line.number,
                        (e.location.lo() - line.start + 1) as nat,
                        e.severity,
                        e.message,
                    ),
                )
            },
        },
    }
}

/// The entries of a diagnostic: the diagnostic itself, then its labels,
/// indented, in order.
pub open spec fn entries_of(d: DiagnosticView) -> Seq<EntryView> {
    seq![EntryView { severity: d.severity, message: d.message, location: d.location, indent: false }]
        + d.labels.map_values(
        |l: LabelView|
            EntryView { severity: l.severity, message: l.message, location: l.location, indent: true },
    )
}

/// What reporting entries in order gives: the text of the entries before
/// the first one that fails, and that entry's location and error, if one does.
pub open spec fn report_outcome(m: ManagerView, es: Seq<EntryView>) -> (Seq<char>, Option<(Location, ManagerError)>)
    decreases es.len(),
{
    if es.len() == 0 {
        (Seq::empty(), None)
    } else {
        let p = report_outcome(m, es.drop_last());
        if p.1 is Some {
            p
        } else {
            match entry_outcome(m, es.last()) {
                Ok(t) => (p.0 + t, None),
                Err(err) => (p.0, Some((es.last().location, err))),
            }
        }
    }
}

/// A diagnostic's entries: first the diagnostic itself, unindented, then one
/// entry per label, in order, each indented whatever its severity, with the
/// label's severity, message and location.
pub proof fn lemma_entries_of(d: DiagnosticView)
    ensures
        entries_of(d).len() == d.labels.len() + 1,
        entries_of(d)[0] == (EntryView {
            severity: d.severity,
            message: d.message,
            location: d.location,
            indent: false,
        }),
        forall|i: int|
            0 <= i < d.labels.len() ==> (#[trigger] entries_of(d)[i + 1]).indent && entries_of(d)[i
                + 1].severity == d.labels[i].severity && entries_of(d)[i + 1].message
                == d.labels[i].message && entries_of(d)[i + 1].location == d.labels[i].location,
{
}

/// An entry that can be placed names the source holding its location's
/// first byte and, for both its line number and its column (counted from
/// one), the line holding the byte its lookup starts from.
pub proof fn lemma_entry_names_first_line(m: &Manager, e: EntryView, k: int, f: int)
    requires
        m.wf(),
        entry_outcome(m@, e) is Ok,
        0 <= k < m@.sources.len(),
        start_of(m@.sources[k]) <= e.location.lo() < end_of(m@.sources[k]),
        holds(m@.lines, f, probe_start(e.location)),
    ensures
        entry_outcome(m@, e) == Ok::<Seq<char>, ManagerError>(
            entry_text(
                e.indent,
                m@.sources[k].name,
                m@.lines[f].number,
                (e.location.lo() - m@.lines[f].start + 1) as nat,
                e.severity,
                e.message,
            ),
        ),
{
    let srcs = m@.sources;
    let ls = m@.lines;
    let loc = e.location;
    lemma_manager_wf(m);
    lemma_source_index_of(srcs, loc.lo() as int, k);
    lemma_all_lines_tile(srcs);
    lemma_source_within(srcs, k);
    lemma_first_unended_holds(ls, 0, total_end(srcs) as int, probe_start(loc));
    let g = lemma_tiling_holds(ls, 0, total_end(srcs) as int, probe_start(loc));
    assert(ended_by(ls, probe_start(loc)) as int == g);
    assert(f == g);
}

/// The span starts inside one of the sources and does not run past its end.
pub open spec fn inside_one_source(srcs: Seq<SourceView>, loc: Location) -> bool {
    exists|k: int|
        0 <= k < srcs.len() && start_of(srcs[k]) <= loc.lo() < end_of(#[trigger] srcs[k])
            && loc.lo() <= loc.hi() <= end_of(srcs[k])
}

/// An entry whose location starts inside a source and does not run past
/// its end is always reported.
pub proof fn lemma_entry_inside_source_reported(m: &Manager, e: EntryView)
    requires
        m.wf(),
        inside_one_source(m@.sources, e.location),
    ensures
        entry_outcome(m@, e) is Ok,
{
    let srcs = m@.sources;
    let loc = e.location;
    let k = choose|k: int|
        0 <= k < srcs.len() && start_of(srcs[k]) <= loc.lo() < end_of(#[trigger] srcs[k])
            && loc.lo() <= loc.hi() <= end_of(srcs[k]);
    lemma_manager_wf(m);
    lemma_source_index_of(srcs, loc.lo() as int, k);
    lemma_source_within(srcs, k);
    if probe_start(loc) >= start_of(srcs[k]) {
        lemma_lookup_within_source(srcs, k, loc);
    } else {
        lemma_sources_cover(srcs, probe_start(loc));
        lemma_source_index(srcs, probe_start(loc));
        let j = source_index(srcs, probe_start(loc))->0;
        lemma_lookup_within_source(srcs, j, loc);
    }
}

/// A report whose entries all point inside one source each fails nowhere.
pub proof fn lemma_report_complete(m: &Manager, es: Seq<EntryView>)
    requires
        m.wf(),
        forall|i: int| 0 <= i < es.len() ==> inside_one_source(m@.sources, (#[trigger] es[i]).location),
    ensures
        report_outcome(m@, es).1 is None,
    decreases es.len(),
{
    if es.len() > 0 {
        let t = es.drop_last();
        assert forall|i: int| 0 <= i < t.len() implies inside_one_source(m@.sources, (#[trigger] t[i]).location) by {
            assert(t[i] == es[i]);
        }
        lemma_report_complete(m, t);
        lemma_entry_inside_source_reported(m, es.last());
    }
}

/// A report of one entry is that entry's text, or its failure at its location.
pub proof fn lemma_report_single(m: ManagerView, e: EntryView)
    ensures
        report_outcome(m, seq![e]) == (match entry_outcome(m, e) {
            Ok(t) => (t, None),
            Err(err) => (Seq::<char>::empty(), Some((e.location, err))),
        }),
{
    assert(seq![e].drop_last() =~= Seq::<EntryView>::empty());
    assert(report_outcome(m, Seq::<EntryView>::empty()) == (
        Seq::<char>::empty(),
        None::<(Location, ManagerError)>,
    ));
    assert(Seq::<char>::empty() + entry_outcome(m, e)->Ok_0 =~= entry_outcome(m, e)->Ok_0);
}

/// Entries are written in order: the report of a longer list starts with
/// the report of any first part of it, and writing one more entry appends
/// its text or stops at it.
pub proof fn lemma_report_extends(m: ManagerView, es: Seq<EntryView>, n: int)
    requires
        0 <= n <= es.len(),
    ensures
        report_outcome(m, es).0.len() >= report_outcome(m, es.take(n)).0.len(),
        report_outcome(m, es).0.subrange(0, report_outcome(m, es.take(n)).0.len() as int)
            == report_outcome(m, es.take(n)).0,
        report_outcome(m, es.take(n)).1 is Some ==> report_outcome(m, es) == report_outcome(
            m,
            es.take(n),
        ),
    decreases es.len() - n,
{
    if n == es.len() {
        assert(es.take(n) =~= es);
    } else {
        lemma_report_extends(m, es, n + 1);
        let a = report_outcome(m, es.take(n));
        let b = report_outcome(m, es.take(n + 1));
        assert(es.take(n + 1).drop_last() =~= es.take(n));
        let c = report_outcome(m, es);
        assert(b.0.subrange(0, a.0.len() as int) =~= a.0);
        assert(c.0.subrange(0, a.0.len() as int) =~= b.0.subrange(0, a.0.len() as int));
    }
}

/// Once an entry fails, the entries after it change nothing.
pub proof fn lemma_report_stops(m: ManagerView, es: Seq<EntryView>, n: int)
    requires
        0 <= n <= es.len(),
        report_outcome(m, es.take(n)).1 is Some,
    ensures
        report_outcome(m, es) == report_outcome(m, es.take(n)),
    decreases es.len() - n,
{
    if n < es.len() {
        assert(es.take(n + 1).drop_last() =~= es.take(n));
        lemma_report_stops(m, es, n + 1);
    } else {
        assert(es.take(n) =~= es);
    }
}

/// The report line of one entry: where `location` lies in the sources of
/// `manager`, its severity and its message.
pub fn render_entry(
    manager: &Manager,
    severity: Severity,
    message: &str,
    location: Location,
    indent: bool,
) -> (r: Result<String, ManagerError>)
    requires
        manager.wf(),
    ensures
        ({
            let e = EntryView { severity, message: message@, location, indent };
            match entry_outcome(manager@, e) {
                Ok(t) => r matches Ok(s) && s@ == t,
                Err(err) => r == Err::<String, ManagerError>(err),
            }
        }),
{
    let found = match manager.lookup_lines(location) {
        Ok(found) => found,
        Err(e) => return Err(e),
    };
    let lines = found.get_lines();
    proof {
        let srcs = manager@.sources;
        let ls = manager@.lines;
        lemma_manager_wf(manager);
        lemma_all_lines_tile(srcs);
        lemma_source_index(srcs, location.lo() as int);
        let k = source_index(srcs, location.lo() as int)->0;
        lemma_source_within(srcs, k);
        lemma_first_unended_holds(ls, 0, total_end(srcs) as int, probe_start(location));
        let range = lookup_outcome(ls, location)->Ok_0;
        lemma_counts_bounded(ls, probe_start(location), probe_end(location));
        assert(0 <= range.0 < range.1 <= ls.len());
        assert(spans_of(lines@) == ls.subrange(range.0, range.1));
        assert(spans_of(lines@).len() == lines@.len());
        assert(spans_of(lines@)[0] == lines@[0]@);
        assert(lines@[0]@ == ls[range.0]);
    }
    let line = &lines[0];
    let name = found.get_source().get_name();
    let number = decimal_string(line.get_number());
    let column = decimal_string(line.get_column(location) + 1);
    let mut out = if indent {
        String::from_str("    ")
    } else {
        String::new()
    };
    out.append(name);
    out.append(":");
    out.append(number.as_str());
    out.append(":");
    out.append(column.as_str());
    out.append(": ");
    out.append(severity.as_str());
    out.append(": ");
    out.append(message);
    out.append("\n");
    Ok(out)
}

/// The report of a diagnostic: its own entry, then one indented entry per
/// label, in order. Where an entry cannot be placed, the text holds the
/// entries before it and the second part says where and why.
pub fn render_report(manager: &Manager, diagnostic: &Diagnostic) -> (r: (
    String,
    Option<(Location, ManagerError)>,
))
    requires
        manager.wf(),
    ensures
        r.0@ == report_outcome(manager@, entries_of(diagnostic@)).0,
        r.1 == report_outcome(manager@, entries_of(diagnostic@)).1,
{
    let ghost es = entries_of(diagnostic@);
    let mut out = String::new();
    let location = diagnostic.get_location();
    proof {
        assert(es.take(1).drop_last() =~= Seq::<EntryView>::empty());
        assert(es.take(1).last() == es[0]);
        assert(report_outcome(manager@, Seq::<EntryView>::empty()) == (
            Seq::<char>::empty(),
            None::<(Location, ManagerError)>,
        ));
    }
    match render_entry(manager, diagnostic.get_severity(), diagnostic.get_message(), location, false) {
        Ok(t) => {
            out.append(t.as_str());
        },
        Err(e) => {
            proof {
                lemma_report_stops(manager@, es, 1);
            }
            return (out, Some((location, e)));
        },
    }
    let labels = diagnostic.get_labels();
    let mut i: usize = 0;
    while i < labels.len()
        invariant
            es == entries_of(diagnostic@),
            label_views(labels@) == diagnostic@.labels,
            0 <= i <= labels.len(),
            manager.wf(),
            out@ == report_outcome(manager@, es.take(i + 1)).0,
            report_outcome(manager@, es.take(i + 1)).1 is None,
        decreases labels.len() - i,
    {
        let label = &labels[i];
        let here = label.get_location();
        proof {
            assert(es.take(i + 2).drop_last() =~= es.take(i + 1));
            assert(es.take(i + 2).last() == es[i + 1]);
            assert(label_views(labels@)[i as int] == label@);
        }
        match render_entry(manager, label.get_severity(), label.get_message(), here, true) {
            Ok(t) => {
                out.append(t.as_str());
            },
            Err(e) => {
                proof {
                    lemma_report_stops(manager@, es, i + 2);
                }
                return (out, Some((here, e)));
            },
        }
        i = i + 1;
    }
    proof {
        assert(es.take(labels.len() + 1) =~= es);
    }
    (out, None)
}

} // verus!
