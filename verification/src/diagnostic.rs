//! Diagnostics: what went wrong, how badly, and where.

use crate::location::Location;
use vstd::prelude::*;

verus! {

/// How serious a diagnostic is.
#[derive(Debug, Clone, Copy, PartialEq, Eq, Structural)]
pub enum Severity {
    Error,
    Warning,
    Info,
}

/// The word that names a severity in reports.
pub open spec fn severity_text(s: Severity) -> Seq<char> {
    match s {
        Severity::Error => "error"@,
        Severity::Warning => "warning"@,
        Severity::Info => "info"@,
    }
}

impl Severity {
    /// The word that names the severity in reports.
    pub fn as_str(&self) -> (r: &'static str)
        ensures
            r@ == severity_text(*self),
    {
        match self {
            Severity::Error => "error",
            Severity::Warning => "warning",
            Severity::Info => "info",
        }
    }
}

/// What a label is: a severity, a message and a location.
pub struct LabelView {
    pub severity: Severity,
    pub message: Seq<char>,
    pub location: Location,
}

/// A secondary note attached to a diagnostic.
#[derive(Debug)]
pub struct Label {
    severity: Severity,
    message: String,
    location: Location,
}

impl View for Label {
    type V = LabelView;

    closed spec fn view(&self) -> LabelView {
        LabelView { severity: self.severity, message: self.message@, location: self.location }
    }
}

impl Label {
    /// A label with the given severity, message and location.
    pub fn new(severity: Severity, message: &str, location: Location) -> (r: Label)
        ensures
            r@ == (LabelView { severity, message: message@, location }),
    {
        Label { severity, message: message.to_owned(), location }
    }

    /// How serious the label is.
    pub fn get_severity(&self) -> (r: Severity)
        ensures
            r == self@.severity,
    {
        self.severity
    }

    /// The label's message.
    pub fn get_message(&self) -> (r: &str)
        ensures
            r@ == self@.message,
    {
        self.message.as_str()
    }

    /// Where the label points.
    pub fn get_location(&self) -> (r: Location)
        ensures
            r == self@.location,
    {
        self.location
    }
}

/// The views of a sequence of labels.
pub open spec fn label_views(ls: Seq<Label>) -> Seq<LabelView> {
    ls.map_values(|l: Label| l@)
}

/// What a diagnostic is: a severity, a message, a location and its labels.
pub struct DiagnosticView {
    pub severity: Severity,
    pub message: Seq<char>,
    pub location: Location,
    pub labels: Seq<LabelView>,
}

/// A report about a location in the sources.
#[derive(Debug)]
pub struct Diagnostic {
    severity: Severity,
    message: String,
    location: Location,
    labels: Vec<Label>,
}

impl View for Diagnostic {
    type V = DiagnosticView;

    closed spec fn view(&self) -> DiagnosticView {
        DiagnosticView {
            severity: self.severity,
            message: self.message@,
            location: self.location,
            labels: label_views(self.labels@),
        }
    }
}

impl Diagnostic {
    /// A diagnostic without labels.
    pub fn new(severity: Severity, message: &str, location: Location) -> (r: Diagnostic)
        ensures
            r@ == (DiagnosticView {
                severity,
                message: message@,
                location,
                labels: Seq::empty(),
            }),
    {
        let r = Diagnostic { severity, message: message.to_owned(), location, labels: Vec::new() };
        assert(r@.labels =~= Seq::<LabelView>::empty());
        r
    }

    /// The diagnostic whose message is the given string.
    pub fn from_message(severity: Severity, message: String, location: Location) -> (r: Diagnostic)
        ensures
            r@ == (DiagnosticView {
                severity,
                message: message@,
                location,
                labels: Seq::empty(),
            }),
    {
        let r = Diagnostic { severity, message, location, labels: Vec::new() };
        assert(r@.labels =~= Seq::<LabelView>::empty());
        r
    }

    /// The same diagnostic carrying `labels`, in order.
    pub fn with_labels(self, labels: Vec<Label>) -> (r: Diagnostic)
        ensures
            r@ == (DiagnosticView { labels: label_views(labels@), ..self@ }),
    {
        Diagnostic { labels, ..self }
    }

    /// How serious the diagnostic is.
    pub fn get_severity(&self) -> (r: Severity)
        ensures
            r == self@.severity,
    {
        self.severity
    }

    /// The diagnostic's message.
    pub fn get_message(&self) -> (r: &str)
        ensures
            r@ == self@.message,
    {
        self.message.as_str()
    }

    /// Where the diagnostic points.
    pub fn get_location(&self) -> (r: Location)
        ensures
            r == self@.location,
    {
        self.location
    }

    /// The labels attached to the diagnostic, in order.
    pub fn get_labels(&self) -> (r: &[Label])
        ensures
            label_views(r@) == self@.labels,
    {
        self.labels.as_slice()
    }
}

/// Receives diagnostics as they are produced. An implementation takes in
/// each diagnostic after those it has taken in before; verified code relies
/// on that through `reports`.
pub trait Listener {
    /// The diagnostics the listener has taken in so far, in order. Every
    /// implementation is to define it: the default is one fixed value that
    /// no proof can learn, and an implementation that keeps it cannot meet
    /// the contract of `report`.
    closed spec fn reports(&self) -> Seq<DiagnosticView> {
        vstd::pervasive::arbitrary()
    }

    /// Takes in one diagnostic, after those it has taken in before.
    fn report(&mut self, diagnostic: Diagnostic)
        ensures
            final(self).reports() == old(self).reports().push(diagnostic@),
    ;
}

} // verus!
