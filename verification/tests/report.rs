use amber::diagnostic::{Diagnostic, Label, Listener, Severity};
use amber::line_map::LineMapError;
use amber::location::{Location, Offset};
use amber::manager::{Manager, ManagerError};
use amber::report::{render_entry, render_report};
use amber::source::Source;

fn manager_with(texts: &[(&str, &str)]) -> Manager {
    let mut manager = Manager::new();
    for (name, text) in texts {
        let source = Source::new(name, text.as_bytes().to_vec()).unwrap();
        manager.add_source(source);
    }
    manager
}

/// Writes each diagnostic's report into a buffer, and panics on one that
/// cannot be placed.
struct BufferListener<'life> {
    manager: &'life Manager,
    buffer: &'life mut String,
}

impl<'life> Listener for BufferListener<'life> {
    fn report(&mut self, diagnostic: Diagnostic) {
        let (text, failure) = render_report(self.manager, &diagnostic);
        self.buffer.push_str(&text);
        if let Some((location, error)) = failure {
            panic!(
                "Cannot report diagnostic at {}: {}",
                location.to_string(),
                error.to_string()
            );
        }
    }
}

fn report_all(manager: &Manager, diagnostics: Vec<Diagnostic>) -> String {
    let mut buffer = String::new();
    {
        let mut listener = BufferListener { manager, buffer: &mut buffer };
        for diagnostic in diagnostics {
            listener.report(diagnostic);
        }
    }
    buffer
}

fn error_at(message: &str, start: u32, len: u32) -> Diagnostic {
    Diagnostic::new(Severity::Error, message, Location::new(Offset(start), len))
}

#[test]
fn reports_a_diagnostic_without_labels() {
    let manager = manager_with(&[("main.ab", "let foo = 1\n")]);

    let output = report_all(&manager, vec![error_at("undefined variable", 4, 3)]);
    assert_eq!(output, "main.ab:1:5: error: undefined variable\n");
}

#[test]
fn indents_labels_under_their_diagnostic() {
    let manager = manager_with(&[("main.ab", "let foo = 1\nlet bar = 2\n")]);

    let diagnostic = Diagnostic::new(
        Severity::Error,
        "undefined variable",
        Location::new(Offset(16), 3),
    )
    .with_labels(vec![
        Label::new(Severity::Info, "declared here", Location::new(Offset(4), 3)),
        Label::new(Severity::Warning, "shadowed here", Location::new(Offset(0), 3)),
    ]);

    let output = report_all(&manager, vec![diagnostic]);
    assert_eq!(
        output,
        [
            "main.ab:2:5: error: undefined variable\n",
            "    main.ab:1:5: info: declared here\n",
            "    main.ab:1:1: warning: shadowed here\n",
        ]
        .concat()
    );
}

#[test]
#[should_panic(expected = "Cannot report diagnostic")]
fn panics_when_the_location_has_no_source() {
    let manager = Manager::new();
    report_all(&manager, vec![error_at("undefined variable", 0, 3)]);
}

#[test]
fn names_the_source_that_holds_the_location() {
    let manager = manager_with(&[("a.ab", "one\n"), ("b.ab", "two\nthree\n")]);
    let output = report_all(&manager, vec![error_at("here", 8, 5), error_at("there", 9, 1)]);
    assert_eq!(output, "b.ab:2:1: error: here\nb.ab:2:2: error: there\n");
}

#[test]
fn counts_columns_of_an_empty_location_from_its_own_start() {
    let manager = manager_with(&[("main.ab", "abc\ndef")]);
    let entry = render_entry(&manager, Severity::Warning, "inside", Location::new(Offset(6), 0), false);
    assert_eq!(entry.unwrap(), "main.ab:2:3: warning: inside\n");
    let entry = render_entry(&manager, Severity::Warning, "line start", Location::new(Offset(4), 0), false);
    assert_eq!(entry.unwrap(), "main.ab:1:5: warning: line start\n");
    let end = Location::new(Offset(7), 0);
    let entry = render_entry(&manager, Severity::Warning, "at end", end, false);
    assert_eq!(entry, Err(ManagerError::SourceNotFound(end)));
    let entry = render_entry(&manager, Severity::Info, "at start", Location::new(Offset(0), 0), true);
    assert_eq!(entry.unwrap(), "    main.ab:1:1: info: at start\n");
}

#[test]
fn writes_large_line_numbers_in_decimal() {
    let text = "\n".repeat(1234);
    let manager = manager_with(&[("big.ab", &text)]);
    let entry = render_entry(&manager, Severity::Error, "deep", Location::new(Offset(1233), 1), false);
    assert_eq!(entry.unwrap(), "big.ab:1234:1: error: deep\n");
}

#[test]
fn keeps_the_entries_before_the_first_that_fails() {
    let manager = manager_with(&[("main.ab", "let foo = 1\n")]);
    let diagnostic = error_at("undefined variable", 4, 3).with_labels(vec![
        Label::new(Severity::Info, "lost", Location::new(Offset(40), 1)),
        Label::new(Severity::Info, "never written", Location::new(Offset(0), 1)),
    ]);
    let (text, failure) = render_report(&manager, &diagnostic);
    assert_eq!(text, "main.ab:1:5: error: undefined variable\n");
    let location = Location::new(Offset(40), 1);
    assert_eq!(failure, Some((location, ManagerError::SourceNotFound(location))));
}

#[test]
fn fails_on_a_span_crossing_sources() {
    let manager = manager_with(&[("a.ab", "ab"), ("b.ab", "cd")]);
    let location = Location::new(Offset(1), 2);
    let entry = render_entry(&manager, Severity::Error, "across", location, false);
    assert_eq!(
        entry,
        Err(ManagerError::Lines(LineMapError::CrossesFileBoundary(location)))
    );
}

#[test]
fn writes_manager_errors() {
    let location = Location::new(Offset(0), 3);
    assert_eq!(
        ManagerError::SourceNotFound(location).to_string(),
        "Source not found for location: 0..3"
    );
    assert_eq!(
        ManagerError::Lines(LineMapError::LinesNotFound(Offset(7))).to_string(),
        "Offset 7 is not within any line"
    );
}

#[test]
fn points_an_empty_location_at_a_source_start_into_the_line_before() {
    let manager = manager_with(&[("a.ab", "ab\n"), ("b.ab", "cd")]);
    let entry = render_entry(&manager, Severity::Info, "here", Location::new(Offset(3), 0), false);
    assert_eq!(entry.unwrap(), "b.ab:1:4: info: here\n");
}
