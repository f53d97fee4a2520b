use amber::cli::Cli;
use amber::diagnostic::{Diagnostic, Label, Severity};
use amber::location::{Location, Offset};
use amber::manager::{Manager, ManagerError};
use amber::source::{Source, SourceError};
use amber::text::{chars_of, decimal_string, width_of};
use std::cmp::Ordering;

#[test]
fn keeps_the_name_and_text_of_a_source() {
    let source = Source::new("main.ab", "héllo".as_bytes().to_vec()).unwrap();
    assert_eq!(source.get_name(), "main.ab");
    assert_eq!(source.get_source(), "héllo");
    assert_eq!(source.byte_count(), 6);
    assert!(!source.has_offset());
}

#[test]
fn refuses_bytes_that_are_not_utf8() {
    let result = Source::new("bad.ab", vec![0x66, 0xff, 0x6f]);
    assert!(matches!(result, Err(SourceError::InvalidUtf8)));
}

#[test]
fn places_sources_one_after_the_other() {
    let mut manager = Manager::new();
    let first = manager.add_source(Source::new("a.ab", b"abc\n".to_vec()).unwrap());
    assert_eq!(first.get_offset(), Offset(0));
    assert_eq!(first.get_end_offset(), Offset(4));
    let second = manager.add_source(Source::new("b.ab", b"de".to_vec()).unwrap());
    assert_eq!(second.get_offset(), Offset(4));
    assert_eq!(second.get_end_offset(), Offset(6));

    assert_eq!(manager.get_by_offset(Offset(3)).unwrap().get_name(), "a.ab");
    assert_eq!(manager.get_by_offset(Offset(4)).unwrap().get_name(), "b.ab");
    assert_eq!(manager.get_by_offset(Offset(5)).unwrap().get_name(), "b.ab");
    assert!(manager.get_by_offset(Offset(6)).is_none());
    assert_eq!(manager.get_lines().as_slice().len(), 2);
}

#[test]
fn compares_sources_with_offsets() {
    let mut manager = Manager::new();
    manager.add_source(Source::new("a.ab", b"ab".to_vec()).unwrap());
    let source = manager.add_source(Source::new("b.ab", b"cd".to_vec()).unwrap());
    assert!(matches!(source.compare_to(Offset(1)), Ordering::Greater));
    assert!(matches!(source.compare_to(Offset(2)), Ordering::Equal));
    assert!(matches!(source.compare_to(Offset(4)), Ordering::Less));
    assert!(source.contains(Offset(3)));
    assert!(!source.contains(Offset(4)));
}

#[test]
fn looks_lines_up_through_the_manager() {
    let mut manager = Manager::default();
    manager.add_source(Source::new("a.ab", b"ab\ncd".to_vec()).unwrap());
    manager.add_source(Source::new("b.ab", b"ef\n".to_vec()).unwrap());

    let found = manager.lookup_lines(Location::new(Offset(1), 3)).unwrap();
    assert_eq!(found.get_source().get_name(), "a.ab");
    let numbers: Vec<u32> = found.get_lines().iter().map(|l| l.get_number()).collect();
    assert_eq!(numbers, [1, 2]);

    let found = manager.lookup_lines(Location::new(Offset(5), 2)).unwrap();
    assert_eq!(found.get_source().get_name(), "b.ab");
    assert_eq!(found.get_lines()[0].get_number(), 1);

    let missing = Location::new(Offset(8), 1);
    assert_eq!(
        manager.lookup_lines(missing).err(),
        Some(ManagerError::SourceNotFound(missing))
    );
}

#[test]
fn measures_locations() {
    let location = Location::new(Offset(4), 3);
    assert_eq!(location.start(), Offset(4));
    assert_eq!(location.end(), Offset(7));
    assert_eq!(location.get_len(), 3);
    assert!(!location.is_empty());
    assert!(Location::new(Offset(4), 0).is_empty());
    assert!(location.contains(6));
    assert!(!location.contains(7));
    assert!(matches!(location.compare_to(3), Ordering::Greater));
    assert!(matches!(location.compare_to(5), Ordering::Equal));
    assert!(matches!(location.compare_to(7), Ordering::Less));
    assert_eq!(location.to_string(), "4..7");
    assert_eq!(Offset(5).advanced_by(2), Offset(7));
    assert_eq!(Offset(0).saturating_sub(1), Offset(0));
    assert_eq!(Offset(3).saturating_sub(1), Offset(2));
}

#[test]
fn writes_numbers_in_decimal() {
    assert_eq!(decimal_string(0), "0");
    assert_eq!(decimal_string(7), "7");
    assert_eq!(decimal_string(10), "10");
    assert_eq!(decimal_string(1234), "1234");
    assert_eq!(decimal_string(u32::MAX), "4294967295");
}

#[test]
fn measures_characters() {
    assert_eq!(width_of('a'), 1);
    assert_eq!(width_of('é'), 2);
    assert_eq!(width_of('€'), 3);
    assert_eq!(width_of('😀'), 4);
    assert_eq!(chars_of("aé€"), vec!['a', 'é', '€']);
}

#[test]
fn names_severities() {
    assert_eq!(Severity::Error.as_str(), "error");
    assert_eq!(Severity::Warning.as_str(), "warning");
    assert_eq!(Severity::Info.as_str(), "info");
}

#[test]
fn carries_labels_in_order() {
    let location = Location::new(Offset(0), 1);
    let diagnostic = Diagnostic::from_message(Severity::Warning, "careful".to_string(), location)
        .with_labels(vec![
            Label::new(Severity::Info, "first", location),
            Label::new(Severity::Error, "second", Location::new(Offset(2), 2)),
        ]);
    assert_eq!(diagnostic.get_message(), "careful");
    let labels = diagnostic.get_labels();
    assert_eq!(labels.len(), 2);
    assert_eq!(labels[0].get_message(), "first");
    assert!(matches!(labels[1].get_severity(), Severity::Error));
    assert_eq!(labels[1].get_location(), Location::new(Offset(2), 2));
}

#[test]
fn keeps_the_source_path() {
    let cli = Cli::new("src/main.ab".to_string());
    assert_eq!(cli.source(), "src/main.ab");
}

#[test]
fn measures_distances_between_offsets() {
    assert_eq!(Offset(7).minus(Offset(3)), Offset(4));
    assert_eq!(Offset(3).minus(Offset(3)), Offset(0));
}

#[test]
fn gives_back_the_bytes_it_was_made_from() {
    let bytes = "a\u{e9}\u{20ac}\n".as_bytes().to_vec();
    let source = Source::new("round.ab", bytes.clone()).unwrap();
    assert_eq!(source.get_source().as_bytes(), bytes.as_slice());
}
