use amber::line_map::{Line, LineMap, LineMapError};
use amber::location::{Location, Offset};

fn map_of(texts: &[&str]) -> LineMap {
    let mut map = LineMap::new();
    let mut offset = Offset(0);
    for text in texts {
        map.extend_from(text, offset);
        offset = Offset(offset.0 + text.len() as u32);
    }
    map
}

fn spans(map: &LineMap) -> Vec<(u32, u32, u32)> {
    map.as_slice()
        .iter()
        .map(|l| (l.get_location().get_start().0, l.get_location().get_len(), l.get_number()))
        .collect()
}

fn numbers(map: &LineMap, location: Location) -> Vec<u32> {
    map.lookup(location).unwrap().iter().map(Line::get_number).collect()
}

#[test]
fn maps_text_onto_lines_that_own_their_newline() {
    let cases = [
        ("", vec![]),
        ("abc", vec![(0, 3, 1)]),
        ("abc\n", vec![(0, 4, 1)]),
        ("abc\ndef", vec![(0, 4, 1), (4, 3, 2)]),
        ("a\n\nb", vec![(0, 2, 1), (2, 1, 2), (3, 1, 3)]),
        ("a\r\nb", vec![(0, 3, 1), (3, 1, 2)]),
    ];

    for (text, expected) in cases {
        assert_eq!(spans(&map_of(&[text])), expected, "mapping {text:?}");
    }
}

#[test]
fn continues_offsets_but_restarts_line_numbers_per_source() {
    assert_eq!(
        spans(&map_of(&["a\nb", "c\nd"])),
        [(0, 2, 1), (2, 1, 2), (3, 2, 1), (5, 1, 2)]
    );
}

#[test]
fn lines_tile_the_source_without_gaps() {
    let text = "abc\n\ndef\r\n\nghi";
    let map = map_of(&[text]);

    let mut expected = Offset(0);
    for line in map.as_slice() {
        assert_eq!(line.get_location().get_start(), expected);
        expected = line.get_location().get_end();
    }
    assert_eq!(expected, Offset(text.len() as u32));
}

#[test]
fn looks_up_the_lines_a_span_covers() {
    let map = map_of(&["abc\ndef\nghi"]);
    let cases = [
        (Location::new(Offset(0), 3), vec![1]),
        (Location::new(Offset(0), 4), vec![1]),
        (Location::new(Offset(4), 3), vec![2]),
        (Location::new(Offset(2), 7), vec![1, 2, 3]),
    ];

    for (location, expected) in cases {
        assert_eq!(
            numbers(&map, location),
            expected,
            "looking up {}",
            location.to_string()
        );
    }
}

#[test]
fn looks_up_a_blank_line() {
    let map = map_of(&["a\n\nb"]);
    assert_eq!(numbers(&map, Location::new(Offset(2), 1)), [2]);
}

#[test]
fn clamps_an_empty_location_onto_the_preceding_byte() {
    let map = map_of(&["abc\ndef"]);
    let cases = [(Offset(0), vec![1]), (Offset(4), vec![1]), (Offset(7), vec![2])];

    for (point, expected) in cases {
        let location = Location::new(point, 0);
        assert_eq!(
            numbers(&map, location),
            expected,
            "clamping {}",
            location.to_string()
        );
    }
}

#[test]
fn rejects_a_span_crossing_sources() {
    let map = map_of(&["ab", "cd"]);
    let error = map.lookup(Location::new(Offset(1), 2)).unwrap_err();
    assert!(matches!(error, LineMapError::CrossesFileBoundary(_)));
}

#[test]
fn rejects_a_location_outside_the_map() {
    let map = map_of(&["abc"]);
    let empty = map_of(&[]);
    let cases = [
        (&map, Location::new(Offset(3), 1)),
        (&map, Location::new(Offset(9), 0)),
        (&empty, Location::new(Offset(0), 1)),
        (&empty, Location::new(Offset(0), 0)),
    ];

    for (map, location) in cases {
        let error = map.lookup(location).unwrap_err();
        assert!(
            matches!(error, LineMapError::LinesNotFound(_)),
            "looking up {}",
            location.to_string()
        );
    }
}

#[test]
fn names_the_byte_it_could_not_find() {
    let map = map_of(&["abc"]);
    assert_eq!(
        map.lookup(Location::new(Offset(9), 0)).unwrap_err(),
        LineMapError::LinesNotFound(Offset(8))
    );
    assert_eq!(
        map.lookup(Location::new(Offset(5), 2)).unwrap_err(),
        LineMapError::LinesNotFound(Offset(5))
    );
}

#[test]
fn reports_the_crossing_location() {
    let map = map_of(&["ab\n", "cd"]);
    let location = Location::new(Offset(2), 2);
    assert_eq!(
        map.lookup(location).unwrap_err(),
        LineMapError::CrossesFileBoundary(location)
    );
}

#[test]
fn finds_a_span_that_runs_past_the_last_line() {
    let map = map_of(&["ab\ncd"]);
    assert_eq!(numbers(&map, Location::new(Offset(4), 10)), [2]);
}

#[test]
fn measures_columns_from_the_line_start() {
    let map = map_of(&["abc\ndef"]);
    let lines = map.lookup(Location::new(Offset(5), 1)).unwrap();
    assert_eq!(lines[0].get_column(Location::new(Offset(5), 1)), 1);
    assert_eq!(lines[0].get_column(Location::new(Offset(7), 0)), 3);
    assert_eq!(lines[0].get_source_offset(), Offset(0));
}

#[test]
fn default_map_is_empty() {
    let map = LineMap::default();
    assert!(map.as_slice().is_empty());
}

#[test]
fn writes_line_map_errors() {
    assert_eq!(
        LineMapError::LinesNotFound(Offset(12)).to_string(),
        "Offset 12 is not within any line"
    );
    assert_eq!(
        LineMapError::CrossesFileBoundary(Location::new(Offset(1), 2)).to_string(),
        "Location 1..3 crosses file boundaries"
    );
}

#[test]
fn finds_adjacent_lines_numbered_in_order() {
    let map = map_of(&["x\n", "a\nbb\n\nc"]);
    let lines = map.lookup(Location::new(Offset(3), 5)).unwrap();
    let numbers: Vec<u32> = lines.iter().map(Line::get_number).collect();
    assert_eq!(numbers, [1, 2, 3]);
    for pair in lines.windows(2) {
        assert_eq!(pair[0].get_location().get_end(), pair[1].get_location().get_start());
        assert_eq!(pair[0].get_source_offset(), pair[1].get_source_offset());
    }
}
