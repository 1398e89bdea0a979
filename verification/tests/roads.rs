use roads2csv::{
    DeduplicatedRoads, FinalizedGridPositon, GridPosition, InputStreetValue, RoadGroup,
    StreetName,
};

fn record(name: &str, column: &str, row: usize) -> InputStreetValue {
    InputStreetValue {
        street_name: StreetName(String::from(name)),
        position: GridPosition { column: String::from(column), row },
    }
}

#[test]
fn test_deduplicate_streets() {
    let input = [
        InputStreetValue {
            street_name: StreetName(String::from("Valley View Road")),
            position: GridPosition { column: String::from("A"), row: 4 },
        },
        InputStreetValue {
            street_name: StreetName(String::from("Valley View Road")),
            position: GridPosition { column: String::from("A"), row: 5 },
        },
        InputStreetValue {
            street_name: StreetName(String::from("Valley View Road")),
            position: GridPosition { column: String::from("B"), row: 6 },
        },
    ];

    // "Valley View Road" -> ["A4", "A5", "B6"]
    let output_expected = DeduplicatedRoads {
        roads: vec![RoadGroup {
            name: StreetName(String::from("Valley View Road")),
            positions: vec![
                GridPosition { column: String::from("A"), row: 4 },
                GridPosition { column: String::from("A"), row: 5 },
                GridPosition { column: String::from("B"), row: 6 },
            ],
        }],
    };

    assert_eq!(DeduplicatedRoads::from_streets(&input), output_expected);
}

#[test]
fn test_format_street() {
    let street_grid_1 = GridPosition { column: String::from("A"), row: 9 };
    let street_grid_2 = GridPosition { column: String::from("I"), row: 5 };

    let road_pos_1 = FinalizedGridPositon::TwoRect(street_grid_1.clone(), street_grid_2);
    assert_eq!(street_grid_1.render(), String::from("A9"));
    assert_eq!(road_pos_1.render(), String::from("A9-I5"));
}

#[test]
fn duplicate_records_leave_grouping_unchanged() {
    let once = [
        record("Valley View Road", "A", 4),
        record("Valley View Road", "B", 6),
    ];
    let with_duplicates = [
        record("Valley View Road", "A", 4),
        record("Valley View Road", "A", 4),
        record("Valley View Road", "B", 6),
        record("Valley View Road", "A", 4),
    ];
    assert_eq!(
        DeduplicatedRoads::from_streets(&once),
        DeduplicatedRoads::from_streets(&with_duplicates)
    );
}

#[test]
fn permuted_input_gives_identical_output() {
    let forward = [
        record("Canterbury Road", "A", 9),
        record("Mayer Street", "B", 2),
        record("Mayer Street", "C", 3),
        record("Valley View Road", "A", 4),
        record("Valley View Road", "A", 5),
        record("Valley View Road", "B", 6),
    ];
    let shuffled = [
        record("Valley View Road", "B", 6),
        record("Mayer Street", "C", 3),
        record("Canterbury Road", "A", 9),
        record("Valley View Road", "A", 4),
        record("Mayer Street", "B", 2),
        record("Valley View Road", "A", 5),
    ];
    let a = DeduplicatedRoads::from_streets(&forward);
    let b = DeduplicatedRoads::from_streets(&shuffled);
    assert_eq!(a, b);
    let (pa, ua) = a.process();
    let (pb, ub) = b.process();
    assert_eq!(pa.to_csv("\t"), pb.to_csv("\t"));
    assert_eq!(ua.to_csv("\t"), ub.to_csv("\t"));
}

#[test]
fn every_street_lands_in_exactly_one_collection() {
    let input = [
        record("Canterbury Road", "A", 9),
        record("Mayer Street", "B", 2),
        record("Mayer Street", "C", 3),
        record("Valley View Road", "A", 4),
        record("Valley View Road", "A", 5),
        record("Valley View Road", "B", 6),
    ];
    let (processed, unprocessed) = DeduplicatedRoads::from_streets(&input).process();
    let processed_names: Vec<String> =
        processed.processed.iter().map(|r| r.name.0.clone()).collect();
    let unprocessed_names: Vec<String> =
        unprocessed.unprocessed.iter().map(|r| r.name.0.clone()).collect();
    assert_eq!(processed_names, vec!["Canterbury Road", "Mayer Street"]);
    assert_eq!(unprocessed_names, vec!["Valley View Road"]);
}

#[test]
fn cardinality_routes_single_two_and_many() {
    let input = [
        record("One Cell Way", "A", 9),
        record("Two Cell Lane", "I", 5),
        record("Two Cell Lane", "A", 9),
        record("Many Cell Drive", "A", 1),
        record("Many Cell Drive", "A", 2),
        record("Many Cell Drive", "A", 3),
    ];
    let (processed, unprocessed) = DeduplicatedRoads::from_streets(&input).process();
    assert_eq!(processed.processed.len(), 2);
    assert_eq!(unprocessed.unprocessed.len(), 1);
    assert!(matches!(
        processed.processed[0].position,
        FinalizedGridPositon::SingleRect(_)
    ));
    assert!(matches!(
        processed.processed[1].position,
        FinalizedGridPositon::TwoRect(_, _)
    ));
    // The two cells of "Two Cell Lane" come out smaller first.
    assert_eq!(processed.processed[1].position.render(), "A9-I5");
    assert_eq!(
        unprocessed.unprocessed[0].positions.iter().map(|p| p.render()).collect::<Vec<_>>(),
        vec!["A1", "A2", "A3"]
    );
}

#[test]
fn rendering_round_trip() {
    let input = [
        record("Valley View Road", "A", 4),
        record("Valley View Road", "A", 5),
        record("Valley View Road", "B", 6),
    ];
    let (processed, unprocessed) = DeduplicatedRoads::from_streets(&input).process();
    assert_eq!(processed.to_csv("\t"), "");
    assert_eq!(unprocessed.to_csv("\t"), "Valley View Road\tA4\tA5\tB6");
}

#[test]
fn single_position_formatting() {
    let input = [record("Canterbury Road", "A", 9)];
    let (processed, unprocessed) = DeduplicatedRoads::from_streets(&input).process();
    assert_eq!(processed.to_csv("\t"), "Canterbury Road\tA9");
    assert_eq!(unprocessed.to_csv("\t"), "");
}

#[test]
fn empty_input_renders_empty() {
    let input: [InputStreetValue; 0] = [];
    let deduplicated = DeduplicatedRoads::from_streets(&input);
    assert_eq!(deduplicated.roads.len(), 0);
    let (processed, unprocessed) = deduplicated.process();
    assert_eq!(processed.processed.len(), 0);
    assert_eq!(unprocessed.unprocessed.len(), 0);
    assert_eq!(processed.to_csv("\t"), "");
    assert_eq!(unprocessed.to_csv("\t"), "");
}

#[test]
fn lines_join_with_crlf_and_no_trailer() {
    let input = [
        record("Canterbury Road", "A", 9),
        record("Mayer Street", "B", 2),
        record("Zoo Lane", "C", 7),
    ];
    let (processed, _) = DeduplicatedRoads::from_streets(&input).process();
    assert_eq!(
        processed.to_csv("\t"),
        "Canterbury Road\tA9\r\nMayer Street\tB2\r\nZoo Lane\tC7"
    );
}

#[test]
fn rows_are_ordered_numerically_not_textually() {
    // "A10" would sort before "A2" as a string; the row is compared as a
    // number, so A2 must come first.
    let input = [
        record("Long Road", "A", 10),
        record("Long Road", "A", 2),
    ];
    let (processed, _) = DeduplicatedRoads::from_streets(&input).process();
    assert_eq!(processed.to_csv("\t"), "Long Road\tA2-A10");
}

#[test]
fn streets_are_sorted_by_name() {
    let input = [
        record("Mayer Street", "B", 2),
        record("Canterbury Road", "A", 9),
        record("Abbey Road", "C", 1),
    ];
    let deduplicated = DeduplicatedRoads::from_streets(&input);
    let names: Vec<String> = deduplicated.roads.iter().map(|g| g.name.0.clone()).collect();
    assert_eq!(names, vec!["Abbey Road", "Canterbury Road", "Mayer Street"]);
}

#[test]
fn row_zero_and_wide_rows_render_exactly() {
    assert_eq!(GridPosition { column: String::from("A"), row: 0 }.render(), "A0");
    assert_eq!(GridPosition { column: String::from("B"), row: 123 }.render(), "B123");
    assert_eq!(GridPosition { column: String::from("AB"), row: 40 }.render(), "AB40");
}

#[test]
fn delimiter_is_caller_supplied() {
    let input = [record("Canterbury Road", "A", 9)];
    let (processed, _) = DeduplicatedRoads::from_streets(&input).process();
    assert_eq!(processed.to_csv(";"), "Canterbury Road;A9");
    assert_eq!(processed.to_csv(""), "Canterbury RoadA9");
}
