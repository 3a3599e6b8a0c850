use trapir::organizer::{tally_outcomes, Organizer};
use trapir::records::LoadError;

const CSV_BASIC: &str = "locality_id,station,image_id,scientific_id\nL1,S1,A1,Felis catus\n";

#[test]
fn test_organize_plans_matched_and_unknown() {
    let mut org = Organizer::new();
    let files = vec![String::from("in/A1.JPG"), String::from("in/B2.JPG")];
    let plan = org.organize(&files, CSV_BASIC, "out").unwrap();
    assert_eq!(plan.moves.len(), 2);
    assert_eq!(plan.moves[0].source, "in/A1.JPG");
    assert_eq!(plan.moves[0].dest, "out/Felis_catus/L1/S1/A1.JPG");
    assert!(plan.moves[0].matched);
    assert_eq!(plan.moves[1].source, "in/B2.JPG");
    assert_eq!(plan.moves[1].dest, "out/unknown/B2.JPG");
    assert!(!plan.moves[1].matched);
    assert!(plan.duplicate_keys.is_empty());
    assert_eq!(org.record_count(), 1);
    assert_eq!(org.taxon_count(), 1);
}

#[test]
fn test_organize_key_is_case_insensitive_stem() {
    let mut org = Organizer::new();
    // The CSV id carries a path and an extension; the file differs in case.
    let csv = "locality_id,station,image_id,scientific_id\nL4,S2,shots/a1.jpeg,Mus musculus\n";
    let files = vec![String::from("in/sub/A1.JPG")];
    let plan = org.organize(&files, csv, "out").unwrap();
    assert!(plan.moves[0].matched);
    assert_eq!(plan.moves[0].dest, "out/Mus_musculus/L4/S2/A1.JPG");
}

#[test]
fn test_organize_last_write_wins_and_warns() {
    let mut org = Organizer::new();
    let csv = "locality_id,station,image_id,scientific_id\n\
               L1,S1,A1,Felis catus\n\
               L2,S2,a1,Felis catus\n";
    let files = vec![String::from("in/A1.JPG")];
    let plan = org.organize(&files, csv, "out").unwrap();
    // Both rows normalize to the key A1; the later row decides the index.
    assert_eq!(plan.moves[0].dest, "out/Felis_catus/L2/S2/A1.JPG");
    let dups: Vec<&str> = plan.duplicate_keys.iter().map(|k| k.as_str()).collect();
    assert_eq!(dups, vec!["A1"]);
    assert_eq!(org.record_count(), 2);
    assert_eq!(org.taxon_count(), 1);
}

#[test]
fn test_organize_quoted_fields() {
    let mut org = Organizer::new();
    // A quoted taxon holding a comma must come back as one field.
    let csv = "locality_id,station,image_id,scientific_id\nL1,S1,A1,\"Felis, catus\"\n";
    let files = vec![String::from("A1.JPG")];
    let plan = org.organize(&files, csv, "out").unwrap();
    assert_eq!(plan.moves[0].dest, "out/Felis,_catus/L1/S1/A1.JPG");
}

#[test]
fn test_organize_csv_error() {
    let mut org = Organizer::new();
    // The second row has one field too many: the whole load fails.
    let csv = "locality_id,station,image_id,scientific_id\nL1,S1,A1,Felis catus,extra\n";
    let files = vec![String::from("A1.JPG")];
    assert!(matches!(
        org.organize(&files, csv, "out"),
        Err(LoadError::Csv(_))
    ));
}

#[test]
fn test_organize_missing_column() {
    let mut org = Organizer::new();
    let csv = "locality,station,image_id,scientific_id\nL1,S1,A1,Felis catus\n";
    let files = vec![];
    match org.organize(&files, csv, "out") {
        Err(LoadError::MissingColumn(c)) => assert_eq!(c, "locality_id"),
        _ => panic!("expected a missing-column error"),
    }
}

#[test]
fn test_organize_unsafe_record() {
    let mut org = Organizer::new();
    let csv = "locality_id,station,image_id,scientific_id\n..,S1,A1,Felis catus\n";
    let files = vec![];
    assert!(matches!(
        org.organize(&files, csv, "out"),
        Err(LoadError::UnsafeRecord(0))
    ));
}

#[test]
fn test_organize_header_only_csv() {
    let mut org = Organizer::new();
    let csv = "locality_id,station,image_id,scientific_id\n";
    let files = vec![String::from("in/A1.JPG")];
    let plan = org.organize(&files, csv, "out").unwrap();
    assert_eq!(org.record_count(), 0);
    assert_eq!(org.taxon_count(), 0);
    assert!(!plan.moves[0].matched);
    assert_eq!(plan.moves[0].dest, "out/unknown/A1.JPG");
}

#[test]
fn test_tally_outcomes_all_moved() {
    let mut org = Organizer::new();
    let files = vec![
        String::from("in/A1.JPG"),
        String::from("in/B2.JPG"),
        String::from("in/C3.JPG"),
    ];
    let plan = org.organize(&files, CSV_BASIC, "out").unwrap();
    let outcomes = vec![true, true, true];
    let report = tally_outcomes(&plan.moves, &outcomes);
    assert_eq!(report.discovered, 3);
    assert_eq!(report.moved, 3);
    assert_eq!(report.errored, 0);
    assert_eq!(report.matched, 1);
    assert_eq!(report.unmatched, 2);
}

#[test]
fn test_tally_outcomes_with_failures() {
    let mut org = Organizer::new();
    let files = vec![String::from("in/A1.JPG"), String::from("in/B2.JPG")];
    let plan = org.organize(&files, CSV_BASIC, "out").unwrap();
    let outcomes = vec![false, true];
    let report = tally_outcomes(&plan.moves, &outcomes);
    assert_eq!(report.discovered, 2);
    assert_eq!(report.moved, 1);
    assert_eq!(report.errored, 1);
}
