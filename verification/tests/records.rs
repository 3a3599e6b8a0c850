use trapir::records::{path_key, records_from_table, LoadError};

fn header() -> Vec<String> {
    vec![
        String::from("locality_id"),
        String::from("station"),
        String::from("image_id"),
        String::from("scientific_id"),
    ]
}

fn row(loc: &str, sta: &str, img: &str, sci: &str) -> Vec<String> {
    vec![
        String::from(loc),
        String::from(sta),
        String::from(img),
        String::from(sci),
    ]
}

#[test]
fn test_records_from_table_reads_rows() {
    let rows = vec![
        row("L1", "S1", "A1", "Felis catus"),
        row("L2", "S9", "b7.jpg", "Rattus sp."),
    ];
    let recs = records_from_table(&header(), &rows).unwrap();
    assert_eq!(recs.len(), 2);
    assert_eq!(recs[0].locality_id, "L1");
    assert_eq!(recs[0].station, "S1");
    assert_eq!(recs[0].image_id, "A1");
    assert_eq!(recs[0].scientific_id, "Felis catus");
    assert_eq!(recs[1].image_id, "b7.jpg");
}

#[test]
fn test_records_from_table_header_order_free() {
    // Columns are found by name, not by position.
    let shuffled = vec![
        String::from("image_id"),
        String::from("scientific_id"),
        String::from("locality_id"),
        String::from("station"),
    ];
    let rows = vec![vec![
        String::from("A1"),
        String::from("Felis catus"),
        String::from("L1"),
        String::from("S1"),
    ]];
    let recs = records_from_table(&shuffled, &rows).unwrap();
    assert_eq!(recs[0].image_id, "A1");
    assert_eq!(recs[0].locality_id, "L1");
}

#[test]
fn test_records_from_table_missing_column() {
    let bad = vec![
        String::from("locality"),
        String::from("station"),
        String::from("image_id"),
        String::from("scientific_id"),
    ];
    let rows = vec![];
    match records_from_table(&bad, &rows) {
        Err(LoadError::MissingColumn(c)) => assert_eq!(c, "locality_id"),
        _ => panic!("expected a missing-column error"),
    }
}

#[test]
fn test_records_from_table_row_width() {
    let rows = vec![
        row("L1", "S1", "A1", "Felis catus"),
        vec![String::from("L2"), String::from("S2")],
    ];
    match records_from_table(&header(), &rows) {
        Err(LoadError::RowWidth(i)) => assert_eq!(i, 1),
        _ => panic!("expected a row-width error"),
    }
}

#[test]
fn test_records_from_table_unsafe_record() {
    let rows = vec![row("L1/..", "S1", "A1", "Felis catus")];
    match records_from_table(&header(), &rows) {
        Err(LoadError::UnsafeRecord(i)) => assert_eq!(i, 0),
        _ => panic!("expected an unsafe-record error"),
    }
    let rows = vec![row("L1", "..", "A1", "Felis catus")];
    assert!(matches!(
        records_from_table(&header(), &rows),
        Err(LoadError::UnsafeRecord(0))
    ));
    // A taxon name of periods only sanitizes to an empty component.
    let rows = vec![row("L1", "S1", "A1", "...")];
    assert!(matches!(
        records_from_table(&header(), &rows),
        Err(LoadError::UnsafeRecord(0))
    ));
}

#[test]
fn test_path_key() {
    assert_eq!(path_key("in/nested/photo_7.jpg"), "PHOTO_7");
    assert_eq!(path_key("A1.JPG"), "A1");
    assert_eq!(path_key("noext"), "NOEXT");
}
