use std::path::Path;

use trapir::organizer::{tally_outcomes, Organizer};

const CSV_A1: &str = "locality_id,station,image_id,scientific_id\nL1,S1,A1,Felis catus\n";

/// Performs one planned move the way the command-line front end does:
/// create the destination's parents, then move the file.
fn perform_move(source: &str, dest: &str) -> bool {
    let parent = match Path::new(dest).parent() {
        Some(p) => p,
        None => return false,
    };
    if fs_extra::dir::create_all(parent, false).is_err() {
        return false;
    }
    let options = fs_extra::file::CopyOptions::new();
    fs_extra::file::move_file(source, dest, &options).is_ok()
}

fn dir_file_count(path: &str) -> usize {
    fs_extra::dir::get_dir_content(path).map(|c| c.files.len()).unwrap_or(0)
}

#[test]
fn test_end_to_end_move() {
    let base = "/tmp/trapir_scratch_end_to_end";
    let _ = fs_extra::dir::remove(base);
    fs_extra::dir::create_all(&format!("{}/in", base), true).unwrap();
    fs_extra::file::write_all(&format!("{}/in/A1.JPG", base), "jpeg-bytes").unwrap();
    fs_extra::file::write_all(&format!("{}/in/B2.JPG", base), "jpeg-bytes").unwrap();

    let files = vec![
        format!("{}/in/A1.JPG", base),
        format!("{}/in/B2.JPG", base),
    ];
    let out = format!("{}/out", base);
    let mut org = Organizer::new();
    let plan = org.organize(&files, CSV_A1, &out).unwrap();

    let mut outcomes: Vec<bool> = Vec::new();
    for m in &plan.moves {
        outcomes.push(perform_move(&m.source, &m.dest));
    }
    let report = tally_outcomes(&plan.moves, &outcomes);
    assert_eq!(report.discovered, 2);
    assert_eq!(report.moved, 2);
    assert_eq!(report.errored, 0);
    assert_eq!(report.matched, 1);
    assert_eq!(report.unmatched, 1);

    assert!(Path::new(&format!("{}/out/Felis_catus/L1/S1/A1.JPG", base)).exists());
    assert!(Path::new(&format!("{}/out/unknown/B2.JPG", base)).exists());
    assert!(!Path::new(&format!("{}/in/A1.JPG", base)).exists());
    assert!(!Path::new(&format!("{}/in/B2.JPG", base)).exists());

    fs_extra::dir::remove(base).unwrap();
}

#[test]
fn test_move_leaves_nonempty_source_dir() {
    let base = "/tmp/trapir_scratch_nonempty_dir";
    let _ = fs_extra::dir::remove(base);
    fs_extra::dir::create_all(&format!("{}/in", base), true).unwrap();
    fs_extra::file::write_all(&format!("{}/in/A1.JPG", base), "one").unwrap();
    fs_extra::file::write_all(&format!("{}/in/keep.JPG", base), "two").unwrap();

    let files = vec![format!("{}/in/A1.JPG", base)];
    let out = format!("{}/out", base);
    let mut org = Organizer::new();
    let plan = org.organize(&files, CSV_A1, &out).unwrap();
    assert!(perform_move(&plan.moves[0].source, &plan.moves[0].dest));

    // The moved file is at its destination and gone from its source.
    assert!(Path::new(&format!("{}/out/Felis_catus/L1/S1/A1.JPG", base)).exists());
    assert!(!Path::new(&format!("{}/in/A1.JPG", base)).exists());
    // The source directory still holds the other file, so the cleanup the
    // front end attempts (remove only when empty) must leave it standing.
    assert!(Path::new(&format!("{}/in", base)).exists());
    assert_eq!(dir_file_count(&format!("{}/in", base)), 1);

    fs_extra::dir::remove(base).unwrap();
}

#[test]
fn test_rerun_plans_are_a_fixed_point() {
    let base = "/tmp/trapir_scratch_rerun";
    let _ = fs_extra::dir::remove(base);
    fs_extra::dir::create_all(&format!("{}/in", base), true).unwrap();
    fs_extra::file::write_all(&format!("{}/in/A1.JPG", base), "jpeg-bytes").unwrap();
    fs_extra::file::write_all(&format!("{}/in/B2.JPG", base), "jpeg-bytes").unwrap();

    let out = format!("{}/out", base);
    let files = vec![
        format!("{}/in/A1.JPG", base),
        format!("{}/in/B2.JPG", base),
    ];
    let mut org = Organizer::new();
    let plan = org.organize(&files, CSV_A1, &out).unwrap();
    for m in &plan.moves {
        assert!(perform_move(&m.source, &m.dest));
    }

    // A second run over the organized tree re-plans each file onto the
    // place it already holds: re-running cannot scatter the tree further.
    let moved = vec![
        format!("{}/out/Felis_catus/L1/S1/A1.JPG", base),
        format!("{}/out/unknown/B2.JPG", base),
    ];
    let mut org2 = Organizer::new();
    let plan2 = org2.organize(&moved, CSV_A1, &out).unwrap();
    assert_eq!(plan2.moves.len(), 2);
    assert_eq!(plan2.moves[0].source, plan2.moves[0].dest);
    assert!(plan2.moves[0].matched);
    // The unmatched file keeps routing to unknown, where it already is.
    assert_eq!(plan2.moves[1].source, plan2.moves[1].dest);
    assert!(!plan2.moves[1].matched);

    fs_extra::dir::remove(base).unwrap();
}
