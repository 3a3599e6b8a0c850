use trapir::summary::Summary;

#[test]
fn test_summarize_groups_and_counts() {
    let s = Summary::new(vec![
        String::from("a/x.JPG"),
        String::from("b/y.jpg"),
        String::from("c/z.txt"),
        String::from("d/noext"),
    ]);
    let report = s.summarize();
    assert_eq!(report.total, 4);
    assert_eq!(report.extensions, vec![String::from("jpg"), String::from("txt")]);
    assert_eq!(report.counts, vec![2, 1]);
}

#[test]
fn test_summarize_sorted() {
    let s = Summary::new(vec![
        String::from("z.mp4"),
        String::from("a.avi"),
        String::from("m.jpeg"),
        String::from("n.AVI"),
    ]);
    let report = s.summarize();
    assert_eq!(
        report.extensions,
        vec![String::from("avi"), String::from("jpeg"), String::from("mp4")]
    );
    assert_eq!(report.counts, vec![2, 1, 1]);
}

#[test]
fn test_summarize_empty() {
    let s = Summary::new(Vec::new());
    let report = s.summarize();
    assert_eq!(report.total, 0);
    assert!(report.extensions.is_empty());
    assert!(report.counts.is_empty());
}

#[test]
fn test_parse_extension_skips_missing() {
    let s = Summary::new(Vec::new());
    let exts = s.parse_extension(&vec![
        String::from("photo.JPG"),
        String::from("plain"),
        String::from(".hidden"),
    ]);
    assert_eq!(exts, vec![String::from("jpg")]);
}
