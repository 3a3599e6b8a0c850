use trapir::finder::{match_extension, Finder};

#[test]
fn test_match_extension() {
    assert!(match_extension("jpg"));
    assert!(match_extension("JPG"));
    assert!(match_extension("jpeg"));
    assert!(match_extension("JPEG"));
    assert!(match_extension("avi"));
    assert!(match_extension("AVI"));
    assert!(match_extension("m4a"));
    assert!(match_extension("M4A"));
    assert!(match_extension("m4v"));
    assert!(match_extension("M4V"));
    assert!(match_extension("mp4"));
    assert!(match_extension("MP4"));
}

#[test]
fn test_match_extension_mixed_case() {
    assert!(match_extension("JpG"));
    assert!(match_extension("jPeG"));
    assert!(match_extension("Mp4"));
}

#[test]
fn test_match_extension_rejects_unlisted() {
    assert!(!match_extension("txt"));
    assert!(!match_extension("png"));
    assert!(!match_extension("gif"));
    assert!(!match_extension(""));
    assert!(!match_extension("jp"));
}

#[test]
fn test_match_extension_prefix_quirk() {
    // The allow-list is anchored only at the start: a prefix match.
    assert!(match_extension("jpgx"));
    assert!(match_extension("jpeg2000"));
}

#[test]
fn test_filter_media() {
    let finder = Finder::new(String::from("media"));
    assert_eq!(finder.input().as_str(), "media");
    let paths = vec![
        String::from("media/a/IMG_001.JPG"),
        String::from("media/a/notes.txt"),
        String::from("media/b/clip.mp4"),
        String::from("media/b/README"),
        String::from("media/c/song.M4A"),
    ];
    let kept = finder.filter_media(&paths);
    assert_eq!(
        kept,
        vec![
            String::from("media/a/IMG_001.JPG"),
            String::from("media/b/clip.mp4"),
            String::from("media/c/song.M4A"),
        ]
    );
}
