use trapir::records::{component_ok, record_key, sanitize};

#[test]
fn test_sanitize_trailing_period() {
    assert_eq!(
        sanitize("Panthera tigris sumatrae."),
        "Panthera_tigris_sumatrae"
    );
}

#[test]
fn test_sanitize_abbreviation() {
    assert_eq!(sanitize("Rattus sp."), "Rattus_sp");
}

#[test]
fn test_sanitize_trims_and_collapses() {
    assert_eq!(sanitize("  Felis   catus  "), "Felis_catus");
    assert_eq!(sanitize("\tMus\nmusculus\r"), "Mus_musculus");
}

#[test]
fn test_sanitize_empty_and_periods_only() {
    assert_eq!(sanitize(""), "");
    assert_eq!(sanitize("..."), "");
    assert_eq!(sanitize("   "), "");
}

#[test]
fn test_record_key_from_filename() {
    assert_eq!(record_key(" img/IMG_001.jpg "), "IMG_001");
    assert_eq!(record_key("a1"), "A1");
    assert_eq!(record_key("shot.JPEG"), "SHOT");
}

#[test]
fn test_component_ok() {
    assert!(component_ok("Felis_catus"));
    assert!(!component_ok(""));
    assert!(!component_ok(".."));
    assert!(!component_ok("a/b"));
    assert!(component_ok("."));
}
