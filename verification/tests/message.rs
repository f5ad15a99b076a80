use faststone_double_shot::message::{confirmation, error};

#[test]
fn confirmation_lists_each_path_under_a_count_header() {
    let paths = ["C:\\photos\\IMG_1234.jpg", "C:\\photos\\IMG_1234.cr2"];

    assert_eq!(
        confirmation(&paths),
        "Delete the following 2 file(s)?\n\n - C:\\photos\\IMG_1234.jpg\n - C:\\photos\\IMG_1234.cr2"
    );
}

#[test]
fn error_lists_each_failed_name_under_a_header() {
    let failed = vec!["IMG_1234.cr2".to_string()];

    assert_eq!(error(&failed), "Could not delete:\nIMG_1234.cr2");
}

// ----- further cases -----

#[test]
fn confirmation_counts_in_decimal() {
    let names: Vec<String> = (0..12).map(|i| format!("f{i}.jpg")).collect();
    let paths: Vec<&str> = names.iter().map(|s| s.as_str()).collect();
    let text = confirmation(&paths);
    assert!(text.starts_with("Delete the following 12 file(s)?\n\n - f0.jpg\n - f1.jpg\n"));
    assert!(text.ends_with(" - f11.jpg"));
    assert_eq!(confirmation(&["one.jpg"]), "Delete the following 1 file(s)?\n\n - one.jpg");
    let hundred: Vec<&str> = vec!["x"; 100];
    assert!(confirmation(&hundred).starts_with("Delete the following 100 file(s)?"));
}

#[test]
fn an_empty_list_keeps_the_header() {
    assert_eq!(confirmation(&[]), "Delete the following 0 file(s)?\n\n");
    assert_eq!(error(&[]), "Could not delete:\n");
}

#[test]
fn error_separates_names_by_line_breaks() {
    let failed = vec!["a.jpg".to_string(), "a.cr2".to_string(), "a.nef".to_string()];
    assert_eq!(error(&failed), "Could not delete:\na.jpg\na.cr2\na.nef");
}
