use faststone_double_shot::matching::{find_matching_files, is_supported_name, sort_by_keys, FileEntry, KeyedEntry};
use faststone_double_shot::names::{chars_precede, names_eq_ignore_ascii_case, split_file_name};

const DIRECTORY: &str = "/photos";

fn entry(name: &str) -> FileEntry {
    FileEntry::new(format!("{DIRECTORY}/{name}"), name.to_string())
}

/// Names matched for `target` in a directory holding `files`.
fn matched_names(target: &str, files: &[&str]) -> Vec<String> {
    let directory: Vec<FileEntry> = files.iter().map(|name| entry(name)).collect();
    find_matching_files(&entry(target), &directory).iter().map(|e| e.name.clone()).collect()
}

#[test]
fn pairs_a_jpg_with_its_raw() {
    assert_eq!(matched_names("shot.jpg", &["shot.jpg", "shot.cr2"]), ["shot.cr2", "shot.jpg"]);
}

#[test]
fn matches_multiple_raw_formats_for_one_shot() {
    assert_eq!(
        matched_names("shot.jpg", &["shot.jpg", "shot.nef", "shot.dng"]),
        ["shot.dng", "shot.jpg", "shot.nef"]
    );
}

#[test]
fn matches_a_lone_jpg() {
    assert_eq!(matched_names("lonely.jpg", &["lonely.jpg"]), ["lonely.jpg"]);
}

#[test]
fn matches_a_lone_raw() {
    assert_eq!(matched_names("lonely.arw", &["lonely.arw"]), ["lonely.arw"]);
}

#[test]
fn does_not_cross_match_similar_names() {
    assert_eq!(
        matched_names("name.jpg", &["name.jpg", "name.cr2", "name2.jpg", "name2.cr2"]),
        ["name.cr2", "name.jpg"]
    );
}

#[test]
fn matches_uppercase_extensions() {
    assert_eq!(matched_names("upper.JPG", &["upper.JPG", "upper.CR2"]), ["upper.CR2", "upper.JPG"]);
}

#[test]
fn matches_base_names_case_insensitively() {
    assert_eq!(
        matched_names("IMG_0001.jpg", &["IMG_0001.jpg", "img_0001.cr2"]),
        ["img_0001.cr2", "IMG_0001.jpg"]
    );
}

#[test]
fn matches_three_or_more_files() {
    assert_eq!(
        matched_names("burst.jpg", &["burst.jpg", "burst.jpeg", "burst.cr2", "burst.nef"]),
        ["burst.cr2", "burst.jpeg", "burst.jpg", "burst.nef"]
    );
}

#[test]
fn ignores_unsupported_extensions() {
    assert_eq!(matched_names("mixed.jpg", &["mixed.jpg", "mixed.cr2", "mixed.tiff"]), ["mixed.cr2", "mixed.jpg"]);
}

#[test]
fn ignores_everything_when_the_target_is_unsupported() {
    assert!(matched_names("shot.tiff", &["shot.tiff", "shot.jpg", "shot.cr2"]).is_empty());
}

#[test]
fn matches_names_with_spaces() {
    assert_eq!(
        matched_names("a shot with spaces.jpg", &["a shot with spaces.jpg", "a shot with spaces.cr2"]),
        ["a shot with spaces.cr2", "a shot with spaces.jpg"]
    );
}

#[test]
fn matches_names_with_special_characters() {
    assert_eq!(
        matched_names("(edit)-final.jpg", &["(edit)-final.jpg", "(edit)-final.arw"]),
        ["(edit)-final.arw", "(edit)-final.jpg"]
    );
}

// ----- further cases -----

#[test]
fn the_result_does_not_depend_on_which_file_of_the_shot_is_selected() {
    let files = ["b.NEF", "b.jpg", "a.jpg", "B.cr2", "b.txt"];
    let from_jpg = matched_names("b.jpg", &files);
    assert_eq!(from_jpg, ["B.cr2", "b.jpg", "b.NEF"]);
    assert_eq!(matched_names("b.NEF", &files), from_jpg);
    assert_eq!(matched_names("B.cr2", &files), from_jpg);
}

#[test]
fn the_selected_file_is_always_among_its_matches() {
    let files = ["x.rw2", "y.rw2"];
    assert_eq!(matched_names("x.rw2", &files), ["x.rw2"]);
}

#[test]
fn equal_sort_keys_keep_directory_order() {
    assert_eq!(matched_names("a.jpg", &["A.jpg", "a.JPG", "a.jpg"]), ["A.jpg", "a.JPG", "a.jpg"]);
    assert_eq!(matched_names("a.jpg", &["a.jpg", "a.JPG", "A.jpg"]), ["a.jpg", "a.JPG", "A.jpg"]);
}

#[test]
fn returns_full_paths_of_the_matches() {
    let directory = vec![entry("shot.jpg"), entry("shot.orf")];
    let matches = find_matching_files(&entry("shot.jpg"), &directory);
    let paths: Vec<&str> = matches.iter().map(|e| e.path.as_str()).collect();
    assert_eq!(paths, ["/photos/shot.jpg", "/photos/shot.orf"]);
}

#[test]
fn every_supported_extension_is_recognised() {
    for ext in ["jpg", "jpeg", "cr2", "cr3", "nef", "arw", "raf", "orf", "rw2", "dng", "JpEg", "RW2"] {
        assert!(is_supported_name(&format!("shot.{ext}")), "{ext}");
    }
    for name in ["shot.tiff", "shot.png", "shot", "jpg", ".jpg", "shot.jpg.bak", "shot.jp", "shot.jpgx"] {
        assert!(!is_supported_name(name), "{name}");
    }
}

#[test]
fn a_dot_file_has_no_extension() {
    assert_eq!(split_file_name(".jpg"), (".jpg", None));
    assert_eq!(split_file_name(".."), ("..", None));
    assert_eq!(split_file_name("archive.tar.gz"), ("archive.tar", Some("gz")));
    assert_eq!(split_file_name("trailing."), ("trailing", Some("")));
    assert_eq!(split_file_name("plain"), ("plain", None));
    assert_eq!(split_file_name(".hidden.cr2"), (".hidden", Some("cr2")));
}

#[test]
fn case_folding_is_ascii_only() {
    assert!(names_eq_ignore_ascii_case("IMG_0001", "img_0001"));
    assert!(!names_eq_ignore_ascii_case("Été", "été"));
    assert!(!names_eq_ignore_ascii_case("shot", "shot2"));
    assert!(names_eq_ignore_ascii_case("", ""));
}

#[test]
fn names_order_by_code_point() {
    assert!(chars_precede("a", "b"));
    assert!(chars_precede("ab", "abc"));
    assert!(!chars_precede("abc", "ab"));
    assert!(!chars_precede("same", "same"));
    assert!(chars_precede("Z", "a"));
    assert!(chars_precede("z", "é"));
}

#[test]
fn sorting_goes_by_the_given_keys_and_keeps_ties_in_order() {
    let items = vec![
        KeyedEntry::new("b".to_string(), entry("first.jpg")),
        KeyedEntry::new("a".to_string(), entry("second.jpg")),
        KeyedEntry::new("b".to_string(), entry("third.jpg")),
        KeyedEntry::new("B".to_string(), entry("fourth.jpg")),
    ];
    let names: Vec<String> = sort_by_keys(&items).iter().map(|k| k.entry.name.clone()).collect();
    assert_eq!(names, ["fourth.jpg", "second.jpg", "first.jpg", "third.jpg"]);
    assert!(sort_by_keys(&[]).is_empty());
}

#[test]
fn a_listing_without_repeats_gives_matches_without_repeats() {
    let names = matched_names("s.jpg", &["s.cr2", "s.jpg", "s.nef", "t.jpg"]);
    let mut unique = names.clone();
    unique.dedup();
    assert_eq!(names, unique);
    assert_eq!(names.len(), 3);
}
