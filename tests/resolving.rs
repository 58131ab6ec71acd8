use wcr::count::FileInfo;
use wcr::manifest::{read_null_separated, ManifestError};
use wcr::report::{direct_files, total, Config};

fn names(b: &[u8]) -> Vec<String> {
    read_null_separated(b).unwrap()
}

#[test]
fn manifest_without_trailing_nul() {
    assert_eq!(names(b"a\0b\0c"), vec!["a", "b", "c"]);
}

#[test]
fn manifest_with_trailing_nul() {
    assert_eq!(names(b"a\0b\0c\0"), vec!["a", "b", "c"]);
}

#[test]
fn empty_manifest_names_nothing() {
    assert!(names(b"").is_empty());
}

#[test]
fn manifest_keeps_empty_and_odd_names() {
    assert_eq!(names(b"\0"), vec![""]);
    assert_eq!(names(b"a\0\0b"), vec!["a", "", "b"]);
    assert_eq!(names("x y\nz\0é".as_bytes()), vec!["x y\nz", "é"]);
}

#[test]
fn manifest_with_invalid_name() {
    assert_eq!(
        read_null_separated(b"ok\0b\xffad\0c"),
        Err(ManifestError::InvalidName { index: 1 })
    );
    assert_eq!(
        read_null_separated(b"\xff"),
        Err(ManifestError::InvalidName { index: 0 })
    );
}

#[test]
fn no_selection_means_lines_words_bytes() {
    let c = Config::new(vec!["f".to_string()], false, false, false, false, false);
    assert!(c.lines && c.words && c.bytes && !c.chars && !c.max_line_length);
    assert_eq!(c.files, vec!["f".to_string()]);
    let c = Config::new(vec![], false, false, false, true, false);
    assert!(!c.lines && !c.words && !c.bytes && c.chars && !c.max_line_length);
}

#[test]
fn no_file_means_standard_input() {
    assert_eq!(direct_files(vec![]), vec!["-".to_string()]);
    let given = vec!["b".to_string(), "a".to_string(), "b".to_string()];
    assert_eq!(direct_files(given.clone()), given);
}

fn info(n: usize) -> FileInfo {
    FileInfo {
        lines_counts: n,
        words_counts: 2 * n,
        bytes_counts: 3 * n,
        chars_counts: 4 * n,
        max_line_length: 5 * n,
    }
}

#[test]
fn one_file_has_no_total() {
    assert_eq!(total(&vec![Some(info(1))]), None);
    assert_eq!(total(&vec![None]), None);
}

#[test]
fn two_files_have_their_sum() {
    assert_eq!(total(&vec![Some(info(1)), Some(info(2))]), Some(info(3)));
    assert_eq!(total(&vec![Some(info(4)), None, Some(info(2))]), Some(info(6)));
}

#[test]
fn zero_files_have_a_zero_total() {
    assert_eq!(total(&vec![]), Some(info(0)));
}
