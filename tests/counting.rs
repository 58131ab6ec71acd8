use wcr::count::{compute_line_len, count, CountError, FileInfo};
use wcr::report::format_field;

fn info(lines: usize, words: usize, bytes: usize, chars: usize, width: usize) -> FileInfo {
    FileInfo {
        lines_counts: lines,
        words_counts: words,
        bytes_counts: bytes,
        chars_counts: chars,
        max_line_length: width,
    }
}

#[test]
fn test_count() {
    let text_1 = "I don't want the world, I just want your half.\r\n";
    let info_1 = count(text_1.as_bytes());
    assert!(info_1.is_ok());
    assert!(info_1.is_ok());
    let expected = FileInfo {
        lines_counts: 1,
        words_counts: 10,
        bytes_counts: 48,
        chars_counts: 48,
        max_line_length: 46,
    };
    assert_eq!(info_1.unwrap(), expected);

    let text_2 = "";
    let info_2 = count(text_2.as_bytes());
    assert!(info_2.is_ok());
    assert!(info_2.is_ok());
    let expected = FileInfo {
        lines_counts: 0,
        words_counts: 0,
        bytes_counts: 0,
        chars_counts: 0,
        max_line_length: 0,
    };
    assert_eq!(info_2.unwrap(), expected);
}

#[test]
fn test_format_field() {
    let res = format_field(true, 33);
    let expected = format!("{:>8}", 33);
    assert_eq!(res, expected);

    let res = format_field(true, 221);
    let expected = format!("{:>8}", 221);
    assert_eq!(res, expected);

    let res = format_field(false, 33);
    let expected = format!("");
    assert_eq!(res, expected);
}

#[test]
fn test_compute_line_len() {
    let line = "I don't want the world, I just want your half.\r\n";
    assert_eq!(compute_line_len(line), 46);

    let line = "Two.";
    assert_eq!(compute_line_len(line), 4);

    let line = "";
    assert_eq!(compute_line_len(line), 0);
}

#[test]
fn format_field_pads_to_eight() {
    assert_eq!(format_field(true, 5), "       5");
    assert_eq!(format_field(true, 0), "       0");
    assert_eq!(format_field(true, 12345678), "12345678");
    assert_eq!(format_field(true, 123456789), "123456789");
}

#[test]
fn width_of_tabs() {
    assert_eq!(compute_line_len("\t"), 8);
    assert_eq!(compute_line_len("\t\t\t"), 24);
    assert_eq!(compute_line_len("\tab"), 10);
    assert_eq!(compute_line_len("abc\tx"), 9);
    assert_eq!(compute_line_len("abcdefgh\t"), 16);
}

#[test]
fn width_of_printable_ascii_is_length() {
    assert_eq!(compute_line_len("hello, world ~"), 14);
}

#[test]
fn width_of_wide_and_zero_width_chars() {
    assert_eq!(compute_line_len("日本"), 4);
    assert_eq!(compute_line_len("e\u{301}"), 1);
    assert_eq!(compute_line_len("a\u{1}b"), 2);
}

#[test]
fn width_stops_at_line_end() {
    assert_eq!(compute_line_len("ab\rcdef"), 2);
    assert_eq!(compute_line_len("ab\ncdef"), 2);
}

#[test]
fn max_width_is_widest_line() {
    assert_eq!(count(b"ab\nabcd\nx").unwrap(), info(3, 3, 9, 9, 4));
    assert_eq!(count(b"\t\n").unwrap(), info(1, 0, 2, 2, 8));
}

#[test]
fn bytes_are_utf8_length() {
    let text = "héllo\n";
    let whole = count(text.as_bytes()).unwrap();
    assert_eq!(whole.bytes_counts, 7);
    assert_eq!(whole.chars_counts, 6);
    let a = count("hé".as_bytes()).unwrap();
    let b = count("llo\n".as_bytes()).unwrap();
    assert_eq!(a.bytes_counts + b.bytes_counts, whole.bytes_counts);
}

#[test]
fn lines_count_newlines_and_trailing_text() {
    assert_eq!(count(b"a\nb").unwrap().lines_counts, 2);
    assert_eq!(count(b"a\nb\n").unwrap().lines_counts, 2);
    assert_eq!(count(b"\n\n").unwrap().lines_counts, 2);
    assert_eq!(count(b"abc").unwrap().lines_counts, 1);
}

#[test]
fn words_split_on_ascii_whitespace() {
    assert_eq!(count(b"  \t\r\n \x0c").unwrap().words_counts, 0);
    assert_eq!(count(b"a\x0bb").unwrap().words_counts, 2);
    assert_eq!(count(b" one  two\tthree\n").unwrap().words_counts, 3);
}

#[test]
fn blank_line_adds_nothing_but_a_line() {
    assert_eq!(count(b"\n").unwrap(), info(1, 0, 1, 1, 0));
}

#[test]
fn invalid_utf8_is_refused() {
    assert_eq!(count(b"ab\xff\n"), Err(CountError::InvalidUtf8));
}

#[test]
fn line_counts_join_into_stream_counts() {
    let first = count(b"ab cd\n").unwrap();
    let second = count("\t日本 x".as_bytes()).unwrap();
    let whole = count("ab cd\n\t日本 x".as_bytes()).unwrap();
    assert_eq!(first.followed_by(&second), whole);
    assert_eq!(whole, info(2, 4, 15, 11, 14));
}

#[test]
fn width_of_tabs_then_newline() {
    assert_eq!(compute_line_len("\t\t\n"), 16);
    assert_eq!(compute_line_len("\n"), 0);
}
