use pagestore::grammar::{blank, is_word, read_text, read_u32, split_words};

#[test]
fn blanks_are_space_tab_and_line_ends() {
    assert!(blank(b' '));
    assert!(blank(b'\t'));
    assert!(blank(b'\n'));
    assert!(blank(b'\r'));
    assert!(!blank(b'a'));
    assert!(!blank(0));
    assert!(!blank(0x0B));
}

#[test]
fn words_are_maximal_runs_without_blanks() {
    assert_eq!(split_words(b""), vec![]);
    assert_eq!(split_words(b"   "), vec![]);
    assert_eq!(split_words(b"a"), vec![(0, 1)]);
    assert_eq!(split_words(b"ab  cd"), vec![(0, 2), (4, 6)]);
    assert_eq!(split_words(b" ab\tcd\r\n"), vec![(1, 3), (4, 6)]);
    assert_eq!(split_words(b"insert 1 a a@x.com"), vec![(0, 6), (7, 8), (9, 10), (11, 18)]);
}

#[test]
fn is_word_compares_a_range_with_a_word() {
    let line = b"insert 1";
    assert!(is_word(line, 0, 6, b"insert"));
    assert!(!is_word(line, 0, 5, b"insert"));
    assert!(!is_word(line, 1, 7, b"insert"));
    assert!(!is_word(line, 0, 6, b"insers"));
    assert!(is_word(line, 3, 3, b""));
}

#[test]
fn read_u32_reads_decimal_digits() {
    assert_eq!(read_u32(b"x123y", 1, 4), Some(123));
    assert_eq!(read_u32(b"0", 0, 1), Some(0));
    assert_eq!(read_u32(b"007", 0, 3), Some(7));
    assert_eq!(read_u32(b"4294967295", 0, 10), Some(u32::MAX));
    assert_eq!(read_u32(b"4294967296", 0, 10), None);
    assert_eq!(read_u32(b"12a", 0, 3), None);
    assert_eq!(read_u32(b"123", 1, 1), None);
    assert_eq!(read_u32(b"99999999999999999999x", 0, 21), None);
}

#[test]
fn read_text_checks_length_and_encoding() {
    assert_eq!(read_text(b"hello world", 6, 11, 5), Some("world".to_string()));
    assert_eq!(read_text(b"hello world", 6, 11, 4), None);
    assert_eq!(read_text(b"hello", 2, 2, 0), Some(String::new()));
    assert_eq!(read_text(&[0x7A, 0x6F, 0xC3, 0xAB], 0, 4, 4), Some("zoë".to_string()));
    assert_eq!(read_text(&[0x7A, 0x6F, 0xC3, 0xAB], 0, 3, 4), None);
    assert_eq!(read_text(&[0xFF], 0, 1, 4), None);
}
