use pagestore::{Row, TableError};

fn row(id: u32, username: &str, email: &str) -> Row {
    Row { id, username: username.to_string(), email: email.to_string() }
}

#[test]
fn encode_small_row_gives_exact_bytes() {
    let bytes = row(1, "a", "a@x.com").encode().unwrap();
    assert_eq!(bytes, vec![1, 1, b'a', 7, b'a', b'@', b'x', b'.', b'c', b'o', b'm']);
}

#[test]
fn encode_matches_bincode_on_the_fields() {
    let r = row(70000, "alice", "alice@example.com");
    let expected =
        bincode::encode_to_vec((70000u32, "alice", "alice@example.com"), bincode::config::standard())
            .unwrap();
    assert_eq!(r.encode().unwrap(), expected);
}

#[test]
fn encode_id_at_the_one_byte_limit() {
    assert_eq!(row(250, "", "").encode().unwrap(), vec![250, 0, 0]);
}

#[test]
fn encode_id_in_two_bytes() {
    assert_eq!(row(251, "", "").encode().unwrap(), vec![251, 251, 0, 0, 0]);
    assert_eq!(row(65535, "", "").encode().unwrap(), vec![251, 255, 255, 0, 0]);
}

#[test]
fn encode_id_in_four_bytes() {
    assert_eq!(row(65536, "", "").encode().unwrap(), vec![252, 0, 0, 1, 0, 0, 0]);
    assert_eq!(row(u32::MAX, "", "").encode().unwrap(), vec![252, 255, 255, 255, 255, 0, 0]);
}

#[test]
fn encode_long_text_has_a_three_byte_length() {
    let email = "e".repeat(300);
    let bytes = row(0, "", &email).encode().unwrap();
    assert_eq!(bytes.len(), 1 + 1 + 3 + 300);
    assert_eq!(&bytes[..5], &[0, 0, 251, 44, 1]);
    assert!(bytes[5..].iter().all(|b| *b == b'e'));
}

#[test]
fn encode_counts_text_in_bytes_not_characters() {
    let bytes = row(0, "é", "").encode().unwrap();
    assert_eq!(bytes, vec![0, 2, 0xC3, 0xA9, 0]);
}

#[test]
fn decode_inverts_encode() {
    let rows = vec![
        row(0, "", ""),
        row(1, "a", "a@x.com"),
        row(251, "bob", "bob@example.org"),
        row(u32::MAX, &"u".repeat(32), &"e".repeat(255)),
        row(42, "zoë", "zoë@exämple.com"),
    ];
    for r in rows {
        let bytes = r.encode().unwrap();
        let (back, used) = Row::decode(&bytes).unwrap();
        assert_eq!(back, r);
        assert_eq!(used, bytes.len());
    }
}

#[test]
fn decode_ignores_what_follows_the_row() {
    let r = row(7, "carol", "carol@x.com");
    let mut bytes = r.encode().unwrap();
    let len = bytes.len();
    bytes.extend_from_slice(&[0, 0, 0, 9, 9, 9]);
    let (back, used) = Row::decode(&bytes).unwrap();
    assert_eq!(back, r);
    assert_eq!(used, len);
}

#[test]
fn decode_of_nothing_fails() {
    assert_eq!(Row::decode(&[]), Err(TableError::DecodeError));
}

#[test]
fn decode_of_truncated_length_prefix_fails() {
    assert_eq!(Row::decode(&[1, 251, 5]), Err(TableError::DecodeError));
}

#[test]
fn decode_of_truncated_field_fails() {
    let bytes = row(1, "alice", "alice@x.com").encode().unwrap();
    assert_eq!(Row::decode(&bytes[..bytes.len() - 1]), Err(TableError::DecodeError));
    assert_eq!(Row::decode(&bytes[..3]), Err(TableError::DecodeError));
}

#[test]
fn decode_of_invalid_utf8_fails() {
    assert_eq!(Row::decode(&[1, 2, 0xFF, 0xFE, 0]), Err(TableError::DecodeError));
}

#[test]
fn decode_of_a_huge_length_prefix_fails() {
    let bytes = [1, 253, 255, 255, 255, 255, 255, 255, 255, 255, 0];
    assert_eq!(Row::decode(&bytes), Err(TableError::DecodeError));
}

#[test]
fn decode_of_zero_bytes_is_an_empty_row() {
    let (back, used) = Row::decode(&[0, 0, 0, 0]).unwrap();
    assert_eq!(back, row(0, "", ""));
    assert_eq!(used, 3);
}

#[test]
fn error_messages() {
    assert_eq!(TableError::TableIsFull.message(), "Table is full");
    assert_eq!(TableError::PageIsFull.message(), "Page is full");
    assert_eq!(TableError::EncodeError.message(), "Failed to encode");
    assert_eq!(TableError::DecodeError.message(), "Failed to decode");
    assert_eq!(TableError::IoError.message(), "IO Error");
}

#[test]
fn row_text_is_id_username_email() {
    assert_eq!(row(1, "a", "a@x.com").to_text(), "1 a a@x.com");
    assert_eq!(row(0, "", "").to_text(), "0  ");
    assert_eq!(row(10, "bob", "bob@example.org").to_text(), "10 bob bob@example.org");
    assert_eq!(row(4294967295, "zoë", "z").to_text(), "4294967295 zoë z");
    assert_eq!(row(1234567890, "u", "e").to_text(), "1234567890 u e");
    assert_eq!(row(907, "u", "e").to_text(), "907 u e");
}

#[test]
fn row_text_is_what_formatting_the_fields_gives() {
    for id in [0u32, 9, 10, 99, 100, 101, 1000, 65535, 65536, 999999999, 1000000000, u32::MAX] {
        let r = row(id, "user", "user@x.com");
        assert_eq!(r.to_text(), format!("{} {} {}", r.id, r.username, r.email));
    }
}
