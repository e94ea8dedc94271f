use pagestore::{parse_statement, Insert, Row, Select, Statement, EMAIL_MAX_BYTES, USERNAME_MAX_BYTES};

fn insert(id: u32, username: &str, email: &str) -> Result<Statement, String> {
    Ok(Statement::Insert(Insert {
        row: Row { id, username: username.to_string(), email: email.to_string() },
    }))
}

fn refused(line: &str) -> Result<Statement, String> {
    Err(format!("Unrecognized command: {}", line))
}

#[test]
fn select_is_a_statement() {
    assert_eq!(parse_statement("select"), Ok(Statement::Select(Select)));
    assert_eq!(parse_statement("  select \t"), Ok(Statement::Select(Select)));
    assert_eq!(parse_statement("select\n"), Ok(Statement::Select(Select)));
}

#[test]
fn select_takes_no_words_after_it() {
    assert_eq!(parse_statement("select 1"), refused("select 1"));
    assert_eq!(parse_statement("select select"), refused("select select"));
}

#[test]
fn keywords_are_lower_case() {
    assert_eq!(parse_statement("SELECT"), refused("SELECT"));
    assert_eq!(parse_statement("Insert 1 a a@x.com"), refused("Insert 1 a a@x.com"));
    assert_eq!(parse_statement("selec"), refused("selec"));
    assert_eq!(parse_statement("selects"), refused("selects"));
}

#[test]
fn insert_carries_a_row() {
    assert_eq!(parse_statement("insert 1 a a@x.com"), insert(1, "a", "a@x.com"));
    assert_eq!(
        parse_statement("  insert  7\tbob   bob@example.org \r\n"),
        insert(7, "bob", "bob@example.org")
    );
}

#[test]
fn insert_needs_exactly_three_words() {
    assert_eq!(parse_statement("insert"), refused("insert"));
    assert_eq!(parse_statement("insert 1"), refused("insert 1"));
    assert_eq!(parse_statement("insert 1 a"), refused("insert 1 a"));
    assert_eq!(parse_statement("insert 1 a b c"), refused("insert 1 a b c"));
}

#[test]
fn empty_and_blank_lines_are_no_statements() {
    assert_eq!(parse_statement(""), refused(""));
    assert_eq!(parse_statement("   \t "), refused("   \t "));
    assert_eq!(parse_statement("update 1 a b"), refused("update 1 a b"));
}

#[test]
fn identifier_is_a_decimal_number_of_32_bits() {
    assert_eq!(parse_statement("insert 0 u e"), insert(0, "u", "e"));
    assert_eq!(parse_statement("insert 4294967295 u e"), insert(u32::MAX, "u", "e"));
    assert_eq!(parse_statement("insert 4294967296 u e"), refused("insert 4294967296 u e"));
    assert_eq!(parse_statement("insert 99999999999999999999999999 u e"), refused("insert 99999999999999999999999999 u e"));
    assert_eq!(parse_statement("insert 0000000000000000000000000012 u e"), insert(12, "u", "e"));
    assert_eq!(parse_statement("insert -1 u e"), refused("insert -1 u e"));
    assert_eq!(parse_statement("insert +1 u e"), refused("insert +1 u e"));
    assert_eq!(parse_statement("insert 1x u e"), refused("insert 1x u e"));
    assert_eq!(parse_statement("insert x1 u e"), refused("insert x1 u e"));
    assert_eq!(parse_statement("insert 1.5 u e"), refused("insert 1.5 u e"));
    assert_eq!(parse_statement("insert 42949672950 u e"), refused("insert 42949672950 u e"));
}

#[test]
fn user_name_has_at_most_32_bytes() {
    assert_eq!(USERNAME_MAX_BYTES, 32);
    let fits = "u".repeat(32);
    let long = "u".repeat(33);
    assert_eq!(parse_statement(&format!("insert 1 {} e", fits)), insert(1, &fits, "e"));
    assert_eq!(parse_statement(&format!("insert 1 {} e", long)), refused(&format!("insert 1 {} e", long)));
}

#[test]
fn email_has_at_most_255_bytes() {
    assert_eq!(EMAIL_MAX_BYTES, 255);
    let fits = "e".repeat(255);
    let long = "e".repeat(256);
    assert_eq!(parse_statement(&format!("insert 1 u {}", fits)), insert(1, "u", &fits));
    assert_eq!(parse_statement(&format!("insert 1 u {}", long)), refused(&format!("insert 1 u {}", long)));
}

#[test]
fn lengths_are_counted_in_bytes() {
    let fits = "é".repeat(16);
    let long = "é".repeat(17);
    assert_eq!(parse_statement(&format!("insert 1 {} e", fits)), insert(1, &fits, "e"));
    assert_eq!(parse_statement(&format!("insert 1 {} e", long)), refused(&format!("insert 1 {} e", long)));
    assert_eq!(parse_statement("insert 3 zoë zoë@exämple.com"), insert(3, "zoë", "zoë@exämple.com"));
}

#[test]
fn white_space_at_the_ends_does_not_count() {
    let ends = [
        "\u{9}", "\u{A}", "\u{B}", "\u{C}", "\u{D}", " ", "\u{85}", "\u{A0}", "\u{1680}",
        "\u{2000}", "\u{2005}", "\u{200A}", "\u{2028}", "\u{2029}", "\u{202F}", "\u{205F}",
        "\u{3000}",
    ];
    for end in ends {
        let line = format!("{}insert 1 a b{}{}", end, end, end);
        assert_eq!(parse_statement(&line), insert(1, "a", "b"));
        let line = format!("{}select{}", end, end);
        assert_eq!(parse_statement(&line), Ok(Statement::Select(Select)));
    }
}

#[test]
fn a_line_gives_what_its_trimmed_form_gives() {
    let lines = [
        "insert 1 a b\u{B}",
        "insert 1 a \u{B}",
        "\u{A0}select\u{3000}",
        " \u{85} insert 5 eve eve@x.com \u{2028}",
        "\u{B}",
        "insert 1 a\u{B}b c",
    ];
    for line in lines {
        let whole = parse_statement(line).ok();
        let trimmed = parse_statement(line.trim()).ok();
        assert_eq!(whole, trimmed);
    }
}

#[test]
fn missing_operand_after_trimming_is_refused() {
    assert_eq!(parse_statement("insert 1 a \u{B}"), refused("insert 1 a \u{B}"));
    assert_eq!(parse_statement("insert 1 a \u{A0}"), refused("insert 1 a \u{A0}"));
    assert_eq!(parse_statement("insert 1 a b\u{B}"), insert(1, "a", "b"));
}

#[test]
fn characters_that_are_no_white_space_stay() {
    assert_eq!(parse_statement("insert 1 a b\u{200B}"), insert(1, "a", "b\u{200B}"));
    assert_eq!(parse_statement("insert 1 a b\u{1F}"), insert(1, "a", "b\u{1F}"));
    assert_eq!(parse_statement("\u{200B}select"), refused("\u{200B}select"));
}

#[test]
fn refusal_names_the_line_as_it_was_given() {
    assert_eq!(parse_statement("  delete 1 "), Err("Unrecognized command:   delete 1 ".to_string()));
    assert_eq!(parse_statement(""), Err("Unrecognized command: ".to_string()));
}
