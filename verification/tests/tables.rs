use pagestore::{
    parse_meta_command, Insert, MetaCommand, Row, Select, Statement, Table, TableError,
    TableIterator, PAGE_SIZE, TABLE_MAX_PAGES,
};

fn make_row(id: u32, username: &str, email: &str) -> Row {
    Row { id, username: username.to_string(), email: email.to_string() }
}

fn fixture() -> Vec<Row> {
    vec![make_row(1, "a", "a@x.com"), make_row(2, "b", "b@x.com"), make_row(3, "c", "c@x.com")]
}

/// A row whose encoded form is 2027 bytes long: two of them fit in a page, three do not.
fn half_page_row(id: u32) -> Row {
    make_row(id, &"u".repeat(32), &"e".repeat(1990))
}

/// A row whose encoded form is 4006 bytes long: one fits in a page, two do not.
fn whole_page_row(id: u32) -> Row {
    make_row(id, "u", &"e".repeat(4000))
}

#[test]
fn empty_file_gives_an_empty_table() {
    let table = Table::open("db.bin", &[]).unwrap();
    assert_eq!(table.rows(), Vec::<Row>::new());
    assert_eq!(table.page_count(), 0);
    assert_eq!(table.num_rows(), 0);
    assert_eq!(table.path(), "db.bin");
    let mut it = table.iter();
    assert_eq!(it.next(), None);
    assert_eq!(it.next(), None);
}

#[test]
fn three_rows_survive_persist_and_reopen() {
    let mut table = Table::open("db.bin", &[]).unwrap();
    for row in fixture() {
        table.insert_row(&row).unwrap();
    }
    assert_eq!(table.rows(), fixture());
    assert_eq!(table.num_rows(), 3);
    assert_eq!(table.page_count(), 1);
    let saved = table.persist().unwrap();
    assert_eq!(saved.len(), 1 + 3 + PAGE_SIZE + 1);
    let reopened = Table::open("db.bin", &saved).unwrap();
    assert_eq!(reopened.rows(), fixture());
    assert_eq!(reopened.num_rows(), 0);
    assert_eq!(reopened.page_count(), 1);
}

#[test]
fn third_row_goes_to_a_second_page() {
    assert_eq!(half_page_row(1).encode().unwrap().len(), 2027);
    let mut table = Table::open("db.bin", &[]).unwrap();
    table.insert_row(&half_page_row(1)).unwrap();
    assert_eq!(table.page_count(), 1);
    table.insert_row(&half_page_row(2)).unwrap();
    assert_eq!(table.page_count(), 1);
    let before = table.persist().unwrap();
    table.insert_row(&half_page_row(3)).unwrap();
    assert_eq!(table.page_count(), 2);
    assert_eq!(table.num_rows(), 3);
    assert_eq!(table.rows(), vec![half_page_row(1), half_page_row(2), half_page_row(3)]);
    let after = table.persist().unwrap();
    let first_page = 1..1 + 3 + PAGE_SIZE + 3;
    assert_eq!(&after[first_page.clone()], &before[first_page]);
    assert_eq!(after[0], 2);
    assert_eq!(after.len(), 1 + 2 * (3 + PAGE_SIZE + 3));
}

#[test]
fn iteration_yields_every_row_of_every_page() {
    let mut table = Table::open("db.bin", &[]).unwrap();
    let rows: Vec<Row> = (0..7).map(half_page_row).collect();
    for row in &rows {
        table.insert_row(row).unwrap();
    }
    assert_eq!(table.page_count(), 4);
    let mut it = TableIterator::new(&table);
    for row in &rows {
        assert_eq!(it.next().as_ref(), Some(row));
    }
    assert_eq!(it.next(), None);
    assert_eq!(it.next(), None);
    assert_eq!(table.rows(), rows);
}

#[test]
fn iteration_restarts_from_the_first_page() {
    let mut table = Table::open("db.bin", &[]).unwrap();
    for row in fixture() {
        table.insert_row(&row).unwrap();
    }
    let mut first = table.iter();
    assert_eq!(first.next(), Some(make_row(1, "a", "a@x.com")));
    assert_eq!(first.next(), Some(make_row(2, "b", "b@x.com")));
    let mut second = table.iter();
    assert_eq!(second.next(), Some(make_row(1, "a", "a@x.com")));
    assert_eq!(first.next(), Some(make_row(3, "c", "c@x.com")));
}

#[test]
fn iteration_passes_over_pages_without_rows() {
    let blank: (Vec<u8>, usize) = (vec![0u8; PAGE_SIZE], 0);
    let mut third = vec![0u8; PAGE_SIZE];
    let encoded = make_row(5, "e", "e@x.com").encode().unwrap();
    third[..encoded.len()].copy_from_slice(&encoded);
    let pages = vec![blank.clone(), blank, (third, encoded.len())];
    let contents = bincode::encode_to_vec(&pages, bincode::config::standard()).unwrap();
    let table = Table::open("db.bin", &contents).unwrap();
    assert_eq!(table.page_count(), 3);
    assert_eq!(table.rows(), vec![make_row(5, "e", "e@x.com")]);
}

#[test]
fn full_table_refuses_further_rows() {
    let mut table = Table::open("db.bin", &[]).unwrap();
    for i in 0..TABLE_MAX_PAGES {
        table.insert_row(&whole_page_row(i as u32)).unwrap();
    }
    assert_eq!(table.page_count(), TABLE_MAX_PAGES);
    assert_eq!(table.num_rows(), 100);
    let before = table.clone();
    assert_eq!(table.insert_row(&whole_page_row(100)), Err(TableError::TableIsFull));
    assert_eq!(table, before);
    assert_eq!(table.insert_row(&whole_page_row(101)), Err(TableError::TableIsFull));
    assert_eq!(table.rows().len(), 100);
    let saved = table.persist().unwrap();
    let reopened = Table::open("db.bin", &saved).unwrap();
    assert_eq!(reopened.rows(), table.rows());
}

#[test]
fn row_longer_than_a_page_is_refused() {
    let mut table = Table::open("db.bin", &[]).unwrap();
    let long = make_row(1, "", &"e".repeat(PAGE_SIZE));
    assert_eq!(table.insert_row(&long), Err(TableError::EncodeError));
    assert_eq!(table.page_count(), 0);
    assert_eq!(table.num_rows(), 0);
    let exact = make_row(1, "", &"e".repeat(PAGE_SIZE - 5));
    table.insert_row(&exact).unwrap();
    assert_eq!(table.page_count(), 1);
    assert_eq!(table.rows(), vec![exact]);
}

#[test]
fn open_refuses_corrupt_contents() {
    assert_eq!(Table::open("db.bin", &[9, 9, 9]).err(), Some(TableError::DecodeError));
    let mut table = Table::open("db.bin", &[]).unwrap();
    table.insert_row(&make_row(1, "a", "a@x.com")).unwrap();
    let saved = table.persist().unwrap();
    assert_eq!(Table::open("db.bin", &saved[..saved.len() - 1]).err(), Some(TableError::DecodeError));
}

#[test]
fn insert_after_reopen_appends_to_the_last_page() {
    let mut table = Table::open("db.bin", &[]).unwrap();
    table.insert_row(&make_row(1, "a", "a@x.com")).unwrap();
    let saved = table.persist().unwrap();
    let mut reopened = Table::open("db.bin", &saved).unwrap();
    reopened.insert_row(&make_row(2, "b", "b@x.com")).unwrap();
    assert_eq!(reopened.num_rows(), 1);
    assert_eq!(reopened.page_count(), 1);
    assert_eq!(reopened.rows(), vec![make_row(1, "a", "a@x.com"), make_row(2, "b", "b@x.com")]);
}

#[test]
fn statements_execute_on_the_table() {
    let mut table = Table::open("db.bin", &[]).unwrap();
    let insert = Statement::Insert(Insert { row: make_row(1, "a", "a@x.com") });
    assert_eq!(insert.execute(&mut table), Ok(Vec::new()));
    let second = Insert { row: make_row(2, "b", "b@x.com") };
    assert_eq!(second.execute(&mut table), Ok(()));
    let expected = vec![make_row(1, "a", "a@x.com"), make_row(2, "b", "b@x.com")];
    assert_eq!(Statement::Select(Select).execute(&mut table), Ok(expected.clone()));
    assert_eq!(Select.execute(&table), expected);
    let long = Statement::Insert(Insert { row: make_row(3, "", &"e".repeat(PAGE_SIZE)) });
    assert_eq!(long.execute(&mut table), Err(TableError::EncodeError));
    assert_eq!(table.rows(), expected);
}

#[test]
fn exit_is_the_only_meta_command() {
    assert_eq!(parse_meta_command(".exit"), Ok(MetaCommand::Exit));
    assert_eq!(parse_meta_command(".exit "), Err("Unrecognized command: .exit ".to_string()));
    assert_eq!(parse_meta_command(".quit"), Err("Unrecognized command: .quit".to_string()));
    assert_eq!(parse_meta_command(""), Err("Unrecognized command: ".to_string()));
    assert_eq!(parse_meta_command("exit"), Err("Unrecognized command: exit".to_string()));
}

#[test]
fn full_table_is_full_for_a_row_longer_than_a_page() {
    let mut table = Table::open("db.bin", &[]).unwrap();
    for i in 0..TABLE_MAX_PAGES {
        table.insert_row(&whole_page_row(i as u32)).unwrap();
    }
    let before = table.clone();
    let long = make_row(1, "", &"e".repeat(PAGE_SIZE));
    assert_eq!(table.insert_row(&long), Err(TableError::TableIsFull));
    assert_eq!(table.insert_row(&long), Err(TableError::TableIsFull));
    assert_eq!(table, before);
    let small = make_row(7, "s", "s@x.com");
    assert_eq!(table.insert_row(&small), Ok(()));
    assert_eq!(table.page_count(), TABLE_MAX_PAGES);
    assert_eq!(table.rows().len(), 101);
    assert_eq!(table.insert_row(&whole_page_row(200)), Err(TableError::TableIsFull));
}

#[test]
fn row_longer_than_a_page_is_refused_while_pages_are_left() {
    let mut table = Table::open("db.bin", &[]).unwrap();
    for i in 0..TABLE_MAX_PAGES - 1 {
        table.insert_row(&whole_page_row(i as u32)).unwrap();
    }
    let before = table.clone();
    let long = make_row(1, "", &"e".repeat(PAGE_SIZE));
    assert_eq!(table.insert_row(&long), Err(TableError::EncodeError));
    assert_eq!(table, before);
    assert_eq!(table.page_count(), TABLE_MAX_PAGES - 1);
}
