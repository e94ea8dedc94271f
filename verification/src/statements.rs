//! Statements: the requests that a front end hands to the table.

use vstd::prelude::*;
use vstd::string::StringExecFns;
use vstd::utf8::*;
use crate::error::TableError;
use crate::grammar::{decimal_value, is_number, is_word, lemma_trimmed_twice, ranges_view, read_text, read_u32, split_words, trim_text, trimmed, words};
use crate::row::{Row, RowView};
use crate::table::{Table, TableView};

verus! {

/// A request to store one row.
#[derive(Debug, Clone, PartialEq, Eq)]
pub struct Insert {
    pub row: Row,
}

/// A request for all the rows.
#[derive(Debug, Clone, Copy, PartialEq, Eq)]
pub struct Select;

/// A request to the table.
#[derive(Debug, Clone, PartialEq, Eq)]
pub enum Statement {
    Insert(Insert),
    Select(Select),
}

/// What a statement is, mathematically.
pub enum StatementView {
    Insert(RowView),
    Select,
}

impl View for Statement {
    type V = StatementView;

    open spec fn view(&self) -> StatementView {
        match *self {
            Statement::Insert(insert) => StatementView::Insert(insert.row@),
            Statement::Select(_) => StatementView::Select,
        }
    }
}

impl Insert {
    /// Inserts the row into the table.
    pub fn execute(&self, table: &mut Table) -> (r: Result<(), TableError>)
        requires
            old(table).wf(),
        ensures
            final(table).wf(),
            match r {
                Ok(()) => old(table)@.insert(self.row@) == Ok::<TableView, TableError>(
                    final(table)@,
                ),
                Err(e) => old(table)@.insert(self.row@) == Err::<TableView, TableError>(e)
                    && final(table)@ == old(table)@,
            },
    {
        table.insert_row(&self.row)
    }
}

impl Select {
    /// Reads all the rows of the table, in order.
    pub fn execute(&self, table: &Table) -> (rows: Vec<Row>)
        ensures
            rows@.map_values(|row: Row| row@) == table@.rows(),
    {
        table.rows()
    }
}

impl Statement {
    /// Carries the statement out and hands back the rows to show: none for an insert,
    /// all the table's rows for a select, which leaves the table as it is.
    pub fn execute(&self, table: &mut Table) -> (r: Result<Vec<Row>, TableError>)
        requires
            old(table).wf(),
        ensures
            final(table).wf(),
            match self@ {
                StatementView::Insert(row) => match r {
                    Ok(rows) => rows@.len() == 0 && old(table)@.insert(row) == Ok::<
                        TableView,
                        TableError,
                    >(final(table)@),
                    Err(e) => old(table)@.insert(row) == Err::<TableView, TableError>(e)
                        && final(table)@ == old(table)@,
                },
                StatementView::Select => final(table)@ == old(table)@ && r is Ok
                    && r.unwrap()@.map_values(|row: Row| row@) == old(table)@.rows(),
            },
    {
        match self {
            Statement::Insert(insert) => match insert.execute(table) {
                Ok(()) => Ok(Vec::new()),
                Err(e) => Err(e),
            },
            Statement::Select(select) => Ok(select.execute(table)),
        }
    }
}

/// A command to the front end itself, not to the table.
#[derive(Debug, Clone, Copy, PartialEq, Eq, Structural)]
pub enum MetaCommand {
    /// Save the table and leave.
    Exit,
}

/// What is said of a line that is no command.
pub open spec fn unrecognized_text(cmd: Seq<char>) -> Seq<char> {
    "Unrecognized command: "@ + cmd
}

/// The words that refuse `cmd`.
pub fn unrecognized(cmd: &str) -> (text: String)
    ensures
        text@ == unrecognized_text(cmd@),
{
    let mut text = "Unrecognized command: ".to_owned();
    text.append(cmd);
    text
}

/// Whether two texts are the same.
fn same_text(a: &str, b: &str) -> (same: bool)
    ensures
        same == (a@ == b@),
{
    let left = a.to_owned();
    let right = b.to_owned();
    left == right
}

/// Reads a meta-command: `.exit`, written exactly so, is the only one. Any other line
/// is refused, with the words that say so.
pub fn parse_meta_command(cmd: &str) -> (r: Result<MetaCommand, String>)
    ensures
        match r {
            Ok(command) => cmd@ == ".exit"@ && command == MetaCommand::Exit,
            Err(text) => cmd@ != ".exit"@ && text@ == unrecognized_text(cmd@),
        },
{
    if same_text(cmd, ".exit") {
        Ok(MetaCommand::Exit)
    } else {
        Err(unrecognized(cmd))
    }
}

/// The most bytes that a user name may have in a statement.
pub const USERNAME_MAX_BYTES: usize = 32;

/// The most bytes that an e-mail address may have in a statement.
pub const EMAIL_MAX_BYTES: usize = 255;

/// The statement that the bytes of a trimmed line stand for, if they stand for any:
/// `select` alone, or `insert` followed by an identifier that fits in 32 bits, a user
/// name of at most 32 bytes and an e-mail address of at most 255 bytes, both valid
/// UTF-8. Blanks separate the words.
pub open spec fn statement_in(line: Seq<u8>) -> Option<StatementView> {
    let w = words(line);
    if w.len() == 1 && w[0] == encode_utf8("select"@) {
        Some(StatementView::Select)
    } else if w.len() == 4 && w[0] == encode_utf8("insert"@) && is_number(w[1]) && decimal_value(
        w[1],
    ) <= u32::MAX && w[2].len() <= USERNAME_MAX_BYTES && valid_utf8(w[2]) && w[3].len()
        <= EMAIL_MAX_BYTES && valid_utf8(w[3]) {
        Some(
            StatementView::Insert(
                RowView {
                    id: decimal_value(w[1]) as u32,
                    username: decode_utf8(w[2]),
                    email: decode_utf8(w[3]),
                },
            ),
        )
    } else {
        None
    }
}

/// The statement that a line of text stands for, if it stands for any: the one in the
/// bytes of the line without the white space at its two ends.
pub open spec fn statement_of(line: Seq<char>) -> Option<StatementView> {
    statement_in(encode_utf8(trimmed(line)))
}

/// A line and the same line without the white space at its ends stand for the same
/// statement, or both for none.
pub proof fn lemma_statement_of_trimmed(line: Seq<char>)
    ensures
        statement_of(trimmed(line)) == statement_of(line),
{
    lemma_trimmed_twice(line);
}

/// Reads a statement from a line of text. A line that stands for none is refused, with
/// the words that say so.
pub fn parse_statement(cmd: &str) -> (r: Result<Statement, String>)
    ensures
        match r {
            Ok(statement) => statement_of(cmd@) == Some(statement@),
            Err(text) => statement_of(cmd@) is None && text@ == unrecognized_text(cmd@),
        },
{
    let line = trim_text(cmd).as_bytes();
    let ranges = split_words(line);
    let ghost w = words(line@);
    assert(w == ranges_view(line@, ranges@));
    if ranges.len() == 1 {
        let (start, end) = ranges[0];
        assert(w[0] == line@.subrange(start as int, end as int));
        if is_word(line, start, end, "select".as_bytes()) {
            return Ok(Statement::Select(Select));
        }
        return Err(unrecognized(cmd));
    }
    if ranges.len() != 4 {
        return Err(unrecognized(cmd));
    }
    let (start, end) = ranges[0];
    assert(w[0] == line@.subrange(start as int, end as int));
    if !is_word(line, start, end, "insert".as_bytes()) {
        return Err(unrecognized(cmd));
    }
    let (start, end) = ranges[1];
    assert(w[1] == line@.subrange(start as int, end as int));
    let id = match read_u32(line, start, end) {
        Some(id) => id,
        None => {
            return Err(unrecognized(cmd));
        },
    };
    let (start, end) = ranges[2];
    assert(w[2] == line@.subrange(start as int, end as int));
    let username = match read_text(line, start, end, USERNAME_MAX_BYTES) {
        Some(text) => text,
        None => {
            return Err(unrecognized(cmd));
        },
    };
    let (start, end) = ranges[3];
    assert(w[3] == line@.subrange(start as int, end as int));
    let email = match read_text(line, start, end, EMAIL_MAX_BYTES) {
        Some(text) => text,
        None => {
            return Err(unrecognized(cmd));
        },
    };
    Ok(Statement::Insert(Insert { row: Row { id, username, email } }))
}

} // verus!
