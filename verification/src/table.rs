//! The table: the storage handle that rows are inserted into and read back from.

use vstd::prelude::*;
use crate::error::TableError;
use crate::page::{lemma_insert_extends_what_page_holds, lemma_new_page_holds_nothing, Page, PageIterator, PageView, PAGE_SIZE};
use crate::pager::{file_pages, lemma_saved_pages_load_back, pages_encoding, pages_valid, Pager, TABLE_MAX_PAGES};
use crate::row::{lemma_row_encoding_len, row_encoding, row_fits, Row, RowView};

verus! {

/// The rows of `pages`: those of each page, in page order.
pub open spec fn all_rows(pages: Seq<PageView>) -> Seq<RowView>
    decreases pages.len(),
{
    if pages.len() == 0 {
        Seq::empty()
    } else {
        pages.first().rows() + all_rows(pages.drop_first())
    }
}

/// The number of bytes written to `pages`: the sum of their cursors.
pub open spec fn used_bytes(pages: Seq<PageView>) -> nat
    decreases pages.len(),
{
    if pages.len() == 0 {
        0
    } else {
        used_bytes(pages.drop_last()) + pages.last().cursor
    }
}

/// What a table is, mathematically: its pages, the count of rows inserted through this
/// handle, and the path of its file.
pub struct TableView {
    pub pages: Seq<PageView>,
    pub num_rows: nat,
    pub path: Seq<char>,
}

impl TableView {
    /// The pages are valid, and no more rows were counted than bytes were written.
    pub open spec fn wf(self) -> bool {
        pages_valid(self.pages) && self.num_rows <= used_bytes(self.pages)
    }

    /// The rows that reading the table yields: page by page, each page in write order.
    pub open spec fn rows(self) -> Seq<RowView> {
        all_rows(self.pages)
    }

    /// The table after one more row was counted on the given pages.
    pub open spec fn with_pages(self, pages: Seq<PageView>) -> TableView {
        TableView { pages, num_rows: self.num_rows + 1, path: self.path }
    }

    /// What inserting `row` does. The row goes to the last page if that has room for it.
    /// If not (or if there is no page yet), a table that already has the most pages it
    /// can have is full; in any other table a row whose encoded form is longer than a
    /// page is refused, and every other row goes to a new page.
    pub open spec fn insert(self, row: RowView) -> Result<TableView, TableError> {
        let record = row_encoding(row);
        if self.pages.len() > 0 && record.len() <= self.pages.last().free() {
            Ok(
                self.with_pages(
                    self.pages.update(self.pages.len() - 1, self.pages.last().with_record(record)),
                ),
            )
        } else if self.pages.len() >= TABLE_MAX_PAGES {
            Err(TableError::TableIsFull)
        } else if record.len() > PAGE_SIZE {
            Err(TableError::EncodeError)
        } else {
            Ok(self.with_pages(self.pages.push(Page::new_view().with_record(record))))
        }
    }
}

/// The storage handle: the pages of one file, and a count of the rows inserted.
#[derive(Debug, Clone, PartialEq, Eq)]
pub struct Table {
    num_rows: u32,
    pager: Pager,
    db_filename: String,
}

impl View for Table {
    type V = TableView;

    closed spec fn view(&self) -> TableView {
        TableView {
            pages: self.pager@,
            num_rows: self.num_rows as nat,
            path: self.db_filename@,
        }
    }
}

impl Table {
    /// The pages are valid, and no more rows were counted than bytes were written.
    pub open spec fn wf(&self) -> bool {
        self@.wf()
    }

    /// The table of the file at `filename`, whose contents are `contents`: no pages for
    /// an empty file, the decoded pages otherwise. The row count starts at zero, whatever
    /// was loaded.
    pub fn open(filename: &str, contents: &[u8]) -> (r: Result<Table, TableError>)
        ensures
            match r {
                Ok(table) => table.wf() && file_pages(contents@) == Some(table@.pages)
                    && table@.num_rows == 0 && table@.path == filename@,
                Err(e) => e == TableError::DecodeError && file_pages(contents@) is None,
            },
            contents@.len() == 0 ==> r is Ok && r.unwrap()@.rows() == Seq::<RowView>::empty(),
    {
        match Pager::new(contents) {
            Ok(pager) => Ok(Table { num_rows: 0, pager, db_filename: filename.to_string() }),
            Err(e) => Err(e),
        }
    }

    /// The encoded form of all the pages: what the table's file is overwritten with.
    pub fn persist(&self) -> (r: Result<Vec<u8>, TableError>)
        ensures
            r matches Ok(bytes) && bytes@ == pages_encoding(self@.pages),
    {
        self.pager.persist()
    }

    /// The path of the table's file.
    pub fn path(&self) -> (path: &str)
        ensures
            path@ == self@.path,
    {
        self.db_filename.as_str()
    }

    /// The number of rows inserted through this handle.
    pub fn num_rows(&self) -> (n: u32)
        ensures
            n == self@.num_rows,
    {
        self.num_rows
    }

    /// The number of pages.
    pub fn page_count(&self) -> (count: usize)
        ensures
            count == self@.pages.len(),
    {
        self.pager.page_count()
    }

    /// Inserts a row: into the last page if it has room, else into a new page. A table
    /// that can take no new page is full; a row longer than a page is refused.
    pub fn insert_row(&mut self, row: &Row) -> (r: Result<(), TableError>)
        requires
            old(self).wf(),
        ensures
            final(self).wf(),
            match r {
                Ok(()) => old(self)@.insert(row@) == Ok::<TableView, TableError>(final(self)@),
                Err(e) => old(self)@.insert(row@) == Err::<TableView, TableError>(e)
                    && final(self)@ == old(self)@,
            },
    {
        let record = match row.encode() {
            Ok(record) => record,
            Err(e) => {
                return Err(e);
            },
        };
        proof {
            lemma_row_encoding_len(row@);
            lemma_used_bytes_bound(self@.pages);
        }
        let placed = match self.pager.last_mut() {
            Some(page) => page.write_record(record.as_slice()).is_ok(),
            None => false,
        };
        if !placed {
            assert(self.pager@ =~= old(self).pager@);
            if self.pager.page_count() >= TABLE_MAX_PAGES {
                return Err(TableError::TableIsFull);
            }
            if record.len() > PAGE_SIZE {
                return Err(TableError::EncodeError);
            }
            match self.pager.add_page() {
                Ok(page) => match page.write_record(record.as_slice()) {
                    Ok(()) => {},
                    Err(e) => {
                        return Err(e);
                    },
                },
                Err(e) => {
                    return Err(e);
                },
            }
        }
        proof {
            let before = old(self).pager@;
            let after = self.pager@;
            if placed {
                assert(after.drop_last() =~= before.drop_last());
            } else {
                assert(after.drop_last() =~= before);
            }
            assert(pages_valid(after));
            lemma_used_bytes_bound(after);
        }
        self.num_rows += 1;
        Ok(())
    }
}

/// Valid pages hold no more bytes than their number times the size of a page.
pub proof fn lemma_used_bytes_bound(pages: Seq<PageView>)
    requires
        pages_valid(pages),
    ensures
        used_bytes(pages) <= pages.len() * PAGE_SIZE,
        used_bytes(pages) <= TABLE_MAX_PAGES * PAGE_SIZE,
    decreases pages.len(),
{
    if pages.len() > 0 {
        assert(pages[pages.len() - 1].wf());
        assert forall|i: int| 0 <= i < pages.drop_last().len() implies (#[trigger] pages.drop_last()[i]).wf() by {
            assert(pages.drop_last()[i] == pages[i]);
        }
        lemma_used_bytes_bound(pages.drop_last());
    }
}

impl Table {
    /// A fresh walk over all the rows, from the first page.
    pub fn iter(&self) -> (it: TableIterator<'_>)
        ensures
            it.pages() == self@.pages,
            it.remaining() == self@.rows(),
    {
        TableIterator::new(self)
    }

    /// All the rows, in page order and in write order within each page.
    pub fn rows(&self) -> (rows: Vec<Row>)
        ensures
            rows@.map_values(|row: Row| row@) == self@.rows(),
    {
        let mut rows: Vec<Row> = Vec::new();
        let mut it = self.iter();
        loop
            invariant
                rows@.map_values(|row: Row| row@) + it.remaining() == self@.rows(),
            decreases it.remaining().len(),
        {
            let ghost before = rows@.map_values(|row: Row| row@);
            let ghost left = it.remaining();
            match it.next() {
                Some(row) => {
                    rows.push(row);
                    assert(rows@.map_values(|row: Row| row@) =~= before.push(row@));
                    assert(before.push(left.first()) + left.drop_first() =~= before + left);
                },
                None => {
                    assert(before + left =~= before);
                    return rows;
                },
            }
        }
    }
}

/// A walk over the rows of a table: page by page, each page in write order.
pub struct TableIterator<'a> {
    page_index: usize,
    table: &'a Table,
    page_iterator: Option<PageIterator<'a>>,
}

impl<'a> TableIterator<'a> {
    /// The pages that are walked.
    pub closed spec fn pages(&self) -> Seq<PageView> {
        self.table@.pages
    }

    /// The walk is within the pages, and the scan of the current page, if one is open,
    /// is a scan of the page at the walk's index.
    #[verifier::type_invariant]
    spec fn inv(&self) -> bool {
        &&& self.page_index <= self.table@.pages.len()
        &&& match self.page_iterator {
            Some(scan) => self.page_index < self.table@.pages.len() && scan.page()
                == self.table@.pages[self.page_index as int],
            None => true,
        }
    }

    /// The rows that the walk has yet to yield.
    pub closed spec fn remaining(&self) -> Seq<RowView> {
        match self.page_iterator {
            Some(scan) => scan.remaining() + all_rows(self.pages().skip(self.page_index + 1)),
            None => all_rows(self.pages().skip(self.page_index as int)),
        }
    }

    /// A walk over `table` from its first page.
    pub fn new(table: &'a Table) -> (it: Self)
        ensures
            it.pages() == table@.pages,
            it.remaining() == table@.rows(),
    {
        assert(table@.pages.skip(0) =~= table@.pages);
        TableIterator { page_index: 0, table, page_iterator: None }
    }

    /// The next row of the table, or nothing once every page has been read. A page that
    /// yields no further row is left for the one after it.
    pub fn next(&mut self) -> (r: Option<Row>)
        ensures
            final(self).pages() == old(self).pages(),
            match r {
                Some(row) => old(self).remaining().len() > 0 && row@ == old(self).remaining().first()
                    && final(self).remaining() == old(self).remaining().drop_first(),
                None => old(self).remaining().len() == 0 && final(self).remaining().len() == 0,
            },
    {
        proof {
            use_type_invariant(&*self);
        }
        loop
            invariant
                self.page_index <= self.pages().len(),
                self.pages() == old(self).pages(),
                self.remaining() == old(self).remaining(),
            decreases self.pages().len() - self.page_index,
        {
            proof {
                use_type_invariant(&*self);
            }
            let count = self.table.pager.page_count();
            let ghost pages = self.pages();
            let mut scan = match self.page_iterator {
                Some(scan) => scan,
                None => match self.table.pager.get(self.page_index) {
                    Some(page) => {
                        assert(pages.skip(self.page_index as int).drop_first() =~= pages.skip(
                            self.page_index + 1,
                        ));
                        page.iter()
                    },
                    None => {
                        assert(pages.skip(self.page_index as int) =~= Seq::<PageView>::empty());
                        return None;
                    },
                },
            };
            let ghost rest = all_rows(pages.skip(self.page_index + 1));
            let ghost left = scan.remaining();
            assert(self.remaining() == left + rest);
            match scan.next() {
                Some(row) => {
                    self.page_iterator = Some(scan);
                    assert((left + rest).drop_first() =~= left.drop_first() + rest);
                    return Some(row);
                },
                None => {
                    assert(left + rest =~= rest);
                    assert(self.page_index < count);
                    self.page_iterator = None;
                    self.page_index = self.page_index + 1;
                },
            }
        }
    }
}

/// The rows of some pages are those of all but the last page, then those of the last.
pub proof fn lemma_all_rows_split_last(pages: Seq<PageView>)
    requires
        pages.len() > 0,
    ensures
        all_rows(pages) == all_rows(pages.drop_last()) + pages.last().rows(),
    decreases pages.len(),
{
    if pages.len() == 1 {
        assert(pages.drop_last() =~= Seq::<PageView>::empty());
        assert(pages.drop_first() =~= Seq::<PageView>::empty());
        assert(all_rows(pages.drop_first()) =~= Seq::<RowView>::empty());
        assert(all_rows(pages.drop_last()) =~= Seq::<RowView>::empty());
        assert(all_rows(pages) =~= pages.first().rows());
    } else {
        let tail = pages.drop_first();
        lemma_all_rows_split_last(tail);
        assert(tail.drop_last() =~= pages.drop_last().drop_first());
        assert(pages.drop_last().first() == pages.first());
        assert(all_rows(pages) =~= all_rows(pages.drop_last()) + pages.last().rows());
    }
}

/// A new page is allocated only when the last page has no room for the row: a row that
/// the last page has room for goes there and leaves the number of pages as it is; one
/// that it has no room for goes to a new page at the end, which then holds that row
/// alone, and every page that was there stays as it was.
pub proof fn lemma_insert_allocates_only_when_last_page_is_full(table: TableView, row: RowView)
    requires
        table.wf(),
        row_fits(row),
    ensures
        table.pages.len() > 0 && row_encoding(row).len() <= table.pages.last().free() ==> {
            &&& table.insert(row) is Ok
            &&& table.insert(row).unwrap().pages.len() == table.pages.len()
            &&& table.insert(row).unwrap().pages.drop_last() == table.pages.drop_last()
            &&& table.insert(row).unwrap().pages.last() == table.pages.last().with_record(
                row_encoding(row),
            )
        },
        (table.pages.len() == 0 || row_encoding(row).len() > table.pages.last().free())
            && table.pages.len() < TABLE_MAX_PAGES ==> {
            &&& table.insert(row) is Ok
            &&& table.insert(row).unwrap().pages.len() == table.pages.len() + 1
            &&& table.insert(row).unwrap().pages.drop_last() == table.pages
            &&& table.insert(row).unwrap().pages.last().rows() == seq![row]
        },
{
    let record = row_encoding(row);
    lemma_new_page_holds_nothing();
    lemma_insert_extends_what_page_holds(Page::new_view(), Seq::empty(), row);
    assert(Seq::<RowView>::empty().push(row) =~= seq![row]);
    if table.pages.len() > 0 && record.len() <= table.pages.last().free() {
        let after = table.insert(row).unwrap().pages;
        assert(after.drop_last() =~= table.pages.drop_last());
    } else if table.pages.len() < TABLE_MAX_PAGES {
        let after = table.insert(row).unwrap().pages;
        assert(after.drop_last() =~= table.pages);
    }
}

/// A table that has all the pages it can have, the last of them without room for the
/// row, refuses the row as full, whatever the row.
pub proof fn lemma_full_table_refuses(table: TableView, row: RowView)
    requires
        table.wf(),
        table.pages.len() == TABLE_MAX_PAGES,
        row_encoding(row).len() > table.pages.last().free(),
    ensures
        table.insert(row) == Err::<TableView, TableError>(TableError::TableIsFull),
{
}

/// Reading a table after an insert yields the rows it yielded before, followed by the
/// new row, provided that the last page was intact; that page, or the new one, is
/// intact afterwards.
pub proof fn lemma_insert_appends_row(table: TableView, row: RowView)
    requires
        table.wf(),
        table.insert(row) is Ok,
        table.pages.len() > 0 ==> table.pages.last().intact(),
    ensures
        table.insert(row).unwrap().rows() == table.rows().push(row),
        table.insert(row).unwrap().pages.last().intact(),
{
    let record = row_encoding(row);
    let after = table.insert(row).unwrap().pages;
    lemma_all_rows_split_last(after);
    if table.pages.len() > 0 && record.len() <= table.pages.last().free() {
        let last = table.pages.last();
        assert(table.pages[table.pages.len() - 1].wf());
        lemma_insert_extends_what_page_holds(last, last.rows(), row);
        lemma_all_rows_split_last(table.pages);
        assert(after.drop_last() =~= table.pages.drop_last());
        assert(after.last() == last.with_record(record));
        assert(all_rows(after) =~= all_rows(table.pages).push(row));
    } else {
        lemma_new_page_holds_nothing();
        lemma_insert_extends_what_page_holds(Page::new_view(), Seq::empty(), row);
        assert(after.drop_last() =~= table.pages);
        assert(Seq::<RowView>::empty().push(row) =~= seq![row]);
        assert(all_rows(after) =~= all_rows(table.pages).push(row));
    }
}

/// A table that is saved and opened again reads the same: what its pages are saved as
/// stands for exactly those pages, and so for the same rows in the same order.
pub proof fn lemma_saved_table_reads_the_same(table: TableView)
    requires
        table.wf(),
    ensures
        file_pages(pages_encoding(table.pages)) == Some(table.pages),
        all_rows(file_pages(pages_encoding(table.pages)).unwrap()) == table.rows(),
{
    lemma_saved_pages_load_back(table.pages, Seq::empty());
    assert(pages_encoding(table.pages) + Seq::<u8>::empty() =~= pages_encoding(table.pages));
}

} // verus!
