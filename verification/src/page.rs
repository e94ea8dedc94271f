//! A page: a fixed-size buffer that rows are packed into, one after another.

use vstd::prelude::*;
use vstd::slice::slice_subrange;
use crate::error::TableError;
use crate::row::{lemma_decode_inverts_encode, lemma_row_encoding_len, row_decoding, row_encoding, row_fits, Row, RowView};

verus! {

/// The size of a page's buffer, in bytes.
pub const PAGE_SIZE: usize = 4096;

/// What a page is, mathematically: the buffer, and the cursor that marks its first free
/// byte.
pub struct PageView {
    pub bytes: Seq<u8>,
    pub cursor: nat,
}

/// The rows that a scan of `bytes` yields: it decodes one row after another from the
/// front and stops at the end of the bytes, or at the first place that does not decode.
pub open spec fn rows_in(bytes: Seq<u8>) -> Seq<RowView>
    decreases bytes.len(),
{
    if bytes.len() == 0 {
        Seq::empty()
    } else {
        match row_decoding(bytes) {
            Some((row, n)) => if 1 <= n <= bytes.len() {
                seq![row] + rows_in(bytes.skip(n as int))
            } else {
                Seq::empty()
            },
            None => Seq::empty(),
        }
    }
}

/// The encoded forms of `rows`, back to back.
pub open spec fn packed(rows: Seq<RowView>) -> Seq<u8>
    decreases rows.len(),
{
    if rows.len() == 0 {
        Seq::empty()
    } else {
        row_encoding(rows.first()) + packed(rows.drop_first())
    }
}

/// The sum of the lengths of the encoded forms of `rows`.
pub open spec fn encoded_len(rows: Seq<RowView>) -> nat
    decreases rows.len(),
{
    if rows.len() == 0 {
        0
    } else {
        row_encoding(rows.first()).len() + encoded_len(rows.drop_first())
    }
}

impl PageView {
    /// The buffer has the fixed size and the cursor lies within it.
    pub open spec fn wf(self) -> bool {
        self.bytes.len() == PAGE_SIZE && self.cursor <= PAGE_SIZE
    }

    /// The bytes written so far.
    pub open spec fn used(self) -> Seq<u8> {
        self.bytes.subrange(0, self.cursor as int)
    }

    /// The number of bytes still free.
    pub open spec fn free(self) -> nat {
        (PAGE_SIZE - self.cursor) as nat
    }

    /// The page after `record` was written at the cursor.
    pub open spec fn with_record(self, record: Seq<u8>) -> PageView {
        PageView {
            bytes: self.bytes.subrange(0, self.cursor as int) + record + self.bytes.subrange(
                (self.cursor + record.len()) as int,
                PAGE_SIZE as int,
            ),
            cursor: self.cursor + record.len(),
        }
    }

    /// The rows that reading the page yields.
    pub open spec fn rows(self) -> Seq<RowView> {
        rows_in(self.used())
    }

    /// The page holds exactly the encoded forms of `rows`, back to back, below its cursor.
    pub open spec fn holds(self, rows: Seq<RowView>) -> bool {
        self.used() == packed(rows)
    }

    /// Nothing is lost on reading: the page holds exactly the rows that reading it yields.
    pub open spec fn intact(self) -> bool {
        self.holds(self.rows())
    }
}

/// A fixed-size buffer of packed rows, with the cursor that marks its first free byte.
/// Every page is well formed: its buffer has the fixed size and its cursor lies within
/// it.
#[derive(Debug, PartialEq, Eq)]
pub struct Page {
    raw: Vec<u8>,
    index: usize,
}

impl View for Page {
    type V = PageView;

    closed spec fn view(&self) -> PageView {
        PageView { bytes: self.raw@, cursor: self.index as nat }
    }
}

impl Clone for Page {
    fn clone(&self) -> (copy: Page)
        ensures
            copy@ == self@,
    {
        proof {
            use_type_invariant(self);
        }
        let raw = self.raw.clone();
        assert(raw@ =~= self.raw@);
        Page { raw, index: self.index }
    }
}

impl Page {
    /// The buffer has the fixed size and the cursor lies within it.
    #[verifier::type_invariant]
    spec fn inv(&self) -> bool {
        self.raw@.len() == PAGE_SIZE && self.index <= PAGE_SIZE
    }

    /// The buffer has the fixed size and the cursor lies within it.
    pub open spec fn wf(&self) -> bool {
        self@.wf()
    }

    /// What an empty page is: all zero bytes, the cursor at the start.
    pub open spec fn new_view() -> PageView {
        PageView { bytes: Seq::new(PAGE_SIZE as nat, |i: int| 0u8), cursor: 0 }
    }

    /// An empty page.
    pub fn new() -> (page: Page)
        ensures
            page.wf(),
            page@ == Page::new_view(),
    {
        let raw = vec![0u8; PAGE_SIZE];
        assert(raw@ =~= Seq::new(PAGE_SIZE as nat, |i: int| 0u8));
        Page { raw, index: 0 }
    }

    /// A page made of a buffer and a cursor, if they are well formed.
    pub fn from_parts(raw: Vec<u8>, index: usize) -> (r: Option<Page>)
        ensures
            match r {
                Some(page) => page.wf() && page@ == (PageView {
                    bytes: raw@,
                    cursor: index as nat,
                }),
                None => !(PageView { bytes: raw@, cursor: index as nat }).wf(),
            },
    {
        if raw.len() == PAGE_SIZE && index <= PAGE_SIZE {
            Some(Page { raw, index })
        } else {
            None
        }
    }

    /// The whole buffer.
    pub fn bytes(&self) -> (bytes: &[u8])
        ensures
            bytes@ == self@.bytes,
            self.wf(),
    {
        proof {
            use_type_invariant(self);
        }
        self.raw.as_slice()
    }

    /// The cursor: the offset of the first free byte.
    pub fn cursor(&self) -> (cursor: usize)
        ensures
            cursor == self@.cursor,
            self.wf(),
    {
        proof {
            use_type_invariant(self);
        }
        self.index
    }

    /// Writes `record` at the cursor and moves the cursor past it, if the free space
    /// holds it; otherwise leaves the page as it is.
    pub fn write_record(&mut self, record: &[u8]) -> (r: Result<(), TableError>)
        ensures
            old(self).wf(),
            final(self).wf(),
            match r {
                Ok(()) => record@.len() <= old(self)@.free() && final(self)@ == old(
                    self,
                )@.with_record(record@),
                Err(e) => e == TableError::PageIsFull && record@.len() > old(self)@.free()
                    && final(self)@ == old(self)@,
            },
    {
        proof {
            use_type_invariant(&*self);
        }
        if record.len() > PAGE_SIZE - self.index {
            return Err(TableError::PageIsFull);
        }
        let start: usize = self.index;
        let mut i: usize = 0;
        while i < record.len()
            invariant
                self.index == start,
                start == old(self).index,
                self.raw@.len() == PAGE_SIZE,
                old(self).raw@.len() == PAGE_SIZE,
                i <= record@.len() <= PAGE_SIZE - start,
                self.raw@ == old(self).raw@.subrange(0, start as int) + record@.subrange(
                    0,
                    i as int,
                ) + old(self).raw@.subrange(start + i, PAGE_SIZE as int),
            decreases record@.len() - i,
        {
            let byte: u8 = record[i];
            self.raw[start + i] = byte;
            assert(self.raw@ =~= old(self).raw@.subrange(0, start as int) + record@.subrange(
                0,
                i + 1,
            ) + old(self).raw@.subrange(start + i + 1, PAGE_SIZE as int));
            i += 1;
        }
        self.index = start + record.len();
        assert(record@.subrange(0, record@.len() as int) =~= record@);
        Ok(())
    }

    /// Encodes the row at the cursor and moves the cursor past it. A row that the free
    /// space cannot hold leaves the page untouched.
    pub fn insert_row(&mut self, row: &Row) -> (r: Result<(), TableError>)
        ensures
            old(self).wf(),
            final(self).wf(),
            match r {
                Ok(()) => row_encoding(row@).len() <= old(self)@.free() && final(self)@ == old(
                    self,
                )@.with_record(row_encoding(row@)),
                Err(e) => e == TableError::PageIsFull && row_encoding(row@).len() > old(
                    self,
                )@.free() && final(self)@ == old(self)@,
            },
    {
        match row.encode() {
            Ok(record) => self.write_record(record.as_slice()),
            Err(e) => Err(e),
        }
    }

    /// A fresh scan of the page's rows, from its start.
    pub fn iter(&self) -> (it: PageIterator<'_>)
        ensures
            it.wf(),
            it.page() == self@,
            it.position() == 0,
            it.remaining() == self@.rows(),
    {
        PageIterator::new(self)
    }
}

/// A scan over the rows of one page, in the order they were written. It never stands
/// beyond the page's cursor.
#[derive(Clone, Copy)]
pub struct PageIterator<'a> {
    page: &'a Page,
    iterator_index: usize,
}

impl<'a> PageIterator<'a> {
    /// The page that is scanned.
    pub closed spec fn page(&self) -> PageView {
        self.page@
    }

    /// The offset of the next row to decode.
    pub closed spec fn position(&self) -> nat {
        self.iterator_index as nat
    }

    /// The scan has not passed the page's cursor.
    #[verifier::type_invariant]
    spec fn inv(&self) -> bool {
        self.iterator_index <= self.page.index
    }

    /// The page is well formed and the scan has not passed its cursor.
    pub open spec fn wf(&self) -> bool {
        self.page().wf() && self.position() <= self.page().cursor
    }

    /// The rows that the scan has yet to yield.
    pub open spec fn remaining(&self) -> Seq<RowView> {
        rows_in(self.page().bytes.subrange(self.position() as int, self.page().cursor as int))
    }

    /// A scan of `page` from its start.
    pub fn new(page: &'a Page) -> (it: Self)
        ensures
            it.wf(),
            it.page() == page@,
            it.position() == 0,
            it.remaining() == page@.rows(),
    {
        proof {
            use_type_invariant(page);
        }
        PageIterator { page, iterator_index: 0 }
    }

    /// Takes what decoding at the scan's position gave: a row moves the scan past it and
    /// is handed on; a failure ends the scan where it stands.
    pub fn step(&mut self, decoded: Result<(Row, usize), TableError>) -> (r: Option<Row>)
        requires
            decoded matches Ok((_, n)) ==> old(self).position() + n <= old(self).page().cursor,
        ensures
            old(self).wf(),
            final(self).wf(),
            final(self).page() == old(self).page(),
            match decoded {
                Ok((row, n)) => r == Some(row) && final(self).position() == old(self).position()
                    + n,
                Err(_) => r is None && final(self).position() == old(self).position(),
            },
    {
        proof {
            use_type_invariant(&*self);
            use_type_invariant(self.page);
        }
        match decoded {
            Ok((row, n)) => {
                self.iterator_index = self.iterator_index + n;
                Some(row)
            },
            Err(_) => None,
        }
    }

    /// The next row of the page, or nothing once the scan has reached the cursor or a
    /// place that does not decode.
    pub fn next(&mut self) -> (r: Option<Row>)
        ensures
            old(self).wf(),
            final(self).wf(),
            final(self).page() == old(self).page(),
            match r {
                Some(row) => old(self).remaining().len() > 0 && row@ == old(
                    self,
                ).remaining().first() && final(self).remaining() == old(
                    self,
                ).remaining().drop_first(),
                None => old(self).remaining().len() == 0 && final(self).remaining().len() == 0,
            },
    {
        proof {
            use_type_invariant(&*self);
            use_type_invariant(self.page);
        }
        if self.iterator_index >= self.page.index {
            return None;
        }
        let src = slice_subrange(self.page.raw.as_slice(), self.iterator_index, self.page.index);
        let decoded = Row::decode(src);
        proof {
            if let Ok((_, n)) = decoded {
                assert(src@.skip(n as int) =~= self.page().bytes.subrange(
                    self.position() + n,
                    self.page().cursor as int,
                ));
                assert(rows_in(src@).drop_first() =~= rows_in(src@.skip(n as int)));
            }
        }
        self.step(decoded)
    }
}

/// Writing a record appends it to the bytes written so far.
pub proof fn lemma_with_record_used(page: PageView, record: Seq<u8>)
    requires
        page.wf(),
        record.len() <= page.free(),
    ensures
        page.with_record(record).wf(),
        page.with_record(record).used() == page.used() + record,
{
    assert(page.with_record(record).used() =~= page.used() + record);
}

/// Packing one more row appends its encoded form.
pub proof fn lemma_packed_push(rows: Seq<RowView>, row: RowView)
    ensures
        packed(rows.push(row)) == packed(rows) + row_encoding(row),
        encoded_len(rows.push(row)) == encoded_len(rows) + row_encoding(row).len(),
    decreases rows.len(),
{
    let more = rows.push(row);
    if rows.len() == 0 {
        assert(more.drop_first() =~= Seq::<RowView>::empty());
        assert(packed(more.drop_first()) =~= Seq::<u8>::empty());
        assert(packed(more) =~= row_encoding(row));
        assert(packed(rows) + row_encoding(row) =~= row_encoding(row));
        assert(encoded_len(more.drop_first()) == 0);
        assert(more.first() == row);
    } else {
        assert(more.drop_first() =~= rows.drop_first().push(row));
        lemma_packed_push(rows.drop_first(), row);
        assert(packed(more) =~= packed(rows) + row_encoding(row));
        assert(more.first() == rows.first());
    }
}

/// The packed form of rows is as long as the sum of their encoded lengths, and every
/// one of them is no longer than the whole.
pub proof fn lemma_packed_len(rows: Seq<RowView>)
    ensures
        packed(rows).len() == encoded_len(rows),
        forall|i: int| 0 <= i < rows.len() ==> row_encoding(#[trigger] rows[i]).len() <= packed(rows).len(),
    decreases rows.len(),
{
    if rows.len() > 0 {
        lemma_packed_len(rows.drop_first());
        assert forall|i: int| 0 <= i < rows.len() implies row_encoding(
            #[trigger] rows[i],
        ).len() <= packed(rows).len() by {
            if i > 0 {
                assert(rows[i] == rows.drop_first()[i - 1]);
            }
        }
    }
}

/// Scanning the packed form of storable rows yields exactly those rows, in order.
pub proof fn lemma_rows_in_packed(rows: Seq<RowView>)
    requires
        forall|i: int| 0 <= i < rows.len() ==> row_fits(#[trigger] rows[i]),
    ensures
        rows_in(packed(rows)) == rows,
    decreases rows.len(),
{
    if rows.len() > 0 {
        let first = rows.first();
        let rest = rows.drop_first();
        assert(row_fits(rows[0]));
        lemma_row_encoding_len(first);
        lemma_decode_inverts_encode(first, packed(rest));
        assert(packed(rows).skip(row_encoding(first).len() as int) =~= packed(rest));
        assert forall|i: int| 0 <= i < rest.len() implies row_fits(#[trigger] rest[i]) by {
            assert(rest[i] == rows[i + 1]);
        }
        lemma_rows_in_packed(rest);
        assert(seq![first] + rest =~= rows);
    }
}

/// A page that holds exactly the encoded forms of some rows has its cursor at the sum
/// of their encoded lengths, and reading it yields exactly those rows, in order.
pub proof fn lemma_page_reads_what_it_holds(page: PageView, rows: Seq<RowView>)
    requires
        page.wf(),
        page.holds(rows),
    ensures
        page.cursor == encoded_len(rows),
        page.rows() == rows,
{
    lemma_packed_len(rows);
    lemma_rows_in_packed(rows);
}

/// An empty page holds no rows.
pub proof fn lemma_new_page_holds_nothing()
    ensures
        Page::new_view().wf(),
        Page::new_view().holds(Seq::empty()),
        Page::new_view().rows() == Seq::<RowView>::empty(),
        Page::new_view().intact(),
{
    assert(Page::new_view().used() =~= packed(Seq::empty()));
}

/// A page that holds some rows holds one more after that row was written to it, and
/// reading it then yields the rows it yielded before, followed by that row.
pub proof fn lemma_insert_extends_what_page_holds(page: PageView, rows: Seq<RowView>, row: RowView)
    requires
        page.wf(),
        page.holds(rows),
        row_encoding(row).len() <= page.free(),
    ensures
        page.with_record(row_encoding(row)).wf(),
        page.with_record(row_encoding(row)).holds(rows.push(row)),
        page.with_record(row_encoding(row)).rows() == page.rows().push(row),
{
    let after = page.with_record(row_encoding(row));
    lemma_with_record_used(page, row_encoding(row));
    lemma_packed_push(rows, row);
    lemma_page_reads_what_it_holds(page, rows);
    lemma_page_reads_what_it_holds(after, rows.push(row));
}

/// The page that results from writing `rows`, one after another, to an empty page.
pub open spec fn filled(rows: Seq<RowView>) -> PageView
    decreases rows.len(),
{
    if rows.len() == 0 {
        Page::new_view()
    } else {
        filled(rows.drop_last()).with_record(row_encoding(rows.last()))
    }
}

/// After any run of inserts into an empty page that all found room, the cursor is the
/// sum of the encoded lengths of the rows inserted, and reading the page yields exactly
/// those rows, in the order of their insertion.
pub proof fn lemma_filled_page(rows: Seq<RowView>)
    requires
        encoded_len(rows) <= PAGE_SIZE,
    ensures
        filled(rows).wf(),
        filled(rows).holds(rows),
        filled(rows).cursor == encoded_len(rows),
        filled(rows).rows() == rows,
    decreases rows.len(),
{
    if rows.len() == 0 {
        lemma_new_page_holds_nothing();
    } else {
        let before = rows.drop_last();
        assert(before.push(rows.last()) =~= rows);
        lemma_packed_push(before, rows.last());
        lemma_filled_page(before);
        lemma_insert_extends_what_page_holds(filled(before), before, rows.last());
        lemma_page_reads_what_it_holds(filled(rows), rows);
    }
}

} // verus!
