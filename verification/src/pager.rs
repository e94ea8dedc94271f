//! The pager: the ordered pages of a table, and their form on disk.

use vstd::prelude::*;
use crate::error::TableError;
use crate::page::{Page, PageView, PAGE_SIZE};
use crate::wire::{lemma_prefixed_unique, lemma_split_prefix, lemma_varint_len, lemma_varint_value, prefixed, varint};

verus! {

/// The most pages that a table can have.
pub const TABLE_MAX_PAGES: usize = 100;

/// The encoded form of one page: its buffer, length-prefixed, then its cursor as a
/// variable-length integer.
pub open spec fn page_encoding(page: PageView) -> Seq<u8> {
    prefixed(page.bytes) + varint(page.cursor)
}

/// The encoded forms of `pages`, back to back.
pub open spec fn pages_body(pages: Seq<PageView>) -> Seq<u8>
    decreases pages.len(),
{
    if pages.len() == 0 {
        Seq::empty()
    } else {
        page_encoding(pages.first()) + pages_body(pages.drop_first())
    }
}

/// The encoded form of a sequence of pages: their number as a variable-length integer,
/// then each page in order.
pub open spec fn pages_encoding(pages: Seq<PageView>) -> Seq<u8> {
    varint(pages.len()) + pages_body(pages)
}

/// A table's pages: no more than the maximum, each of them well formed.
pub open spec fn pages_valid(pages: Seq<PageView>) -> bool {
    pages.len() <= TABLE_MAX_PAGES && forall|i: int| 0 <= i < pages.len() ==> (#[trigger] pages[i]).wf()
}

/// `bytes` begin with the encoded form of the valid pages `pages`.
pub open spec fn starts_with_pages(bytes: Seq<u8>, pages: Seq<PageView>) -> bool {
    pages_valid(pages) && pages_encoding(pages).is_prefix_of(bytes)
}

/// What `bincode::decode_from_slice` makes of `bytes` when asked for a vector of pairs of
/// a byte vector and an integer: the pairs, or nothing where it fails.
pub uninterp spec fn bincode_pages_decoding(bytes: Seq<u8>) -> Option<Seq<PageView>>;

/// Buffers and cursors as they were decoded, whether well formed or not.
pub open spec fn parts_view(parts: Seq<(Vec<u8>, usize)>) -> Seq<PageView> {
    Seq::new(parts.len(), |i: int| PageView { bytes: parts[i].0@, cursor: parts[i].1 as nat })
}

/// A decoding result as a mathematical value.
pub open spec fn decoded_parts<E>(r: Result<Vec<(Vec<u8>, usize)>, E>) -> Option<Seq<PageView>> {
    match r {
        Ok(parts) => Some(parts_view(parts@)),
        Err(_) => None,
    }
}

/// Calls `bincode::encode_to_vec` on the pages, each as the pair of its buffer and its
/// cursor, in the standard configuration. Trusted: that the call succeeds (the in-memory
/// writer accepts every write), and that the bytes are the documented layout of a vector
/// of pairs of a byte slice and an integer.
#[verifier::external_body]
fn bincode_encode_pages(pages: &Vec<Page>) -> (r: Result<Vec<u8>, bincode::error::EncodeError>)
    ensures
        r is Ok,
        r matches Ok(bytes) ==> bytes@ == pages_encoding(pages@.map_values(|p: Page| p@)),
{
    let parts: Vec<(&[u8], usize)> = pages.iter().map(|p| (p.bytes(), p.cursor())).collect();
    bincode::encode_to_vec(parts, bincode::config::standard())
}

/// The most bytes that the decoder may claim while it reads a file. No input makes it
/// allocate more than this.
pub const PAGES_DECODE_LIMIT: usize = 1048576;

/// A bound on what the decoder claims of its limit while it reads `count` well-formed
/// pages: eight bytes for their number, and for each page the thirty-two of its place
/// in the vector, eight for the length of its buffer, the buffer, and eight for its
/// cursor.
pub open spec fn pages_claim(count: nat) -> nat {
    8 + count * (PAGE_SIZE as nat + 48)
}

/// `bytes` begin with the encoded form of the well-formed pages `pages`, and reading
/// them stays within the limit.
pub open spec fn decodable_pages(bytes: Seq<u8>, pages: Seq<PageView>) -> bool {
    &&& forall|i: int| 0 <= i < pages.len() ==> (#[trigger] pages[i]).wf()
    &&& pages_claim(pages.len()) <= PAGES_DECODE_LIMIT
    &&& pages_encoding(pages).is_prefix_of(bytes)
}

/// Calls `bincode::decode_from_slice` for a vector of pairs of a byte vector and an
/// integer, in the standard configuration with `PAGES_DECODE_LIMIT` as the limit on
/// what it may claim. Trusted: that on input which begins with the encoded form of
/// well-formed pages whose claim is within the limit the call returns those pages.
#[verifier::external_body]
fn bincode_decode_pages(src: &[u8]) -> (r: Result<Vec<(Vec<u8>, usize)>, bincode::error::DecodeError>)
    ensures
        decoded_parts(r) == bincode_pages_decoding(src@),
        forall|pages: Seq<PageView>| #[trigger]
            decodable_pages(src@, pages) ==> decoded_parts(r) == Some(pages),
{
    let config = bincode::config::standard().with_limit::<PAGES_DECODE_LIMIT>();
    bincode::decode_from_slice::<Vec<(Vec<u8>, usize)>, _>(src, config).map(|(parts, _)| parts)
}

/// Reading a valid sequence of pages stays within the decoder's limit.
pub proof fn lemma_valid_pages_are_decodable(pages: Seq<PageView>)
    requires
        pages_valid(pages),
    ensures
        pages_claim(pages.len()) <= pages_claim(TABLE_MAX_PAGES as nat) <= PAGES_DECODE_LIMIT,
{
    let count = pages.len();
    let each = PAGE_SIZE as nat + 48;
    let most = TABLE_MAX_PAGES as nat;
    assert(count * each <= most * each) by (nonlinear_arith)
        requires
            count <= most,
    ;
}

/// What decoding makes of `bytes`: where they begin with the encoded form of valid
/// pages, those pages; elsewhere, what the decoder says.
pub open spec fn pages_decoding(bytes: Seq<u8>) -> Option<Seq<PageView>> {
    if exists|pages: Seq<PageView>| starts_with_pages(bytes, pages) {
        Some(choose|pages: Seq<PageView>| starts_with_pages(bytes, pages))
    } else {
        bincode_pages_decoding(bytes)
    }
}

/// The pages that a file's contents stand for: none for an empty file; otherwise what
/// the contents decode to, provided that it is a valid sequence of pages.
pub open spec fn file_pages(contents: Seq<u8>) -> Option<Seq<PageView>> {
    if contents.len() == 0 {
        Some(Seq::empty())
    } else {
        match pages_decoding(contents) {
            Some(pages) => if pages_valid(pages) {
                Some(pages)
            } else {
                None
            },
            None => None,
        }
    }
}

/// The ordered pages of a table.
#[derive(Debug, Clone, PartialEq, Eq)]
pub struct Pager {
    pages: Vec<Page>,
}

impl View for Pager {
    type V = Seq<PageView>;

    closed spec fn view(&self) -> Seq<PageView> {
        self.pages@.map_values(|p: Page| p@)
    }
}

impl Pager {
    /// No more pages than the maximum, each of them well formed.
    pub open spec fn wf(&self) -> bool {
        pages_valid(self@)
    }


    /// The pager of decoded buffers and cursors, if they are a valid sequence of pages:
    /// no more than the maximum, each buffer of the fixed size, each cursor within it.
    pub fn from_parts(parts: &[(Vec<u8>, usize)]) -> (r: Result<Pager, TableError>)
        ensures
            match r {
                Ok(pager) => pager.wf() && pager@ == parts_view(parts@),
                Err(e) => e == TableError::DecodeError && !pages_valid(parts_view(parts@)),
            },
    {
        let ghost decoded = parts_view(parts@);
        if parts.len() > TABLE_MAX_PAGES {
            return Err(TableError::DecodeError);
        }
        let mut pages: Vec<Page> = Vec::new();
        let mut i: usize = 0;
        while i < parts.len()
            invariant
                i <= parts@.len(),
                decoded == parts_view(parts@),
                pages@.len() == i,
                forall|k: int| 0 <= k < i ==> (#[trigger] pages@[k])@ == decoded[k] && decoded[k].wf(),
            decreases parts@.len() - i,
        {
            let raw = parts[i].0.clone();
            let index = parts[i].1;
            assert(raw@ == parts@[i as int].0@);
            match Page::from_parts(raw, index) {
                Some(page) => {
                    pages.push(page);
                },
                None => {
                    assert(decoded[i as int] == PageView { bytes: raw@, cursor: index as nat });
                    assert(!pages_valid(decoded));
                    return Err(TableError::DecodeError);
                },
            }
            i += 1;
        }
        assert(pages@.map_values(|p: Page| p@) =~= decoded);
        Ok(Pager { pages })
    }

    /// The pager of a file with the given contents: no pages for an empty file, the
    /// decoded pages otherwise. Contents that do not decode to a valid sequence of pages
    /// are refused.
    pub fn new(contents: &[u8]) -> (r: Result<Pager, TableError>)
        ensures
            match r {
                Ok(pager) => pager.wf() && file_pages(contents@) == Some(pager@),
                Err(e) => e == TableError::DecodeError && file_pages(contents@) is None,
            },
    {
        if contents.len() == 0 {
            let pages: Vec<Page> = Vec::new();
            assert(pages@.map_values(|p: Page| p@) =~= Seq::<PageView>::empty());
            return Ok(Pager { pages });
        }
        let decoded = bincode_decode_pages(contents);
        proof {
            if exists|pages: Seq<PageView>| starts_with_pages(contents@, pages) {
                let pages = choose|pages: Seq<PageView>| starts_with_pages(contents@, pages);
                lemma_valid_pages_are_decodable(pages);
                assert(decodable_pages(contents@, pages));
            }
        }
        match decoded {
            Ok(parts) => {
                assert(pages_decoding(contents@) == Some(parts_view(parts@)));
                Pager::from_parts(parts.as_slice())
            },
            Err(_) => Err(TableError::DecodeError),
        }
    }

    /// The encoded form of all the pages, as it is written to the file.
    pub fn persist(&self) -> (r: Result<Vec<u8>, TableError>)
        ensures
            r matches Ok(bytes) && bytes@ == pages_encoding(self@),
    {
        match bincode_encode_pages(&self.pages) {
            Ok(bytes) => Ok(bytes),
            Err(_) => Err(TableError::EncodeError),
        }
    }

    /// Appends an empty page and hands it out, unless the pager is at its maximum.
    pub fn add_page(&mut self) -> (r: Result<&mut Page, TableError>)
        ensures
            match r {
                Ok(page) => old(self)@.len() < TABLE_MAX_PAGES && page@ == Page::new_view()
                    && final(self)@ == old(self)@.push(final(page)@),
                Err(e) => e == TableError::TableIsFull && old(self)@.len() >= TABLE_MAX_PAGES
                    && final(self)@ == old(self)@,
            },
    {
        if self.pages.len() >= TABLE_MAX_PAGES {
            return Err(TableError::TableIsFull);
        }
        self.pages.push(Page::new());
        let last = self.pages.len() - 1;
        let ghost before = self.pages@;
        let page = &mut self.pages[last];
        proof {
            assert(before.update(last as int, *final(page)).map_values(|p: Page| p@) =~= old(
                self,
            )@.push(final(page)@));
        }
        Ok(page)
    }

    /// The most recently added page, if there is any.
    pub fn last_mut(&mut self) -> (r: Option<&mut Page>)
        ensures
            match r {
                Some(page) => old(self)@.len() > 0 && page@ == old(self)@.last() && final(self)@
                    == old(self)@.update(old(self)@.len() - 1, final(page)@),
                None => old(self)@.len() == 0 && final(self)@ == old(self)@,
            },
    {
        if self.pages.len() == 0 {
            return None;
        }
        let last = self.pages.len() - 1;
        let ghost before = self.pages@;
        let page = &mut self.pages[last];
        proof {
            assert(before.update(last as int, *final(page)).map_values(|p: Page| p@) =~= old(
                self,
            )@.update(last as int, final(page)@));
        }
        Some(page)
    }

    /// The number of pages.
    pub fn page_count(&self) -> (count: usize)
        ensures
            count == self@.len(),
    {
        self.pages.len()
    }

    /// The page at `index` in page order, if there is one.
    pub fn get(&self, index: usize) -> (r: Option<&Page>)
        ensures
            match r {
                Some(page) => index < self@.len() && page@ == self@[index as int],
                None => index >= self@.len(),
            },
    {
        if index < self.pages.len() {
            Some(&self.pages[index])
        } else {
            None
        }
    }
}

/// No byte sequence begins with the encoded forms of two different runs of well-formed
/// pages of one length.
proof fn lemma_pages_body_unique(bytes: Seq<u8>, a: Seq<PageView>, b: Seq<PageView>)
    requires
        a.len() == b.len(),
        forall|i: int| 0 <= i < a.len() ==> (#[trigger] a[i]).wf(),
        forall|i: int| 0 <= i < b.len() ==> (#[trigger] b[i]).wf(),
        pages_body(a).is_prefix_of(bytes),
        pages_body(b).is_prefix_of(bytes),
    ensures
        a == b,
    decreases a.len(),
{
    if a.len() == 0 {
        assert(a =~= b);
    } else {
        let (pa, pb) = (a.first(), b.first());
        assert(a[0].wf() && b[0].wf());
        lemma_split_prefix(page_encoding(pa), pages_body(a.drop_first()), bytes);
        lemma_split_prefix(page_encoding(pb), pages_body(b.drop_first()), bytes);
        lemma_split_prefix(prefixed(pa.bytes), varint(pa.cursor), bytes);
        lemma_split_prefix(prefixed(pb.bytes), varint(pb.cursor), bytes);
        lemma_prefixed_unique(pa.bytes, pb.bytes, bytes);
        let rest = bytes.skip(prefixed(pa.bytes).len() as int);
        lemma_varint_value(pa.cursor, rest);
        lemma_varint_value(pb.cursor, rest);
        assert(pa == pb);
        let tail = bytes.skip(page_encoding(pa).len() as int);
        assert forall|i: int| 0 <= i < a.drop_first().len() implies (#[trigger] a.drop_first()[i]).wf() by {
            assert(a.drop_first()[i] == a[i + 1]);
        }
        assert forall|i: int| 0 <= i < b.drop_first().len() implies (#[trigger] b.drop_first()[i]).wf() by {
            assert(b.drop_first()[i] == b[i + 1]);
        }
        lemma_pages_body_unique(tail, a.drop_first(), b.drop_first());
        assert(a =~= seq![pa] + a.drop_first());
        assert(b =~= seq![pb] + b.drop_first());
    }
}

/// Pages whose claim is within the limit are fewer than the limit.
proof fn lemma_claim_bounds_count(count: nat)
    requires
        pages_claim(count) <= PAGES_DECODE_LIMIT,
    ensures
        count <= PAGES_DECODE_LIMIT,
{
    let each = PAGE_SIZE as nat + 48;
    assert(count <= count * each) by (nonlinear_arith)
        requires
            each >= 1,
    ;
}

/// No byte sequence begins with the encoded forms of two different sequences of
/// well-formed pages that the decoder can read within its limit.
pub proof fn lemma_pages_encoding_unique(bytes: Seq<u8>, a: Seq<PageView>, b: Seq<PageView>)
    requires
        decodable_pages(bytes, a),
        decodable_pages(bytes, b),
    ensures
        a == b,
{
    lemma_claim_bounds_count(a.len());
    lemma_claim_bounds_count(b.len());
    lemma_split_prefix(varint(a.len()), pages_body(a), bytes);
    lemma_split_prefix(varint(b.len()), pages_body(b), bytes);
    lemma_varint_value(a.len(), bytes);
    lemma_varint_value(b.len(), bytes);
    lemma_pages_body_unique(bytes.skip(varint(a.len()).len() as int), a, b);
}

/// What is saved is what is loaded: the encoded form of valid pages, whatever bytes
/// follow it, stands for exactly those pages.
pub proof fn lemma_saved_pages_load_back(pages: Seq<PageView>, rest: Seq<u8>)
    requires
        pages_valid(pages),
    ensures
        pages_encoding(pages).len() > 0,
        file_pages(pages_encoding(pages) + rest) == Some(pages),
{
    let contents = pages_encoding(pages) + rest;
    lemma_varint_len(pages.len());
    assert(starts_with_pages(contents, pages));
    let found = choose|p: Seq<PageView>| starts_with_pages(contents, p);
    lemma_valid_pages_are_decodable(found);
    lemma_valid_pages_are_decodable(pages);
    lemma_pages_encoding_unique(contents, found, pages);
}

} // verus!
