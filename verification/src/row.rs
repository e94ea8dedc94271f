//! The record stored by the table, and its encoded form.

use vstd::prelude::*;
use vstd::string::StringExecFns;
use vstd::utf8::*;
use crate::error::TableError;
use crate::page::PAGE_SIZE;
use crate::wire::{lemma_prefixed_unique, lemma_split_prefix, lemma_varint_len, lemma_varint_value, prefixed, text_encoding, varint};

verus! {

/// A record: an identifier and two texts.
#[derive(Debug, Clone, PartialEq, Eq)]
pub struct Row {
    pub id: u32,
    pub username: String,
    pub email: String,
}

/// What a row is, mathematically.
pub struct RowView {
    pub id: u32,
    pub username: Seq<char>,
    pub email: Seq<char>,
}

impl View for Row {
    type V = RowView;

    open spec fn view(&self) -> RowView {
        RowView { id: self.id, username: self.username@, email: self.email@ }
    }
}

/// The character of a decimal digit.
pub open spec fn digit_char(digit: nat) -> char {
    if digit == 0 {
        '0'
    } else if digit == 1 {
        '1'
    } else if digit == 2 {
        '2'
    } else if digit == 3 {
        '3'
    } else if digit == 4 {
        '4'
    } else if digit == 5 {
        '5'
    } else if digit == 6 {
        '6'
    } else if digit == 7 {
        '7'
    } else if digit == 8 {
        '8'
    } else {
        '9'
    }
}

/// A number in decimal digits, without leading zeros.
pub open spec fn decimal_text(n: nat) -> Seq<char>
    decreases n,
{
    if n < 10 {
        seq![digit_char(n)]
    } else {
        decimal_text(n / 10).push(digit_char(n % 10))
    }
}

/// A row as a line of text: the identifier, the user name and the e-mail address, with
/// one space between them.
pub open spec fn row_text(row: RowView) -> Seq<char> {
    decimal_text(row.id as nat) + seq![' '] + row.username + seq![' '] + row.email
}

/// A decimal digit as a text of one character.
fn digit_text(digit: u32) -> (text: &'static str)
    requires
        digit < 10,
    ensures
        text@ == seq![digit_char(digit as nat)],
{
    proof {
        reveal_strlit("0");
        reveal_strlit("1");
        reveal_strlit("2");
        reveal_strlit("3");
        reveal_strlit("4");
        reveal_strlit("5");
        reveal_strlit("6");
        reveal_strlit("7");
        reveal_strlit("8");
        reveal_strlit("9");
    }
    let text = if digit == 0 {
        "0"
    } else if digit == 1 {
        "1"
    } else if digit == 2 {
        "2"
    } else if digit == 3 {
        "3"
    } else if digit == 4 {
        "4"
    } else if digit == 5 {
        "5"
    } else if digit == 6 {
        "6"
    } else if digit == 7 {
        "7"
    } else if digit == 8 {
        "8"
    } else {
        "9"
    };
    assert(text@ =~= seq![digit_char(digit as nat)]);
    text
}

/// Appends a number in decimal digits to a text.
fn push_decimal(text: &mut String, n: u32)
    ensures
        final(text)@ == old(text)@ + decimal_text(n as nat),
    decreases n,
{
    if n >= 10 {
        push_decimal(text, n / 10);
    }
    text.append(digit_text(n % 10));
    proof {
        let digit = seq![digit_char((n % 10) as nat)];
        if n >= 10 {
            assert(old(text)@ + decimal_text((n / 10) as nat) + digit =~= old(text)@
                + decimal_text((n / 10) as nat).push(digit_char((n % 10) as nat)));
        }
    }
}

/// The encoded form of a row: the identifier as a variable-length integer, then the
/// user name and the e-mail address, each as a length-prefixed text.
pub open spec fn row_encoding(row: RowView) -> Seq<u8> {
    varint(row.id as nat) + text_encoding(row.username) + text_encoding(row.email)
}

/// `bincode`'s error on encoding, carried through as an opaque value.
#[verifier::external_type_specification]
#[verifier::external_body]
pub struct ExEncodeError(bincode::error::EncodeError);

/// Calls `bincode::encode_to_vec` on the row's three fields, as a tuple, in the standard
/// configuration. Trusted: that the call succeeds (the integer and string encoders fail
/// only when the writer does, and the in-memory writer accepts every write), and that
/// the bytes are the documented layout of a tuple of an integer and two strings.
#[verifier::external_body]
fn bincode_encode_row(row: &Row) -> (r: Result<Vec<u8>, bincode::error::EncodeError>)
    ensures
        r is Ok,
        r matches Ok(bytes) ==> bytes@ == row_encoding(row@),
{
    bincode::encode_to_vec(
        (row.id, row.username.as_str(), row.email.as_str()),
        bincode::config::standard(),
    )
}

/// A row is storable when its encoded form is no longer than a page.
pub open spec fn row_fits(row: RowView) -> bool {
    row_encoding(row).len() <= PAGE_SIZE
}

/// `bytes` begin with the encoded form of the storable row `row`.
pub open spec fn starts_with_row(bytes: Seq<u8>, row: RowView) -> bool {
    row_fits(row) && row_encoding(row).is_prefix_of(bytes)
}

/// `bincode`'s error on decoding, carried through as an opaque value.
#[verifier::external_type_specification]
#[verifier::external_body]
pub struct ExDecodeError(bincode::error::DecodeError);

/// What `bincode::decode_from_slice` makes of `bytes` when asked for a tuple of an integer
/// and two strings: the fields and the number of bytes read, or nothing where it fails.
pub uninterp spec fn bincode_row_decoding(bytes: Seq<u8>) -> Option<(RowView, nat)>;

/// A decoding result as a mathematical value.
pub open spec fn decoded_view<E>(r: Result<(Row, usize), E>) -> Option<(RowView, nat)> {
    match r {
        Ok((row, n)) => Some((row@, n as nat)),
        Err(_) => None,
    }
}

/// The most bytes that the decoder may claim while it reads one row. No input makes it
/// allocate more than this.
pub const ROW_DECODE_LIMIT: usize = 8192;

/// What the decoder claims of its limit while it reads `row`: four bytes for the
/// identifier, eight for the length of each text, and the bytes of the two texts.
pub open spec fn row_claim(row: RowView) -> nat {
    20 + encode_utf8(row.username).len() + encode_utf8(row.email).len()
}

/// `bytes` begin with the encoded form of `row`, and reading it stays within the limit.
pub open spec fn decodable_row(bytes: Seq<u8>, row: RowView) -> bool {
    row_claim(row) <= ROW_DECODE_LIMIT && row_encoding(row).is_prefix_of(bytes)
}

/// Calls `bincode::decode_from_slice` for a tuple of an integer and two strings, in the
/// standard configuration with `ROW_DECODE_LIMIT` as the limit on what it may claim.
/// Trusted: that the call reads at least one byte and no more than it was given, and
/// that on input which begins with the encoded form of a row whose claim is within the
/// limit it returns that row and the length of that form.
#[verifier::external_body]
fn bincode_decode_row(src: &[u8]) -> (r: Result<(Row, usize), bincode::error::DecodeError>)
    ensures
        decoded_view(r) == bincode_row_decoding(src@),
        r matches Ok((_, n)) ==> 1 <= n <= src@.len(),
        forall|row: RowView| #[trigger]
            decodable_row(src@, row) ==> decoded_view(r) == Some(
                (row, row_encoding(row).len()),
            ),
{
    let config = bincode::config::standard().with_limit::<ROW_DECODE_LIMIT>();
    bincode::decode_from_slice::<(u32, String, String), _>(src, config).map(
        |((id, username, email), n)| (Row { id, username, email }, n),
    )
}

/// Reading a storable row stays within the decoder's limit.
pub proof fn lemma_storable_row_is_decodable(row: RowView)
    requires
        row_fits(row),
    ensures
        row_claim(row) <= PAGE_SIZE + 17 <= ROW_DECODE_LIMIT,
{
    lemma_row_encoding_len(row);
    lemma_varint_len(encode_utf8(row.username).len());
    lemma_varint_len(encode_utf8(row.email).len());
}

/// What decoding makes of `bytes`: where they begin with the encoded form of a storable
/// row, that row and the length of its encoded form; elsewhere, what the decoder says.
pub open spec fn row_decoding(bytes: Seq<u8>) -> Option<(RowView, nat)> {
    if exists|row: RowView| starts_with_row(bytes, row) {
        let row = choose|row: RowView| starts_with_row(bytes, row);
        Some((row, row_encoding(row).len()))
    } else {
        bincode_row_decoding(bytes)
    }
}

impl Row {
    /// The row as a line of text: `id username email`.
    pub fn to_text(&self) -> (text: String)
        ensures
            text@ == row_text(self@),
    {
        proof {
            reveal_strlit(" ");
        }
        let mut text = String::new();
        push_decimal(&mut text, self.id);
        text.append(" ");
        text.append(self.username.as_str());
        text.append(" ");
        text.append(self.email.as_str());
        assert(text@ =~= row_text(self@));
        text
    }

    /// The row's encoded form.
    pub fn encode(&self) -> (r: Result<Vec<u8>, TableError>)
        ensures
            r matches Ok(bytes) && bytes@ == row_encoding(self@),
    {
        match bincode_encode_row(self) {
            Ok(bytes) => Ok(bytes),
            Err(_) => Err(TableError::EncodeError),
        }
    }

    /// Decodes one row from the front of `src`, and says how many bytes it took.
    pub fn decode(src: &[u8]) -> (r: Result<(Row, usize), TableError>)
        ensures
            decoded_view(r) == row_decoding(src@),
            r matches Ok((_, n)) ==> 1 <= n <= src@.len(),
            r matches Err(e) ==> e == TableError::DecodeError,
    {
        let decoded = bincode_decode_row(src);
        proof {
            if exists|row: RowView| starts_with_row(src@, row) {
                let row = choose|row: RowView| starts_with_row(src@, row);
                lemma_storable_row_is_decodable(row);
                assert(decodable_row(src@, row));
            }
        }
        match decoded {
            Ok((row, n)) => Ok((row, n)),
            Err(_) => Err(TableError::DecodeError),
        }
    }
}

/// The length of a row's encoded form: at least three bytes, one for each field.
pub proof fn lemma_row_encoding_len(row: RowView)
    ensures
        row_encoding(row).len() == varint(row.id as nat).len() + text_encoding(
            row.username,
        ).len() + text_encoding(row.email).len(),
        row_encoding(row).len() >= 3,
{
    lemma_varint_len(row.id as nat);
    lemma_varint_len(encode_utf8(row.username).len());
    lemma_varint_len(encode_utf8(row.email).len());
}

/// No byte sequence begins with the encoded forms of two different rows that the
/// decoder can read within its limit.
pub proof fn lemma_row_encoding_unique(bytes: Seq<u8>, a: RowView, b: RowView)
    requires
        decodable_row(bytes, a),
        decodable_row(bytes, b),
    ensures
        a == b,
{
    lemma_row_encoding_len(a);
    lemma_row_encoding_len(b);
    let (ia, ua, ea) = (varint(a.id as nat), encode_utf8(a.username), encode_utf8(a.email));
    let (ib, ub, eb) = (varint(b.id as nat), encode_utf8(b.username), encode_utf8(b.email));
    assert(row_encoding(a) =~= ia + (prefixed(ua) + prefixed(ea)));
    assert(row_encoding(b) =~= ib + (prefixed(ub) + prefixed(eb)));
    lemma_split_prefix(ia, prefixed(ua) + prefixed(ea), bytes);
    lemma_split_prefix(ib, prefixed(ub) + prefixed(eb), bytes);
    lemma_varint_value(a.id as nat, bytes);
    lemma_varint_value(b.id as nat, bytes);
    assert(a.id == b.id);
    let rest = bytes.skip(ia.len() as int);
    lemma_split_prefix(prefixed(ua), prefixed(ea), rest);
    lemma_split_prefix(prefixed(ub), prefixed(eb), rest);
    lemma_prefixed_unique(ua, ub, rest);
    let tail = rest.skip(prefixed(ua).len() as int);
    lemma_prefixed_unique(ea, eb, tail);
    encode_utf8_decode_utf8(a.username);
    encode_utf8_decode_utf8(b.username);
    encode_utf8_decode_utf8(a.email);
    encode_utf8_decode_utf8(b.email);
    assert(a.username == b.username);
    assert(a.email == b.email);
}

/// Decoding inverts encoding: from the encoded form of a storable row, whatever bytes
/// follow it, decoding gives the row back and consumes exactly that form.
pub proof fn lemma_decode_inverts_encode(row: RowView, rest: Seq<u8>)
    requires
        row_fits(row),
    ensures
        row_decoding(row_encoding(row) + rest) == Some((row, row_encoding(row).len())),
{
    let bytes = row_encoding(row) + rest;
    assert(starts_with_row(bytes, row));
    let found = choose|r: RowView| starts_with_row(bytes, r);
    lemma_storable_row_is_decodable(found);
    lemma_storable_row_is_decodable(row);
    lemma_row_encoding_unique(bytes, found, row);
}

} // verus!
