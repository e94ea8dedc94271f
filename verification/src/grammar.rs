//! The grammar of a statement line, as a mathematical model on bytes, and the readers
//! of its parts.
//!
//! White space at both ends of a line does not count. What is left is cut into words:
//! the maximal runs of bytes that are not blank. A statement is either the single word
//! `select`, or the word `insert` followed by three words: an identifier in decimal
//! digits, a user name and an e-mail address.

use vstd::prelude::*;
use vstd::slice::{slice_subrange, slice_to_vec};
use vstd::utf8::*;

verus! {

/// White space as Unicode defines it: the characters with the property `White_Space`.
pub open spec fn is_white_space(c: char) -> bool {
    let code = c as u32;
    ||| 0x0009 <= code <= 0x000D
    ||| code == 0x0020
    ||| code == 0x0085
    ||| code == 0x00A0
    ||| code == 0x1680
    ||| 0x2000 <= code <= 0x200A
    ||| code == 0x2028
    ||| code == 0x2029
    ||| code == 0x202F
    ||| code == 0x205F
    ||| code == 0x3000
}

/// `text` without the white space at its start.
pub open spec fn trim_start(text: Seq<char>) -> Seq<char>
    decreases text.len(),
{
    if text.len() > 0 && is_white_space(text.first()) {
        trim_start(text.drop_first())
    } else {
        text
    }
}

/// `text` without the white space at its end.
pub open spec fn trim_end(text: Seq<char>) -> Seq<char>
    decreases text.len(),
{
    if text.len() > 0 && is_white_space(text.last()) {
        trim_end(text.drop_last())
    } else {
        text
    }
}

/// `text` without the white space at its start and at its end.
pub open spec fn trimmed(text: Seq<char>) -> Seq<char> {
    trim_end(trim_start(text))
}

/// Calls `str::trim`. Trusted: that it gives the text without the characters of the
/// Unicode property `White_Space` at its start and at its end.
#[verifier::external_body]
pub(crate) fn trim_text(text: &str) -> (r: &str)
    ensures
        r@ == trimmed(text@),
{
    text.trim()
}

/// What is left of a text without the white space at its start does not start with
/// white space.
pub proof fn lemma_trim_start_head(text: Seq<char>)
    ensures
        trim_start(text).len() == 0 || !is_white_space(trim_start(text).first()),
    decreases text.len(),
{
    if text.len() > 0 && is_white_space(text.first()) {
        lemma_trim_start_head(text.drop_first());
    }
}

/// What is left of a text without the white space at its end does not end with white
/// space, and starts as the text does.
pub proof fn lemma_trim_end_tail(text: Seq<char>)
    ensures
        trim_end(text).len() == 0 || !is_white_space(trim_end(text).last()),
        trim_end(text).len() <= text.len(),
        text.len() > 0 && !is_white_space(text.first()) ==> trim_end(text).len() > 0
            && trim_end(text).first() == text.first(),
    decreases text.len(),
{
    if text.len() > 0 && is_white_space(text.last()) {
        lemma_trim_end_tail(text.drop_last());
    }
}

/// Trimming a trimmed text changes nothing.
pub proof fn lemma_trimmed_twice(text: Seq<char>)
    ensures
        trimmed(trimmed(text)) == trimmed(text),
{
    let inner = trim_start(text);
    let once = trim_end(inner);
    lemma_trim_start_head(text);
    lemma_trim_end_tail(inner);
    assert(trim_start(once) == once);
    assert(trim_end(once) == once);
}

/// A blank: a space, a tab, a line feed or a carriage return.
pub open spec fn is_blank(byte: u8) -> bool {
    byte == 0x20 || byte == 0x09 || byte == 0x0A || byte == 0x0D
}

/// The length of the longest prefix of `line` that holds no blank.
pub open spec fn word_len(line: Seq<u8>) -> nat
    decreases line.len(),
{
    if line.len() == 0 || is_blank(line[0]) {
        0
    } else {
        1 + word_len(line.drop_first())
    }
}

/// The words of `line`, in order.
pub open spec fn words(line: Seq<u8>) -> Seq<Seq<u8>>
    decreases line.len(),
{
    if line.len() == 0 {
        Seq::empty()
    } else if is_blank(line[0]) {
        words(line.drop_first())
    } else {
        let n = word_len(line);
        if 0 < n <= line.len() {
            seq![line.take(n as int)] + words(line.skip(n as int))
        } else {
            Seq::empty()
        }
    }
}

/// A decimal digit.
pub open spec fn is_digit(byte: u8) -> bool {
    0x30 <= byte <= 0x39
}

/// A number in decimal digits: at least one digit, and nothing else.
pub open spec fn is_number(word: Seq<u8>) -> bool {
    word.len() > 0 && forall|i: int| 0 <= i < word.len() ==> is_digit(#[trigger] word[i])
}

/// The value of a number in decimal digits.
pub open spec fn decimal_value(word: Seq<u8>) -> nat
    decreases word.len(),
{
    if word.len() == 0 {
        0
    } else {
        decimal_value(word.drop_last()) * 10 + (word.last() - 0x30) as nat
    }
}

/// The byte ranges of words, as the words themselves.
pub open spec fn ranges_view(line: Seq<u8>, ranges: Seq<(usize, usize)>) -> Seq<Seq<u8>> {
    Seq::new(ranges.len(), |i: int| line.subrange(ranges[i].0 as int, ranges[i].1 as int))
}

/// Whether a byte is a blank.
pub fn blank(byte: u8) -> (r: bool)
    ensures
        r == is_blank(byte),
{
    byte == 0x20 || byte == 0x09 || byte == 0x0A || byte == 0x0D
}

/// A word is as long as the blank-free bytes before it, plus what follows them.
proof fn lemma_word_len_step(line: Seq<u8>, start: int, end: int)
    requires
        0 <= start <= end < line.len(),
        !is_blank(line[end]),
        word_len(line.skip(start)) == (end - start) + word_len(line.skip(end)),
    ensures
        word_len(line.skip(start)) == (end + 1 - start) + word_len(line.skip(end + 1)),
{
    assert(line.skip(end).drop_first() =~= line.skip(end + 1));
}

/// Cuts `line` into its words, each given as the range of its bytes.
pub fn split_words(line: &[u8]) -> (ranges: Vec<(usize, usize)>)
    ensures
        ranges_view(line@, ranges@) == words(line@),
        forall|i: int|
            0 <= i < ranges@.len() ==> (#[trigger] ranges@[i]).0 < ranges@[i].1 <= line@.len(),
{
    let mut ranges: Vec<(usize, usize)> = Vec::new();
    let mut pos: usize = 0;
    assert(line@.skip(0) =~= line@);
    assert(ranges_view(line@, ranges@) + words(line@.skip(0)) =~= words(line@));
    while pos < line.len()
        invariant
            pos <= line@.len(),
            ranges_view(line@, ranges@) + words(line@.skip(pos as int)) == words(line@),
            forall|i: int|
                0 <= i < ranges@.len() ==> (#[trigger] ranges@[i]).0 < ranges@[i].1 <= line@.len(),
        decreases line@.len() - pos,
    {
        let ghost rest = line@.skip(pos as int);
        if blank(line[pos]) {
            assert(rest.drop_first() =~= line@.skip(pos + 1));
            pos += 1;
        } else {
            let start: usize = pos;
            let mut end: usize = pos + 1;
            assert(line@.skip(start as int).drop_first() =~= line@.skip(start + 1));
            while end < line.len() && !blank(line[end])
                invariant
                    start < end <= line@.len(),
                    word_len(line@.skip(start as int)) == (end - start) + word_len(
                        line@.skip(end as int),
                    ),
                decreases line@.len() - end,
            {
                proof {
                    lemma_word_len_step(line@, start as int, end as int);
                }
                end += 1;
            }
            assert(word_len(line@.skip(end as int)) == 0);
            let ghost before = ranges_view(line@, ranges@);
            ranges.push((start, end));
            proof {
                assert(rest.take((end - start) as int) =~= line@.subrange(start as int, end as int));
                assert(rest.skip((end - start) as int) =~= line@.skip(end as int));
                assert(ranges_view(line@, ranges@) =~= before.push(
                    line@.subrange(start as int, end as int),
                ));
                assert(before.push(rest.take((end - start) as int)) + words(
                    rest.skip((end - start) as int),
                ) =~= before + words(rest));
            }
            pos = end;
        }
    }
    assert(words(line@.skip(pos as int)) =~= Seq::<Seq<u8>>::empty());
    assert(ranges_view(line@, ranges@) + Seq::<Seq<u8>>::empty() =~= ranges_view(line@, ranges@));
    ranges
}

/// Whether the bytes of `line` from `start` to `end` are exactly `word`.
pub fn is_word(line: &[u8], start: usize, end: usize, word: &[u8]) -> (r: bool)
    requires
        start <= end <= line@.len(),
    ensures
        r == (line@.subrange(start as int, end as int) == word@),
{
    if end - start != word.len() {
        return false;
    }
    let mut i: usize = 0;
    while i < word.len()
        invariant
            start <= end <= line@.len(),
            end - start == word@.len(),
            i <= word@.len(),
            forall|k: int| 0 <= k < i ==> line@[start + k] == word@[k],
        decreases word@.len() - i,
    {
        if line[start + i] != word[i] {
            assert(line@.subrange(start as int, end as int)[i as int] != word@[i as int]);
            return false;
        }
        i += 1;
    }
    assert(line@.subrange(start as int, end as int) =~= word@);
    true
}

/// Appending digits never makes a decimal number smaller.
proof fn lemma_decimal_value_grows(word: Seq<u8>, n: int)
    requires
        0 <= n <= word.len(),
        forall|i: int| 0 <= i < word.len() ==> is_digit(#[trigger] word[i]),
    ensures
        decimal_value(word.take(n)) <= decimal_value(word),
    decreases word.len() - n,
{
    if n < word.len() {
        let longer = word.take(n + 1);
        assert(longer.drop_last() =~= word.take(n));
        assert(is_digit(word[n]));
        assert(longer.last() == word[n]);
        lemma_decimal_value_grows(word, n + 1);
    } else {
        assert(word.take(n) =~= word);
    }
}

/// Reads the bytes of `line` from `start` to `end` as a number in decimal digits that
/// fits in 32 bits.
pub fn read_u32(line: &[u8], start: usize, end: usize) -> (r: Option<u32>)
    requires
        start <= end <= line@.len(),
    ensures
        r == {
            let word = line@.subrange(start as int, end as int);
            if is_number(word) && decimal_value(word) <= u32::MAX {
                Some(decimal_value(word) as u32)
            } else {
                None
            }
        },
{
    let ghost word = line@.subrange(start as int, end as int);
    if start == end {
        return None;
    }
    let mut value: u64 = 0;
    let mut i: usize = start;
    assert(word.take(0) =~= Seq::<u8>::empty());
    while i < end
        invariant
            start <= i <= end <= line@.len(),
            word == line@.subrange(start as int, end as int),
            forall|k: int| 0 <= k < i - start ==> is_digit(#[trigger] word[k]),
            value == decimal_value(word.take(i - start)),
            value <= u32::MAX,
        decreases end - i,
    {
        let byte: u8 = line[i];
        assert(byte == word[i - start]);
        if byte < 0x30 || byte > 0x39 {
            assert(!is_digit(word[i - start]));
            return None;
        }
        let ghost longer = word.take(i - start + 1);
        assert(longer.drop_last() =~= word.take(i - start));
        assert(longer.last() == byte);
        let digit: u64 = (byte - 0x30) as u64;
        let next: u64 = value * 10 + digit;
        if next > 0xFFFF_FFFF {
            proof {
                if is_number(word) {
                    lemma_decimal_value_grows(word, i - start + 1);
                }
            }
            return None;
        }
        value = next;
        i += 1;
    }
    assert(word.take(end - start) =~= word);
    Some(value as u32)
}

/// Calls `String::from_utf8`. Trusted: that it gives a text exactly when the bytes are
/// valid UTF-8, and that the text is then the one that the bytes encode.
#[verifier::external_body]
fn text_from_utf8(bytes: Vec<u8>) -> (r: Option<String>)
    ensures
        match r {
            Some(text) => valid_utf8(bytes@) && text@ == decode_utf8(bytes@),
            None => !valid_utf8(bytes@),
        },
{
    String::from_utf8(bytes).ok()
}

/// Reads the bytes of `line` from `start` to `end` as a text of at most `max` bytes.
pub fn read_text(line: &[u8], start: usize, end: usize, max: usize) -> (r: Option<String>)
    requires
        start <= end <= line@.len(),
    ensures
        match r {
            Some(text) => end - start <= max && valid_utf8(line@.subrange(start as int, end as int))
                && text@ == decode_utf8(line@.subrange(start as int, end as int)),
            None => end - start > max || !valid_utf8(line@.subrange(start as int, end as int)),
        },
{
    if end - start > max {
        return None;
    }
    text_from_utf8(slice_to_vec(slice_subrange(line, start, end)))
}

} // verus!
