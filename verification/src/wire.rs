//! The byte layout of integers and text on the wire, as a mathematical model.
//!
//! An unsigned integer is written in variable length: a value up to 250 is one byte; a
//! larger one is a marker byte (251, 252 or 253) followed by the value in 2, 4 or 8
//! little-endian bytes, the shortest that holds it. A text is the byte length of its
//! UTF-8 form, written as such an integer, followed by those bytes.

use vstd::prelude::*;
use vstd::utf8::*;

verus! {

/// The `width` low bytes of `v`, least significant first.
pub open spec fn le_bytes(v: nat, width: nat) -> Seq<u8>
    decreases width,
{
    if width == 0 {
        Seq::empty()
    } else {
        seq![(v % 256) as u8] + le_bytes(v / 256, (width - 1) as nat)
    }
}

/// The number that little-endian `bytes` stand for.
pub open spec fn le_value(bytes: Seq<u8>) -> nat
    decreases bytes.len(),
{
    if bytes.len() == 0 {
        0
    } else {
        bytes[0] as nat + 256 * le_value(bytes.skip(1))
    }
}

/// The variable-length form of an unsigned integer below 2^64.
pub open spec fn varint(v: nat) -> Seq<u8> {
    if v <= 250 {
        seq![v as u8]
    } else if v < 0x1_0000 {
        seq![251u8] + le_bytes(v, 2)
    } else if v < 0x1_0000_0000 {
        seq![252u8] + le_bytes(v, 4)
    } else {
        seq![253u8] + le_bytes(v, 8)
    }
}

/// How many bytes `varint(v)` has.
pub open spec fn varint_len(v: nat) -> nat {
    if v <= 250 {
        1
    } else if v < 0x1_0000 {
        3
    } else if v < 0x1_0000_0000 {
        5
    } else {
        9
    }
}

/// The length-prefixed form of raw bytes.
pub open spec fn prefixed(bytes: Seq<u8>) -> Seq<u8> {
    varint(bytes.len()) + bytes
}

/// The length-prefixed UTF-8 form of a text.
pub open spec fn text_encoding(text: Seq<char>) -> Seq<u8> {
    prefixed(encode_utf8(text))
}

/// `le_bytes` has the width asked for.
pub proof fn lemma_le_bytes_len(v: nat, width: nat)
    ensures
        le_bytes(v, width).len() == width,
    decreases width,
{
    if width > 0 {
        lemma_le_bytes_len(v / 256, (width - 1) as nat);
    }
}

/// Reading back the little-endian bytes of a number gives its low `width` bytes' worth.
pub proof fn lemma_le_value_of_le_bytes(v: nat, width: nat)
    ensures
        le_value(le_bytes(v, width)) == v % pow256(width),
    decreases width,
{
    if width > 0 {
        let rest = le_bytes(v / 256, (width - 1) as nat);
        let all = le_bytes(v, width);
        lemma_le_bytes_len(v / 256, (width - 1) as nat);
        assert(all.skip(1) =~= rest);
        lemma_le_value_of_le_bytes(v / 256, (width - 1) as nat);
        let p = pow256((width - 1) as nat);
        lemma_pow256_positive((width - 1) as nat);
        assert(v % (256 * p) == v % 256 + 256 * ((v / 256) % p)) by (nonlinear_arith)
            requires
                p > 0,
        ;
    }
}

/// 256 to the power `n`.
pub open spec fn pow256(n: nat) -> nat
    decreases n,
{
    if n == 0 {
        1
    } else {
        256 * pow256((n - 1) as nat)
    }
}

pub proof fn lemma_pow256_positive(n: nat)
    ensures
        pow256(n) > 0,
    decreases n,
{
    if n > 0 {
        lemma_pow256_positive((n - 1) as nat);
    }
}

/// The powers of 256 that the marker bytes stand for.
pub proof fn lemma_pow256_values()
    ensures
        pow256(2) == 0x1_0000,
        pow256(4) == 0x1_0000_0000,
        pow256(8) == 0x1_0000_0000_0000_0000,
{
    reveal_with_fuel(pow256, 9);
}

/// The length of a variable-length integer is `varint_len`.
pub proof fn lemma_varint_len(v: nat)
    ensures
        varint(v).len() == varint_len(v),
        1 <= varint(v).len() <= 9,
{
    lemma_le_bytes_len(v, 2);
    lemma_le_bytes_len(v, 4);
    lemma_le_bytes_len(v, 8);
}

/// The number that a byte sequence starting with a variable-length integer stands for:
/// the inverse of `varint` on what it produces.
pub open spec fn varint_value(bytes: Seq<u8>) -> nat {
    if bytes.len() == 0 {
        0
    } else if bytes[0] <= 250 {
        bytes[0] as nat
    } else if bytes[0] == 251 {
        le_value(bytes.subrange(1, 3))
    } else if bytes[0] == 252 {
        le_value(bytes.subrange(1, 5))
    } else {
        le_value(bytes.subrange(1, 9))
    }
}

/// A variable-length integer can be read back from any byte sequence that starts with it.
pub proof fn lemma_varint_value(v: nat, bytes: Seq<u8>)
    requires
        v < 0x1_0000_0000_0000_0000,
        varint(v).is_prefix_of(bytes),
    ensures
        varint_value(bytes) == v,
{
    let enc = varint(v);
    lemma_varint_len(v);
    lemma_pow256_values();
    assert(bytes[0] == enc[0]);
    if v <= 250 {
    } else if v < 0x1_0000 {
        lemma_read_back_le(v, 2, 251, bytes);
    } else if v < 0x1_0000_0000 {
        lemma_read_back_le(v, 4, 252, bytes);
    } else {
        lemma_read_back_le(v, 8, 253, bytes);
    }
}

/// After a marker byte, the little-endian bytes of a number that fits in them give the
/// number back.
proof fn lemma_read_back_le(v: nat, width: nat, marker: u8, bytes: Seq<u8>)
    requires
        v < pow256(width),
        (seq![marker] + le_bytes(v, width)).is_prefix_of(bytes),
    ensures
        le_value(bytes.subrange(1, 1 + width as int)) == v,
{
    let enc = seq![marker] + le_bytes(v, width);
    lemma_le_bytes_len(v, width);
    assert(bytes.subrange(1, 1 + width as int) =~= le_bytes(v, width)) by {
        assert forall|i: int| 0 <= i < width implies bytes[1 + i] == le_bytes(v, width)[i] by {
            assert(bytes[1 + i] == enc[1 + i]);
        }
    }
    lemma_le_value_of_le_bytes(v, width);
    lemma_pow256_positive(width);
    assert(v % pow256(width) == v) by (nonlinear_arith)
        requires
            v < pow256(width),
            pow256(width) > 0,
    ;
}

/// A byte sequence that begins with `a + b` begins with `a`, and what follows `a` in it
/// begins with `b`.
pub proof fn lemma_split_prefix(a: Seq<u8>, b: Seq<u8>, bytes: Seq<u8>)
    requires
        (a + b).is_prefix_of(bytes),
    ensures
        a.is_prefix_of(bytes),
        b.is_prefix_of(bytes.skip(a.len() as int)),
{
    let ab = a + b;
    assert(a =~= bytes.subrange(0, a.len() as int)) by {
        assert forall|i: int| 0 <= i < a.len() implies a[i] == bytes[i] by {
            assert(ab[i] == bytes[i]);
        }
    }
    assert(b =~= bytes.skip(a.len() as int).subrange(0, b.len() as int)) by {
        assert forall|i: int| 0 <= i < b.len() implies b[i] == bytes[a.len() + i] by {
            assert(ab[a.len() + i] == bytes[a.len() + i]);
        }
    }
}

/// No byte sequence begins with the length-prefixed forms of two different byte strings.
pub proof fn lemma_prefixed_unique(x: Seq<u8>, y: Seq<u8>, bytes: Seq<u8>)
    requires
        x.len() < 0x1_0000_0000_0000_0000,
        y.len() < 0x1_0000_0000_0000_0000,
        prefixed(x).is_prefix_of(bytes),
        prefixed(y).is_prefix_of(bytes),
    ensures
        x == y,
{
    lemma_split_prefix(varint(x.len()), x, bytes);
    lemma_split_prefix(varint(y.len()), y, bytes);
    lemma_varint_value(x.len(), bytes);
    lemma_varint_value(y.len(), bytes);
    assert(x.len() == y.len());
    let tail = bytes.skip(varint(x.len()).len() as int);
    assert(x =~= tail.subrange(0, x.len() as int));
    assert(y =~= tail.subrange(0, x.len() as int));
}

} // verus!
