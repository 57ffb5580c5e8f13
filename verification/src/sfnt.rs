//! Big-endian reading and writing, and the sfnt table checksum.
use vstd::prelude::*;

verus! {

/// The byte at `at`, or zero past the end: a table is checksummed as if
/// zero-padded to a four-byte boundary.
pub open spec fn byte_or_zero(b: Seq<u8>, at: int) -> int {
    if 0 <= at < b.len() {
        b[at] as int
    } else {
        0
    }
}

/// The big-endian unsigned 16-bit value at `at`.
pub open spec fn spec_be16(b: Seq<u8>, at: int) -> int {
    b[at] * 256 + b[at + 1]
}

/// The big-endian unsigned 32-bit value at `at`.
pub open spec fn spec_be32(b: Seq<u8>, at: int) -> int {
    b[at] * 16777216 + b[at + 1] * 65536 + b[at + 2] * 256 + b[at + 3]
}

/// The two bytes of `v`, most significant first.
pub open spec fn u16_bytes(v: int) -> Seq<u8> {
    seq![((v / 256) % 256) as u8, (v % 256) as u8]
}

/// The four bytes of `v`, most significant first.
pub open spec fn u32_bytes(v: int) -> Seq<u8> {
    seq![
        ((v / 16777216) % 256) as u8,
        ((v / 65536) % 256) as u8,
        ((v / 256) % 256) as u8,
        (v % 256) as u8,
    ]
}

/// The zero-padded big-endian word at `at`.
pub open spec fn padded_word(t: Seq<u8>, at: int) -> int {
    byte_or_zero(t, at) * 16777216 + byte_or_zero(t, at + 1) * 65536 + byte_or_zero(t, at + 2)
        * 256 + byte_or_zero(t, at + 3)
}

/// The sum of the first `n` padded words, without wrapping.
pub open spec fn word_sum(t: Seq<u8>, n: nat) -> int
    decreases n,
{
    if n == 0 {
        0
    } else {
        word_sum(t, (n - 1) as nat) + padded_word(t, 4 * (n - 1))
    }
}

/// The sfnt table checksum: the big-endian u32 sum of the table, zero-padded to
/// a four-byte boundary, modulo 2^32.
pub open spec fn spec_checksum(t: Seq<u8>) -> u32 {
    (word_sum(t, ((t.len() + 3) / 4) as nat) % 4294967296) as u32
}

pub fn be16(b: &[u8], at: usize) -> (r: u16)
    requires
        at + 2 <= b@.len(),
    ensures
        r == spec_be16(b@, at as int),
{
    (b[at] as u16) * 256 + (b[at + 1] as u16)
}

pub fn be32(b: &[u8], at: usize) -> (r: u32)
    requires
        at + 4 <= b@.len(),
    ensures
        r == spec_be32(b@, at as int),
{
    (b[at] as u32) * 16777216 + (b[at + 1] as u32) * 65536 + (b[at + 2] as u32) * 256 + (
    b[at + 3] as u32)
}

/// Append `v` as two big-endian bytes.
pub fn push_u16(out: &mut Vec<u8>, v: u16)
    ensures
        final(out)@ == old(out)@ + u16_bytes(v as int),
{
    out.push((v / 256) as u8);
    out.push((v % 256) as u8);
}

/// Append `v` as four big-endian bytes.
pub fn push_u32(out: &mut Vec<u8>, v: u32)
    ensures
        final(out)@ == old(out)@ + u32_bytes(v as int),
{
    out.push((v / 16777216) as u8);
    out.push(((v / 65536) % 256) as u8);
    out.push(((v / 256) % 256) as u8);
    out.push((v % 256) as u8);
}

/// The sfnt table checksum.
pub fn checksum(table: &[u8]) -> (sum: u32)
    ensures
        sum == spec_checksum(table@),
{
    let len = table.len();
    let words: usize = len / 4 + if len % 4 != 0 { 1 } else { 0 };
    assert(words == (len + 3) / 4);
    let mut sum: u32 = 0;
    let mut k: usize = 0;
    while k < words
        invariant
            words == (table@.len() + 3) / 4,
            len == table@.len(),
            k <= words,
            sum == word_sum(table@, k as nat) % 4294967296,
        decreases words - k,
    {
        let at = 4 * k;
        let b0: u32 = table[at] as u32;
        let b1: u32 = if len - at > 1 { table[at + 1] as u32 } else { 0 };
        let b2: u32 = if len - at > 2 { table[at + 2] as u32 } else { 0 };
        let b3: u32 = if len - at > 3 { table[at + 3] as u32 } else { 0 };
        let word: u32 = b0 * 16777216 + b1 * 65536 + b2 * 256 + b3;
        assert(word == padded_word(table@, at as int));
        sum = sum.wrapping_add(word);
        k = k + 1;
    }
    sum
}

} // verus!
