//! Little-endian words and byte runs: the primitives of the index format.
//!
//! A reader is a byte slice that shrinks from the front as it is consumed; a
//! writer is a byte vector that grows at the back.

use vstd::prelude::*;
use vstd::slice::{slice_subrange, slice_to_vec};

verus! {

/// The four bytes of `x`, least significant first.
pub open spec fn le_bytes(x: u32) -> Seq<u8> {
    seq![
        (x % 256) as u8,
        (x / 256 % 256) as u8,
        (x / 65536 % 256) as u8,
        (x / 16777216) as u8,
    ]
}

/// The word whose little-endian bytes are the first four bytes of `b`.
pub open spec fn le_value(b: Seq<u8>) -> u32
    recommends
        b.len() >= 4,
{
    (b[0] as int + 256 * (b[1] as int) + 65536 * (b[2] as int) + 16777216 * (b[3] as int)) as u32
}

/// A length as the format stores it: reduced to 32 bits.
pub open spec fn len_word(n: nat) -> u32 {
    (n % 0x1_0000_0000) as u32
}

/// What reading one word from `input` gives: the word and the bytes after
/// it, or nothing when fewer than four bytes are left.
pub open spec fn spec_read_u32(input: Seq<u8>) -> Option<(u32, Seq<u8>)> {
    if input.len() < 4 {
        None
    } else {
        Some((le_value(input), input.skip(4)))
    }
}

/// What reading `n` bytes from `input` gives: the bytes and what follows
/// them, or nothing when fewer than `n` are left.
pub open spec fn spec_read_exact(input: Seq<u8>, n: nat) -> Option<(Seq<u8>, Seq<u8>)> {
    if input.len() < n {
        None
    } else {
        Some((input.take(n as int), input.skip(n as int)))
    }
}

/// Decoding inverts encoding, whatever follows the four bytes.
pub proof fn lemma_read_written_u32(x: u32, rest: Seq<u8>)
    ensures
        le_bytes(x).len() == 4,
        spec_read_u32(le_bytes(x) + rest) == Some((x, rest)),
{
    let b = le_bytes(x) + rest;
    assert(b[0] == le_bytes(x)[0]);
    assert(b[1] == le_bytes(x)[1]);
    assert(b[2] == le_bytes(x)[2]);
    assert(b[3] == le_bytes(x)[3]);
    assert(b.skip(4) =~= rest);
}

/// A run of bytes is read back as it was written, whatever follows it.
pub proof fn lemma_read_written_bytes(bytes: Seq<u8>, rest: Seq<u8>)
    ensures
        spec_read_exact(bytes + rest, bytes.len()) == Some((bytes, rest)),
{
    assert((bytes + rest).take(bytes.len() as int) =~= bytes);
    assert((bytes + rest).skip(bytes.len() as int) =~= rest);
}

/// Appends the little-endian bytes of `x` to `buffer`.
pub fn write_u32(buffer: &mut Vec<u8>, x: u32)
    ensures
        final(buffer)@ == old(buffer)@ + le_bytes(x),
{
    let b0: u8 = (x % 256) as u8;
    let b1: u8 = (x / 256 % 256) as u8;
    let b2: u8 = (x / 65536 % 256) as u8;
    let b3: u8 = (x / 16777216) as u8;
    buffer.push(b0);
    buffer.push(b1);
    buffer.push(b2);
    buffer.push(b3);
    assert(buffer@ =~= old(buffer)@ + le_bytes(x));
}

/// Appends a length to `buffer` as the format stores it.
pub fn write_len(buffer: &mut Vec<u8>, n: usize)
    ensures
        final(buffer)@ == old(buffer)@ + le_bytes(len_word(n as nat)),
{
    let word: u32 = (n as u64 % 0x1_0000_0000u64) as u32;
    write_u32(buffer, word);
}

/// Appends `bytes` to `buffer`.
pub fn write_all(buffer: &mut Vec<u8>, bytes: &[u8])
    ensures
        final(buffer)@ == old(buffer)@ + bytes@,
{
    let mut i: usize = 0;
    while i < bytes.len()
        invariant
            i <= bytes@.len(),
            buffer@ == old(buffer)@ + bytes@.take(i as int),
        decreases bytes@.len() - i,
    {
        buffer.push(bytes[i]);
        i += 1;
        assert(buffer@ =~= old(buffer)@ + bytes@.take(i as int));
    }
    assert(bytes@.take(i as int) =~= bytes@);
}

/// Takes one little-endian word from the front of `reader`. When fewer than
/// four bytes are left, nothing is consumed.
pub fn read_u32(reader: &mut &[u8]) -> (r: Option<u32>)
    ensures
        match spec_read_u32(old(reader)@) {
            Some((x, rest)) => r == Some(x) && final(reader)@ == rest,
            None => r is None && final(reader)@ == old(reader)@,
        },
{
    let input: &[u8] = *reader;
    if input.len() < 4 {
        return None;
    }
    let b0: u32 = input[0] as u32;
    let b1: u32 = input[1] as u32;
    let b2: u32 = input[2] as u32;
    let b3: u32 = input[3] as u32;
    let rest = slice_subrange(input, 4, input.len());
    assert(rest@ =~= input@.skip(4));
    *reader = rest;
    Some(b0 + 256 * b1 + 65536 * b2 + 16777216 * b3)
}

/// Takes `n` bytes from the front of `reader`. When fewer than `n` are left,
/// nothing is consumed.
pub fn read_exact(reader: &mut &[u8], n: usize) -> (r: Option<Vec<u8>>)
    ensures
        match spec_read_exact(old(reader)@, n as nat) {
            Some((bytes, rest)) => r is Some && r->0@ == bytes && final(reader)@ == rest,
            None => r is None && final(reader)@ == old(reader)@,
        },
{
    let input: &[u8] = *reader;
    if input.len() < n {
        return None;
    }
    let head = slice_to_vec(slice_subrange(input, 0, n));
    let rest = slice_subrange(input, n, input.len());
    assert(head@ =~= input@.take(n as int));
    assert(rest@ =~= input@.skip(n as int));
    *reader = rest;
    Some(head)
}

} // verus!
