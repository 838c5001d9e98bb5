//! The fixed part of the layout: the eight-byte header and the table of
//! cumulative end offsets that follows it.
//!
//! ```text
//! offset 0      4 bytes   magic tag, ASCII "ofc" and a zero byte
//! offset 4      4 bytes   member count N, little-endian
//! offset 8      8*N bytes N cumulative end offsets, little-endian
//! offset 8+8N   the member bodies, back to back
//! ```

use crate::error::Error;
use crate::le::{
    le_bytes, le_value, lemma_le_bytes_len, lemma_le_bytes_of_value, lemma_le_limit_values,
    lemma_le_value_bound, lemma_le_value_of_bytes,
    push_u32_le, push_u64_le, u32_from_le, u64_from_le,
};
use vstd::prelude::*;

verus! {

/// The four bytes that open every container: ASCII "ofc" and a zero byte.
pub const MAGIC: [u8; 4] = [0x6f, 0x66, 0x63, 0x00];

/// The number of bytes in the header.
pub const HEADER_LEN: usize = 8;

/// The number of bytes in one entry of the offset table.
pub const ENTRY_LEN: usize = 8;

/// The magic tag as a byte string.
pub open spec fn magic() -> Seq<u8> {
    seq![0x6fu8, 0x66u8, 0x63u8, 0x00u8]
}

/// The header of a container with `count` members.
pub open spec fn header_bytes(count: nat) -> Seq<u8> {
    magic() + le_bytes(count, 4)
}

/// What the leading bytes of a file say about it: the member count, or why
/// no count can be had from them. Only the first eight bytes matter.
pub open spec fn parse_header(prefix: Seq<u8>) -> Result<u32, Error> {
    if prefix.len() < 4 {
        Err(Error::IoFailure)
    } else if prefix.subrange(0, 4) != magic() {
        Err(Error::InvalidFormat)
    } else if prefix.len() < 8 {
        Err(Error::IoFailure)
    } else {
        Ok(le_value(prefix.subrange(4, 8)) as u32)
    }
}

/// Writes the header of a container with `count` members.
pub fn encode_header(count: u32) -> (bytes: Vec<u8>)
    ensures
        bytes@ == header_bytes(count as nat),
{
    let mut bytes: Vec<u8> = Vec::new();
    bytes.push(MAGIC[0]);
    bytes.push(MAGIC[1]);
    bytes.push(MAGIC[2]);
    bytes.push(MAGIC[3]);
    assert(bytes@ =~= magic());
    push_u32_le(&mut bytes, count);
    bytes
}

/// Reads the member count from the leading bytes of a file.
///
/// Fails with `InvalidFormat` when the first four bytes are not the magic
/// tag, and with `IoFailure` when the bytes end before that can be told or
/// before the count is complete.
pub fn decode_header(prefix: &[u8]) -> (result: Result<u32, Error>)
    ensures
        result == parse_header(prefix@),
{
    if prefix.len() < 4 {
        return Err(Error::IoFailure);
    }
    let tagged = prefix[0] == MAGIC[0] && prefix[1] == MAGIC[1] && prefix[2] == MAGIC[2]
        && prefix[3] == MAGIC[3];
    proof {
        let tag = prefix@.subrange(0, 4);
        assert(tag[0] == prefix@[0] && tag[1] == prefix@[1] && tag[2] == prefix@[2] && tag[3]
            == prefix@[3]);
        if tagged {
            assert(tag =~= magic());
        }
    }
    if !tagged {
        return Err(Error::InvalidFormat);
    }
    if prefix.len() < 8 {
        return Err(Error::IoFailure);
    }
    Ok(u32_from_le(prefix, 4))
}


/// Whatever follows a written header, reading it gives the count back.
pub proof fn lemma_header_round_trip(count: u32, rest: Seq<u8>)
    ensures
        header_bytes(count as nat).len() == 8,
        parse_header(header_bytes(count as nat) + rest) == Ok::<u32, Error>(count),
{
    let file = header_bytes(count as nat) + rest;
    lemma_le_bytes_len(count as nat, 4);
    lemma_le_limit_values();
    lemma_le_value_of_bytes(count as nat, 4);
    assert(file.subrange(0, 4) =~= magic());
    assert(file.subrange(4, 8) =~= le_bytes(count as nat, 4));
}

/// A count has one header only: a file from which `count` is read opens
/// with exactly the bytes that `count` is written as.
pub proof fn lemma_header_canonical(prefix: Seq<u8>, count: u32)
    requires
        parse_header(prefix) == Ok::<u32, Error>(count),
    ensures
        prefix.take(8) == header_bytes(count as nat),
{
    let field = prefix.subrange(4, 8);
    lemma_le_value_bound(field);
    lemma_le_limit_values();
    lemma_le_bytes_of_value(field);
    assert(prefix.take(8) =~= prefix.subrange(0, 4) + field);
}

/// Machine offsets read as natural numbers.
pub open spec fn as_nats(offsets: Seq<u64>) -> Seq<nat> {
    Seq::new(offsets.len(), |i: int| offsets[i] as nat)
}

/// The offset table that holds `ends`: eight little-endian bytes for each
/// entry, in order.
pub open spec fn table_bytes(ends: Seq<nat>) -> Seq<u8>
    decreases ends.len(),
{
    if ends.len() == 0 {
        Seq::empty()
    } else {
        table_bytes(ends.drop_last()) + le_bytes(ends.last(), 8)
    }
}

/// The number that entry `index` of an offset table holds.
pub open spec fn entry_at(table: Seq<u8>, index: int) -> nat {
    le_value(table.subrange(8 * index, 8 * index + 8))
}

/// What a random-access read of entry `index` gives: the entry, or
/// `IoFailure` when the table ends before the entry does.
pub open spec fn parse_entry(table: Seq<u8>, index: u32) -> Result<u64, Error> {
    if table.len() < 8 * index + 8 {
        Err(Error::IoFailure)
    } else {
        Ok(entry_at(table, index as int) as u64)
    }
}

/// A table takes eight bytes for each entry.
pub proof fn lemma_table_bytes_len(ends: Seq<nat>)
    ensures
        table_bytes(ends).len() == 8 * ends.len(),
    decreases ends.len(),
{
    if ends.len() > 0 {
        lemma_table_bytes_len(ends.drop_last());
        lemma_le_bytes_len(ends.last(), 8);
    }
}

/// Entry `index` of a table occupies the bytes that encode it.
pub proof fn lemma_table_slot(ends: Seq<nat>, index: int)
    requires
        0 <= index < ends.len(),
    ensures
        table_bytes(ends).subrange(8 * index, 8 * index + 8) == le_bytes(ends[index], 8),
    decreases ends.len(),
{
    let shorter = ends.drop_last();
    lemma_table_bytes_len(shorter);
    lemma_table_bytes_len(ends);
    lemma_le_bytes_len(ends.last(), 8);
    if index == ends.len() - 1 {
        assert(table_bytes(ends).subrange(8 * index, 8 * index + 8) =~= le_bytes(ends[index], 8));
    } else {
        lemma_table_slot(shorter, index);
        assert(table_bytes(ends).subrange(8 * index, 8 * index + 8) =~= table_bytes(
            shorter,
        ).subrange(8 * index, 8 * index + 8));
    }
}

/// Reading entry `index` of an encoded table gives back the offset that was
/// written there, as long as it fits in 64 bits.
pub proof fn lemma_table_entry(ends: Seq<nat>, index: int)
    requires
        0 <= index < ends.len(),
        ends[index] <= u64::MAX,
    ensures
        entry_at(table_bytes(ends), index) == ends[index],
{
    lemma_table_slot(ends, index);
    lemma_le_limit_values();
    lemma_le_value_of_bytes(ends[index], 8);
}

/// An entry that lies within the table is a 64-bit number.
pub proof fn lemma_entry_bound(table: Seq<u8>, index: int)
    requires
        0 <= index,
        8 * index + 8 <= table.len(),
    ensures
        entry_at(table, index) <= u64::MAX,
{
    lemma_le_value_bound(table.subrange(8 * index, 8 * index + 8));
    lemma_le_limit_values();
}

/// Writes the offset table for `ends`.
pub fn encode_offset_table(ends: &[u64]) -> (bytes: Vec<u8>)
    ensures
        bytes@ == table_bytes(as_nats(ends@)),
{
    let mut bytes: Vec<u8> = Vec::new();
    let mut i: usize = 0;
    while i < ends.len()
        invariant
            i <= ends@.len(),
            bytes@ == table_bytes(as_nats(ends@.take(i as int))),
        decreases ends@.len() - i,
    {
        push_u64_le(&mut bytes, ends[i]);
        proof {
            let grown = as_nats(ends@.take(i + 1));
            assert(grown.drop_last() =~= as_nats(ends@.take(i as int)));
            assert(grown.last() == ends@[i as int] as nat);
        }
        i = i + 1;
    }
    assert(ends@.take(i as int) =~= ends@);
    bytes
}

/// Reads entry `index` of an offset table without touching the others.
///
/// Fails with `IoFailure` when the table ends before the entry does.
pub fn decode_single_entry(table: &[u8], index: u32) -> (result: Result<u64, Error>)
    ensures
        result == parse_entry(table@, index),
        result matches Ok(entry) ==> entry == entry_at(table@, index as int),
{
    let at: u64 = 8 * (index as u64);
    let len = table.len();
    if (len as u64) < at + 8 {
        return Err(Error::IoFailure);
    }
    Ok(u64_from_le(table, at as usize))
}

} // verus!
