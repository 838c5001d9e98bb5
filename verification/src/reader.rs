//! Reading one member by index: two adjacent table entries (one for the first
//! member) give its byte range, whatever the size of the container.

use crate::codec::{decode_header, decode_single_entry, entry_at, parse_header};
use crate::error::Error;
use vstd::prelude::*;
use vstd::slice::slice_subrange;

verus! {

/// The offset at which the bodies of a container with `count` members begin:
/// the length of the header and the offset table together.
pub open spec fn bodies_start(count: nat) -> nat {
    8 + 8 * count
}

/// The offset, counted from the start of the bodies, at which member `index`
/// begins: where its predecessor ends, and zero for the first member.
pub open spec fn start_of(table: Seq<u8>, index: int) -> nat {
    if index == 0 {
        0
    } else {
        entry_at(table, index - 1)
    }
}

/// The number of table bytes that bound member `index`: one entry for the
/// first member, two adjacent ones for any other.
pub open spec fn window_len(index: u32) -> nat {
    if index == 0 {
        8
    } else {
        16
    }
}

/// Where in the file the table entries that bound member `index` lie, as an
/// offset and a length: the entry of the member and, but for the first
/// member, the one before it. `IndexOutOfRange` when the container has no
/// such member.
pub open spec fn window_of(count: u32, index: u32) -> Result<(u64, usize), Error> {
    if index >= count {
        Err(Error::IndexOutOfRange { index, count })
    } else if index == 0 {
        Ok((8u64, window_len(index) as usize))
    } else {
        Ok(((8 + 8 * (index - 1)) as u64, window_len(index) as usize))
    }
}

/// What the bytes found in the window of member `index` say about it: the
/// file offset of its first byte and its length.
pub open spec fn located(count: u32, index: u32, window: Seq<u8>) -> Result<(u64, u64), Error> {
    let start = if index == 0 {
        0
    } else {
        entry_at(window, 0)
    };
    let end = if index == 0 {
        entry_at(window, 0)
    } else {
        entry_at(window, 1)
    };
    if index >= count {
        Err(Error::IndexOutOfRange { index, count })
    } else if window.len() < window_len(index) {
        Err(Error::IoFailure)
    } else if end < start {
        Err(Error::InvalidFormat)
    } else if bodies_start(count as nat) + end > u64::MAX {
        Err(Error::IoFailure)
    } else {
        Ok(((bodies_start(count as nat) + start) as u64, (end - start) as u64))
    }
}

/// What reading member `index` of `container` gives: its bytes, or the
/// reason why they cannot be had.
pub open spec fn member_at(container: Seq<u8>, index: u32) -> Result<Seq<u8>, Error> {
    match parse_header(container) {
        Err(e) => Err(e),
        Ok(count) => {
            let table = container.skip(8);
            let start = start_of(table, index as int);
            let end = entry_at(table, index as int);
            let base = bodies_start(count as nat);
            if index >= count {
                Err(Error::IndexOutOfRange { index, count })
            } else if table.len() < 8 * index + 8 {
                Err(Error::IoFailure)
            } else if end < start {
                Err(Error::InvalidFormat)
            } else if container.len() < base + end {
                Err(Error::IoFailure)
            } else {
                Ok(container.subrange((base + start) as int, (base + end) as int))
            }
        },
    }
}

/// The offset at which the bodies of a container with `count` members begin.
pub fn body_offset(count: u32) -> (offset: u64)
    ensures
        offset == bodies_start(count as nat),
{
    8 + 8 * (count as u64)
}

/// Tells which bytes of the file bound member `index`: the offset and the
/// length of the table entries to read.
///
/// Fails with `IndexOutOfRange` when `index` is not below `count`.
pub fn slot_window(count: u32, index: u32) -> (result: Result<(u64, usize), Error>)
    ensures
        result == window_of(count, index),
{
    if index >= count {
        Err(Error::IndexOutOfRange { index, count })
    } else if index == 0 {
        Ok((8, 8))
    } else {
        Ok((8 + 8 * ((index - 1) as u64), 16))
    }
}

/// Derives the byte range of member `index` from the bytes that were found
/// in its window: the file offset of its first byte and its length.
///
/// Fails with `IndexOutOfRange` when `index` is not below `count`, with
/// `IoFailure` when `window` is shorter than the window of the member or the
/// member would end beyond any file, and with `InvalidFormat` when the member
/// ends before it starts.
pub fn locate(count: u32, index: u32, window: &[u8]) -> (result: Result<(u64, u64), Error>)
    ensures
        result == located(count, index, window@),
{
    if index >= count {
        return Err(Error::IndexOutOfRange { index, count });
    }
    let last: u32 = if index == 0 {
        0
    } else {
        1
    };
    let end = match decode_single_entry(window, last) {
        Ok(end) => end,
        Err(e) => {
            return Err(e);
        },
    };
    let start = if index == 0 {
        0
    } else {
        match decode_single_entry(window, 0) {
            Ok(start) => start,
            Err(e) => {
                return Err(e);
            },
        }
    };
    if end < start {
        return Err(Error::InvalidFormat);
    }
    let base = body_offset(count);
    if end > u64::MAX - base {
        return Err(Error::IoFailure);
    }
    Ok((base + start, end - start))
}


/// Reads member `index` of a container held in memory.
///
/// Fails with `InvalidFormat` when the container does not open with the
/// magic tag or the member ends before it starts, with `IndexOutOfRange` when
/// the container has no member `index`, and with `IoFailure` when the
/// container ends before the header, the table entries of the member or its
/// body do.
pub fn read<'a>(container: &'a [u8], index: u32) -> (result: Result<&'a [u8], Error>)
    ensures
        match result {
            Ok(data) => member_at(container@, index) == Ok::<_, Error>(data@),
            Err(e) => member_at(container@, index) == Err::<Seq<u8>, Error>(e),
        },
{
    let count = match decode_header(container) {
        Ok(count) => count,
        Err(e) => {
            return Err(e);
        },
    };
    let (offset, want) = match slot_window(count, index) {
        Ok(window) => window,
        Err(e) => {
            return Err(e);
        },
    };
    let len = container.len();
    let ghost table = container@.skip(8);
    if (len as u64) < offset + want as u64 {
        return Err(Error::IoFailure);
    }
    let at = offset as usize;
    let window = slice_subrange(container, at, at + want);
    proof {
        if index == 0 {
            assert(window@.subrange(0, 8) =~= table.subrange(0, 8));
        } else {
            assert(window@.subrange(0, 8) =~= table.subrange(8 * (index - 1), 8 * (index - 1) + 8));
            assert(window@.subrange(8, 16) =~= table.subrange(8 * index, 8 * index + 8));
        }
    }
    let (first, length) = match locate(count, index, window) {
        Ok(range) => range,
        Err(e) => {
            return Err(e);
        },
    };
    if first > len as u64 || length > len as u64 - first {
        return Err(Error::IoFailure);
    }
    let from = first as usize;
    Ok(slice_subrange(container, from, from + length as usize))
}

} // verus!
