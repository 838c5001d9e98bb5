//! Listing the members of a container: one pass over the offset table gives
//! the start and the length of each; the bodies are never touched.

use crate::codec::{decode_header, entry_at, parse_header};
use crate::error::Error;
use crate::le::u64_from_le;
use crate::reader::start_of;
use vstd::prelude::*;
use vstd::slice::slice_subrange;

verus! {

/// Where one member lies among the bodies.
#[derive(Clone, Copy, Debug, PartialEq, Eq, Structural)]
pub struct MemberInfo {
    /// The offset of the member's first byte, counted from the start of the
    /// bodies.
    pub start: u64,
    /// The length of the member in bytes.
    pub len: u64,
}

/// Member `index` of the table does not end before it starts.
pub open spec fn ends_in_order(table: Seq<u8>, index: int) -> bool {
    start_of(table, index) <= entry_at(table, index)
}

/// No member among the first `count` of the table ends before it starts.
pub open spec fn is_monotonic(table: Seq<u8>, count: nat) -> bool {
    forall|i: int| 0 <= i < count ==> #[trigger] ends_in_order(table, i)
}

/// What member `index` of the table is listed as.
pub open spec fn info_at(table: Seq<u8>, index: int) -> MemberInfo {
    MemberInfo {
        start: start_of(table, index) as u64,
        len: (entry_at(table, index) - start_of(table, index)) as u64,
    }
}

/// What listing the first `count` members of an offset table gives: the
/// start and length of each in index order, or the reason why they cannot be
/// had. Bytes of `table` behind entry `count - 1` do not matter.
pub open spec fn listed(count: u32, table: Seq<u8>) -> Result<Seq<MemberInfo>, Error> {
    if table.len() < 8 * count {
        Err(Error::IoFailure)
    } else if !is_monotonic(table, count as nat) {
        Err(Error::InvalidFormat)
    } else {
        Ok(Seq::new(count as nat, |i: int| info_at(table, i)))
    }
}

/// What listing the members of `container` gives.
pub open spec fn summary(container: Seq<u8>) -> Result<Seq<MemberInfo>, Error> {
    match parse_header(container) {
        Err(e) => Err(e),
        Ok(count) => listed(count, container.skip(8)),
    }
}

/// The length of the offset table of a container with `count` members.
pub fn table_len(count: u32) -> (len: u64)
    ensures
        len == 8 * count,
{
    8 * (count as u64)
}

/// Lists the first `count` members of an offset table.
///
/// Fails with `IoFailure` when the table holds fewer than `count` entries,
/// and otherwise with `InvalidFormat` when one of them ends before it starts.
pub fn ranges(count: u32, table: &[u8]) -> (result: Result<Vec<MemberInfo>, Error>)
    ensures
        match result {
            Ok(members) => listed(count, table@) == Ok::<_, Error>(members@),
            Err(e) => listed(count, table@) == Err::<Seq<MemberInfo>, Error>(e),
        },
{
    let total = table.len();
    if (total as u64) < table_len(count) {
        return Err(Error::IoFailure);
    }
    let mut members: Vec<MemberInfo> = Vec::new();
    let mut start: u64 = 0;
    let mut i: u32 = 0;
    while i < count
        invariant
            i <= count,
            8 * count <= total == table@.len(),
            members@.len() == i,
            start == start_of(table@, i as int),
            is_monotonic(table@, i as nat),
            forall|j: int| 0 <= j < i ==> #[trigger] members@[j] == info_at(table@, j),
        decreases count - i,
    {
        let end = u64_from_le(table, 8 * (i as usize));
        if end < start {
            assert(!ends_in_order(table@, i as int));
            return Err(Error::InvalidFormat);
        }
        assert(ends_in_order(table@, i as int));
        members.push(MemberInfo { start, len: end - start });
        start = end;
        i = i + 1;
    }
    proof {
        assert(members@ =~= Seq::new(count as nat, |i: int| info_at(table@, i)));
    }
    Ok(members)
}

/// Lists the members of a container held in memory.
///
/// Fails as reading the header does, with `IoFailure` when the container
/// ends before its offset table does, and with `InvalidFormat` when a member
/// ends before it starts.
pub fn info(container: &[u8]) -> (result: Result<Vec<MemberInfo>, Error>)
    ensures
        match result {
            Ok(members) => summary(container@) == Ok::<_, Error>(members@),
            Err(e) => summary(container@) == Err::<Seq<MemberInfo>, Error>(e),
        },
{
    let count = match decode_header(container) {
        Ok(count) => count,
        Err(e) => {
            return Err(e);
        },
    };
    let table = slice_subrange(container, 8, container.len());
    ranges(count, table)
}

/// What separates the index from the start offset in a printed line:
/// ASCII " offset=".
pub const OFFSET_LABEL: [u8; 8] = [0x20, 0x6f, 0x66, 0x66, 0x73, 0x65, 0x74, 0x3d];

/// What separates the start offset from the length in a printed line:
/// ASCII ", len=".
pub const LEN_LABEL: [u8; 6] = [0x2c, 0x20, 0x6c, 0x65, 0x6e, 0x3d];

/// The decimal digits of `n` in ASCII, without leading zeros.
pub open spec fn decimal(n: nat) -> Seq<u8>
    decreases n,
{
    if n < 10 {
        seq![(0x30 + n) as u8]
    } else {
        decimal(n / 10).push((0x30 + n % 10) as u8)
    }
}

/// The line that reports member `index`: the index, " offset=", the start
/// offset, ", len=" and the length, the numbers in decimal.
pub open spec fn line_of(index: nat, member: MemberInfo) -> Seq<u8> {
    decimal(index) + OFFSET_LABEL@ + decimal(member.start as nat) + LEN_LABEL@ + decimal(
        member.len as nat,
    )
}

/// Appends the decimal digits of `n` to `out`.
fn push_decimal(out: &mut Vec<u8>, n: u64)
    ensures
        final(out)@ == old(out)@ + decimal(n as nat),
    decreases n,
{
    if n >= 10 {
        push_decimal(out, n / 10);
    }
    out.push(0x30 + (n % 10) as u8);
    proof {
        if n >= 10 {
            assert(out@ =~= old(out)@ + decimal((n / 10) as nat).push((0x30 + n % 10) as u8));
        } else {
            assert(out@ =~= old(out)@ + seq![(0x30 + n) as u8]);
        }
    }
}

/// Writes the line that reports member `index`, without a line break.
pub fn info_line(index: u32, member: &MemberInfo) -> (line: Vec<u8>)
    ensures
        line@ == line_of(index as nat, *member),
{
    let mut line: Vec<u8> = Vec::new();
    push_decimal(&mut line, index as u64);
    line.extend_from_slice(OFFSET_LABEL.as_slice());
    assert(line@ =~= decimal(index as nat) + OFFSET_LABEL@);
    push_decimal(&mut line, member.start);
    let ghost before = line@;
    line.extend_from_slice(LEN_LABEL.as_slice());
    assert(line@ =~= before + LEN_LABEL@);
    push_decimal(&mut line, member.len);
    line
}

} // verus!
