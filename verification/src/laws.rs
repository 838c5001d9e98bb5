//! What building and consuming a container have to do with each other.
//!
//! Each function of this crate says what it does by itself; the theorems
//! here relate them: what was packed can be read back, a built table never
//! runs backwards, and files that are not containers are told apart from
//! those that are.

use crate::builder::{
    concat, container_of, end_offsets, front_matter, in_order, lemma_concat_len,
    lemma_total_in_layout_order, lemma_total_monotonic, lemma_total_step, lengths, packed,
    planned, total,
};
use crate::codec::{
    entry_at, header_bytes, lemma_entry_bound, lemma_header_round_trip, lemma_table_bytes_len,
    lemma_table_entry, magic, parse_header, table_bytes,
};
use crate::error::Error;
use crate::inspector::{ends_in_order, info_at, is_monotonic, listed, summary, MemberInfo};
use crate::order::{
    lemma_lex_asymmetric, lemma_lex_irreflexive, lemma_sorted_order_exists, lex_less, precedes,
    sorted_order,
};
use crate::reader::{bodies_start, located, member_at, start_of, window_of};
use vstd::prelude::*;

verus! {

/// Member `index` occupies, among bodies put back to back, the bytes from
/// the total length of its predecessors up to the total that includes it.
pub proof fn lemma_concat_member(bodies: Seq<Seq<u8>>, index: int)
    requires
        0 <= index < bodies.len(),
    ensures
        total(lengths(bodies).take(index + 1)) == total(lengths(bodies).take(index))
            + bodies[index].len(),
        total(lengths(bodies).take(index + 1)) <= concat(bodies).len(),
        concat(bodies).subrange(
            total(lengths(bodies).take(index)) as int,
            total(lengths(bodies).take(index + 1)) as int,
        ) == bodies[index],
    decreases bodies.len(),
{
    let sizes = lengths(bodies);
    let shorter = bodies.drop_last();
    let last = bodies.len() - 1;
    lemma_total_step(sizes, index);
    lemma_concat_len(bodies);
    lemma_concat_len(shorter);
    lemma_total_monotonic(sizes, index + 1, bodies.len() as int);
    assert(sizes.take(bodies.len() as int) =~= sizes);
    assert(lengths(shorter) =~= sizes.take(last));
    if index == last {
        assert(concat(bodies).subrange(
            total(sizes.take(index)) as int,
            total(sizes.take(index + 1)) as int,
        ) =~= bodies[index]);
    } else {
        lemma_concat_member(shorter, index);
        assert(lengths(shorter).take(index) =~= sizes.take(index));
        assert(lengths(shorter).take(index + 1) =~= sizes.take(index + 1));
        assert(concat(bodies).subrange(
            total(sizes.take(index)) as int,
            total(sizes.take(index + 1)) as int,
        ) =~= concat(shorter).subrange(
            total(sizes.take(index)) as int,
            total(sizes.take(index + 1)) as int,
        ));
    }
}

/// The anatomy of a file that opens with the header and offset table for
/// members of the given sizes: what its header says, what each table entry
/// holds, and where the rest begins.
pub proof fn lemma_front_matter_anatomy(sizes: Seq<nat>, rest: Seq<u8>)
    requires
        sizes.len() <= u32::MAX,
        total(sizes) <= u64::MAX,
    ensures
        front_matter(sizes).len() == bodies_start(sizes.len()),
        parse_header(front_matter(sizes) + rest) == Ok::<u32, Error>(sizes.len() as u32),
        forall|i: int|
            0 <= i < sizes.len() ==> #[trigger] entry_at((front_matter(sizes) + rest).skip(8), i)
                == total(sizes.take(i + 1)),
        sizes.len() > 0 ==> entry_at((front_matter(sizes) + rest).skip(8), sizes.len() - 1)
            == total(sizes),
        (front_matter(sizes) + rest).skip(bodies_start(sizes.len()) as int) == rest,
{
    let n = sizes.len();
    let ends = end_offsets(sizes);
    let file = front_matter(sizes) + rest;
    lemma_table_bytes_len(ends);
    lemma_header_round_trip(n as u32, table_bytes(ends) + rest);
    assert(file =~= header_bytes(n) + (table_bytes(ends) + rest));
    assert(file.skip(bodies_start(n) as int) =~= rest);
    assert(sizes.take(n as int) =~= sizes);
    assert forall|i: int| 0 <= i < n implies #[trigger] entry_at(file.skip(8), i) == total(
        sizes.take(i + 1),
    ) by {
        lemma_total_monotonic(sizes, i + 1, n as int);
        lemma_table_entry(ends, i);
        assert(file.skip(8).subrange(8 * i, 8 * i + 8) =~= table_bytes(ends).subrange(
            8 * i,
            8 * i + 8,
        ));
    }
    if n > 0 {
        assert(entry_at(file.skip(8), n - 1) == total(sizes.take(n - 1 + 1)));
    }
}

/// Reading member `index` of a built container gives back the body that was
/// put at position `index`.
pub proof fn lemma_container_member(bodies: Seq<Seq<u8>>, index: int)
    requires
        bodies.len() <= u32::MAX,
        total(lengths(bodies)) <= u64::MAX,
        0 <= index < bodies.len(),
    ensures
        member_at(container_of(bodies), index as u32) == Ok::<Seq<u8>, Error>(bodies[index]),
{
    let n = bodies.len();
    let sizes = lengths(bodies);
    let c = container_of(bodies);
    let table = c.skip(8);
    let base = bodies_start(n);
    lemma_front_matter_anatomy(sizes, concat(bodies));
    lemma_concat_member(bodies, index);
    lemma_concat_len(bodies);
    assert(entry_at(table, index) == total(sizes.take(index + 1)));
    if index > 0 {
        assert(entry_at(table, index - 1) == total(sizes.take(index)));
    } else {
        assert(sizes.take(0) =~= Seq::<nat>::empty());
    }
    let start = start_of(table, index);
    let end = entry_at(table, index);
    assert(c.subrange((base + start) as int, (base + end) as int) =~= c.skip(base as int).subrange(
        start as int,
        end as int,
    ));
}

/// Packing and then reading gives every member back: position `index` of
/// the container holds, unchanged, the content of the member that is at
/// position `index` when the members are put in name order.
pub proof fn law_round_trip(names: Seq<Seq<u8>>, bodies: Seq<Seq<u8>>, index: int)
    requires
        names.len() == bodies.len(),
        packed(names, bodies) is Ok,
        0 <= index < names.len(),
    ensures
        0 <= sorted_order(names)[index] < names.len(),
        member_at(packed(names, bodies)->Ok_0, index as u32) == Ok::<Seq<u8>, Error>(
            bodies[sorted_order(names)[index]],
        ),
{
    lemma_sorted_order_exists(names);
    let laid = in_order(bodies, sorted_order(names));
    lemma_total_in_layout_order(names, lengths(bodies));
    assert(lengths(laid) =~= in_order(lengths(bodies), sorted_order(names)));
    lemma_container_member(laid, index);
}

/// Writing what `planned` gives and then the bodies in its order makes the
/// container that `packed` gives: a container can be written in one forward
/// pass from names and sizes alone.
pub proof fn law_plan_then_bodies(names: Seq<Seq<u8>>, bodies: Seq<Seq<u8>>)
    requires
        names.len() == bodies.len(),
        planned(names, lengths(bodies)) is Ok,
    ensures
        planned(names, lengths(bodies))->Ok_0.0 == sorted_order(names),
        planned(names, lengths(bodies))->Ok_0.1 + concat(in_order(bodies, sorted_order(names)))
            == container_of(in_order(bodies, sorted_order(names))),
        packed(names, bodies) is Ok ==> packed(names, bodies)->Ok_0 == planned(
            names,
            lengths(bodies),
        )->Ok_0.1 + concat(in_order(bodies, sorted_order(names))),
{
    lemma_sorted_order_exists(names);
    let laid = in_order(bodies, sorted_order(names));
    assert(lengths(laid) =~= in_order(lengths(bodies), sorted_order(names)));
}

/// The members lie in the container in the byte-wise lexicographic order of
/// their names: no member's name comes before the name of a member at an
/// earlier position, and where the names differ the earlier one comes first.
pub proof fn law_name_order(names: Seq<Seq<u8>>, earlier: int, later: int)
    requires
        0 <= earlier < later < names.len(),
    ensures
        !lex_less(names[sorted_order(names)[later]], names[sorted_order(names)[earlier]]),
        names[sorted_order(names)[earlier]] != names[sorted_order(names)[later]] ==> lex_less(
            names[sorted_order(names)[earlier]],
            names[sorted_order(names)[later]],
        ),
{
    lemma_sorted_order_exists(names);
    let order = sorted_order(names);
    assert(precedes(names, order[earlier], order[later]));
    lemma_lex_asymmetric(names[order[earlier]], names[order[later]]);
    lemma_lex_irreflexive(names[order[earlier]]);
}

/// The first member needs no entry before its own: its window is the first
/// table entry alone, and its bytes are the bodies from their start up to the
/// offset in that entry.
pub proof fn law_first_member(container: Seq<u8>)
    requires
        parse_header(container) is Ok,
        parse_header(container)->Ok_0 >= 1,
        container.len() >= bodies_start(parse_header(container)->Ok_0 as nat) + entry_at(
            container.skip(8),
            0,
        ),
    ensures
        window_of(parse_header(container)->Ok_0, 0) == Ok::<(u64, usize), Error>((8u64, 8usize)),
        member_at(container, 0) == Ok::<Seq<u8>, Error>(
            container.skip(bodies_start(parse_header(container)->Ok_0 as nat) as int).take(
                entry_at(container.skip(8), 0) as int,
            ),
        ),
{
    let count = parse_header(container)->Ok_0;
    let base = bodies_start(count as nat);
    let end = entry_at(container.skip(8), 0);
    assert(container.subrange(base as int, (base + end) as int) =~= container.skip(
        base as int,
    ).take(end as int));
}

/// The bytes of `container` that lie in the window of `len` bytes at
/// `offset`, as far as the container reaches.
pub open spec fn window_bytes(container: Seq<u8>, offset: u64, len: usize) -> Seq<u8> {
    let from = if offset <= container.len() {
        offset as int
    } else {
        container.len() as int
    };
    let to = if offset + len <= container.len() {
        offset + len
    } else {
        container.len() as int
    };
    container.subrange(from, to)
}

/// Reading a member takes the header, the window of its table entries and
/// its own bytes, whatever the size of the container: what `located` derives
/// from the window is the byte range that `member_at` gives. This holds of
/// every container that file offsets of 64 bits can address.
pub proof fn law_read_by_window(container: Seq<u8>, index: u32)
    requires
        parse_header(container) is Ok,
        container.len() <= u64::MAX,
    ensures
        ({
            let count = parse_header(container)->Ok_0;
            match window_of(count, index) {
                Err(e) => member_at(container, index) == Err::<Seq<u8>, Error>(e),
                Ok((offset, len)) => match located(
                    count,
                    index,
                    window_bytes(container, offset, len),
                ) {
                    Err(e) => member_at(container, index) == Err::<Seq<u8>, Error>(e),
                    Ok((first, length)) => member_at(container, index) == if container.len()
                        < first + length {
                        Err::<Seq<u8>, Error>(Error::IoFailure)
                    } else {
                        Ok::<Seq<u8>, Error>(
                            container.subrange(first as int, first + length),
                        )
                    },
                },
            }
        }),
{
    let count = parse_header(container)->Ok_0;
    let table = container.skip(8);
    if index < count {
        let (offset, len) = window_of(count, index)->Ok_0;
        let window = window_bytes(container, offset, len);
        assert(offset + len == 8 + 8 * index + 8);
        if container.len() >= offset + len {
            assert(window.len() == len);
            if index == 0 {
                assert(window.subrange(0, 8) =~= table.subrange(0, 8));
                assert(entry_at(window, 0) == entry_at(table, 0));
                lemma_entry_bound(window, 0);
            } else {
                assert(window.subrange(0, 8) =~= table.subrange(
                    8 * (index - 1),
                    8 * (index - 1) + 8,
                ));
                assert(window.subrange(8, 16) =~= table.subrange(8 * index, 8 * index + 8));
                assert(entry_at(window, 0) == entry_at(table, index - 1));
                assert(entry_at(window, 1) == entry_at(table, index as int));
                lemma_entry_bound(window, 0);
                lemma_entry_bound(window, 1);
            }
        }
    }
}

/// An index that is not below the member count is refused with
/// `IndexOutOfRange`, whatever else the container holds, and before any
/// table entry is looked for.
pub proof fn law_out_of_range(container: Seq<u8>, index: u32)
    requires
        parse_header(container) is Ok,
        index >= parse_header(container)->Ok_0,
    ensures
        member_at(container, index) == Err::<Seq<u8>, Error>(
            Error::IndexOutOfRange { index, count: parse_header(container)->Ok_0 },
        ),
        window_of(parse_header(container)->Ok_0, index) == Err::<(u64, usize), Error>(
            Error::IndexOutOfRange { index, count: parse_header(container)->Ok_0 },
        ),
{
}

/// No members make a container too: it is the eight bytes of the header,
/// lists nothing, and refuses every index.
pub proof fn law_empty_container(index: u32)
    ensures
        packed(Seq::empty(), Seq::empty()) == Ok::<Seq<u8>, Error>(header_bytes(0)),
        header_bytes(0).len() == 8,
        summary(header_bytes(0)) == Ok::<Seq<MemberInfo>, Error>(Seq::empty()),
        member_at(header_bytes(0), index) == Err::<Seq<u8>, Error>(
            Error::IndexOutOfRange { index, count: 0 },
        ),
{
    let none = Seq::<Seq<u8>>::empty();
    lemma_sorted_order_exists(none);
    assert(in_order(none, sorted_order(none)) =~= none);
    assert(lengths(none) =~= Seq::<nat>::empty());
    assert(end_offsets(Seq::<nat>::empty()) =~= Seq::<nat>::empty());
    assert(container_of(none) =~= header_bytes(0));
    lemma_header_round_trip(0, Seq::empty());
    assert(header_bytes(0) + Seq::<u8>::empty() =~= header_bytes(0));
    assert(summary(header_bytes(0))->Ok_0 =~= Seq::<MemberInfo>::empty());
}

/// A built table never runs backwards. In a file that opens with the header
/// and offset table for members of the given sizes, every entry is at least
/// its predecessor, and the members are listed with exactly their sizes, each
/// starting where the sizes before it add up to.
pub proof fn law_monotonic(sizes: Seq<nat>, rest: Seq<u8>)
    requires
        sizes.len() <= u32::MAX,
        total(sizes) <= u64::MAX,
    ensures
        forall|i: int|
            0 < i < sizes.len() ==> entry_at((front_matter(sizes) + rest).skip(8), i - 1)
                <= #[trigger] entry_at((front_matter(sizes) + rest).skip(8), i),
        summary(front_matter(sizes) + rest) is Ok,
        summary(front_matter(sizes) + rest)->Ok_0.len() == sizes.len(),
        forall|i: int|
            0 <= i < sizes.len() ==> (#[trigger] summary(front_matter(sizes) + rest)->Ok_0[i]).len
                == sizes[i],
        forall|i: int|
            0 <= i < sizes.len() ==> (#[trigger] summary(
                front_matter(sizes) + rest,
            )->Ok_0[i]).start == total(sizes.take(i)),
{
    let n = sizes.len();
    let file = front_matter(sizes) + rest;
    let table = file.skip(8);
    lemma_front_matter_anatomy(sizes, rest);
    assert(sizes.take(0) =~= Seq::<nat>::empty());
    assert(sizes.take(n as int) =~= sizes);
    assert forall|i: int| 0 <= i < n implies start_of(table, i) == total(sizes.take(i))
        && entry_at(table, i) == start_of(table, i) + sizes[i] && entry_at(table, i)
        <= u64::MAX by {
        lemma_total_step(sizes, i);
        lemma_total_monotonic(sizes, i + 1, n as int);
        assert(entry_at(table, i) == total(sizes.take(i + 1)));
        if i > 0 {
            assert(entry_at(table, i - 1) == total(sizes.take(i)));
        }
    }
    assert forall|i: int| 0 <= i < n implies #[trigger] ends_in_order(table, i) by {
        assert(entry_at(table, i) == start_of(table, i) + sizes[i]);
    }
    assert(listed(n as u32, table) is Ok);
    let members = summary(file)->Ok_0;
    assert forall|i: int| 0 <= i < n implies (#[trigger] members[i]).len == sizes[i]
        && members[i].start == total(sizes.take(i)) by {
        assert(members[i] == info_at(table, i));
        assert(entry_at(table, i) == start_of(table, i) + sizes[i]);
    }
    assert forall|i: int| 0 < i < n implies entry_at(table, i - 1) <= #[trigger] entry_at(
        table,
        i,
    ) by {
        assert(entry_at(table, i) == start_of(table, i) + sizes[i]);
    }
}

/// Listing looks at the offset table only: byte strings that share their
/// first `8 * count` bytes are listed alike, whatever follows.
pub proof fn law_listing_reads_table_only(count: u32, table: Seq<u8>, other: Seq<u8>)
    requires
        8 * count <= table.len(),
        8 * count <= other.len(),
        table.take(8 * count) == other.take(8 * count),
    ensures
        listed(count, table) == listed(count, other),
{
    let shared = table.take(8 * count);
    assert forall|i: int| 0 <= i < count implies entry_at(table, i) == entry_at(other, i) by {
        assert(table.subrange(8 * i, 8 * i + 8) =~= shared.subrange(8 * i, 8 * i + 8));
        assert(other.subrange(8 * i, 8 * i + 8) =~= shared.subrange(8 * i, 8 * i + 8));
    }
    assert forall|i: int| 0 <= i < count implies ends_in_order(table, i) == ends_in_order(
        other,
        i,
    ) && info_at(table, i) == info_at(other, i) by {
        assert(entry_at(table, i) == entry_at(other, i));
        if i > 0 {
            assert(entry_at(table, i - 1) == entry_at(other, i - 1));
        }
    }
    if is_monotonic(table, count as nat) {
        assert forall|i: int| 0 <= i < count implies #[trigger] ends_in_order(other, i) by {
            assert(ends_in_order(table, i));
        }
        assert(Seq::new(count as nat, |i: int| info_at(table, i)) =~= Seq::new(
            count as nat,
            |i: int| info_at(other, i),
        ));
    } else {
        let i = choose|i: int| 0 <= i < count && !ends_in_order(table, i);
        assert(!ends_in_order(other, i));
    }
}

/// A file that does not open with the magic tag is no container: reading
/// and listing both refuse it with `InvalidFormat`, whatever follows the
/// first four bytes.
pub proof fn law_format_rejection(file: Seq<u8>, index: u32)
    requires
        file.len() >= 4,
        file.subrange(0, 4) != magic(),
    ensures
        member_at(file, index) == Err::<Seq<u8>, Error>(Error::InvalidFormat),
        summary(file) == Err::<Seq<MemberInfo>, Error>(Error::InvalidFormat),
{
}

} // verus!
