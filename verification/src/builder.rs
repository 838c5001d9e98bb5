//! Building a container: members are put in name order, their cumulative end
//! offsets go into the table, and their bodies follow back to back.

use crate::codec::{
    as_nats, encode_header, encode_offset_table, header_bytes, lemma_table_bytes_len,
    table_bytes,
};
use crate::error::Error;
use crate::le::lemma_le_bytes_len;
use crate::order::{
    as_ints, lemma_precedes_irreflexive, lemma_sorted_order_exists, name_views, precedes,
    sort_order, sorted_order,
};
use vstd::prelude::*;

verus! {

/// A file to be packed, known by its name and its length only.
#[derive(Clone, Debug, PartialEq, Eq)]
pub struct Entry {
    /// The raw bytes of the file name.
    pub name: Vec<u8>,
    /// The length of the file in bytes.
    pub size: u64,
}

/// A file to be packed, held in memory.
#[derive(Clone, Debug, PartialEq, Eq)]
pub struct Member {
    /// The raw bytes of the file name.
    pub name: Vec<u8>,
    /// The content of the file.
    pub data: Vec<u8>,
}

/// How to write a container for a list of entries.
#[derive(Clone, Debug, PartialEq, Eq)]
pub struct Plan {
    /// The entry whose body goes to position `p` of the container is the
    /// one at index `order[p]` of the list.
    pub order: Vec<usize>,
    /// The header and the offset table: everything that precedes the bodies.
    pub header: Vec<u8>,
    /// The length of all bodies together.
    pub body_len: u64,
}

/// The sum of `sizes`.
pub open spec fn total(sizes: Seq<nat>) -> nat
    decreases sizes.len(),
{
    if sizes.len() == 0 {
        0
    } else {
        total(sizes.drop_last()) + sizes.last()
    }
}

/// The cumulative end offsets of members with the given sizes: entry `i` is
/// the sum of the sizes up to and including member `i`.
pub open spec fn end_offsets(sizes: Seq<nat>) -> Seq<nat> {
    Seq::new(sizes.len(), |i: int| total(sizes.take(i + 1)))
}

/// `items` rearranged so that position `p` holds `items[order[p]]`.
pub open spec fn in_order<T>(items: Seq<T>, order: Seq<int>) -> Seq<T> {
    Seq::new(order.len(), |p: int| items[order[p]])
}

/// The lengths of `bodies`.
pub open spec fn lengths(bodies: Seq<Seq<u8>>) -> Seq<nat> {
    Seq::new(bodies.len(), |i: int| bodies[i].len())
}

/// `bodies` back to back.
pub open spec fn concat(bodies: Seq<Seq<u8>>) -> Seq<u8>
    decreases bodies.len(),
{
    if bodies.len() == 0 {
        Seq::empty()
    } else {
        concat(bodies.drop_last()) + bodies.last()
    }
}

/// The header and offset table of a container whose members, in layout
/// order, have the given sizes.
pub open spec fn front_matter(sizes: Seq<nat>) -> Seq<u8> {
    header_bytes(sizes.len()) + table_bytes(end_offsets(sizes))
}

/// The container that holds `bodies` in the order given.
pub open spec fn container_of(bodies: Seq<Seq<u8>>) -> Seq<u8> {
    front_matter(lengths(bodies)) + concat(bodies)
}

/// The names of a list of entries.
pub open spec fn entry_names(entries: Seq<Entry>) -> Seq<Seq<u8>> {
    Seq::new(entries.len(), |i: int| entries[i].name@)
}

/// The sizes of a list of entries.
pub open spec fn entry_sizes(entries: Seq<Entry>) -> Seq<nat> {
    Seq::new(entries.len(), |i: int| entries[i].size as nat)
}

/// The names of a list of members.
pub open spec fn member_names(members: Seq<Member>) -> Seq<Seq<u8>> {
    Seq::new(members.len(), |i: int| members[i].name@)
}

/// The contents of a list of members.
pub open spec fn member_bodies(members: Seq<Member>) -> Seq<Seq<u8>> {
    Seq::new(members.len(), |i: int| members[i].data@)
}

/// What planning a container for files with these names and sizes gives:
/// the layout order with the header and offset table, or the reason why
/// there is no such container.
pub open spec fn planned(names: Seq<Seq<u8>>, sizes: Seq<nat>) -> Result<(Seq<int>, Seq<u8>), Error> {
    let order = sorted_order(names);
    if names.len() > u32::MAX {
        Err(Error::TooManyFiles { found: names.len() as usize })
    } else if total(sizes) > u64::MAX {
        Err(Error::TooLarge)
    } else {
        Ok((order, front_matter(in_order(sizes, order))))
    }
}

/// What packing files with these names and contents in memory gives: the
/// container, or the reason why there is none.
pub open spec fn packed(names: Seq<Seq<u8>>, bodies: Seq<Seq<u8>>) -> Result<Seq<u8>, Error> {
    if names.len() > u32::MAX {
        Err(Error::TooManyFiles { found: names.len() as usize })
    } else if 8 + 8 * names.len() + total(lengths(bodies)) > usize::MAX {
        Err(Error::TooLarge)
    } else {
        Ok(container_of(in_order(bodies, sorted_order(names))))
    }
}

/// Adding a member adds its size to the total.
pub proof fn lemma_total_step(sizes: Seq<nat>, i: int)
    requires
        0 <= i < sizes.len(),
    ensures
        total(sizes.take(i + 1)) == total(sizes.take(i)) + sizes[i],
{
    assert(sizes.take(i + 1).drop_last() =~= sizes.take(i));
}

/// The total of the first `i` sizes does not exceed the total of the first
/// `j` when `i <= j`.
pub proof fn lemma_total_monotonic(sizes: Seq<nat>, i: int, j: int)
    requires
        0 <= i <= j <= sizes.len(),
    ensures
        total(sizes.take(i)) <= total(sizes.take(j)),
    decreases j - i,
{
    if i < j {
        lemma_total_monotonic(sizes, i, j - 1);
        lemma_total_step(sizes, j - 1);
    }
}

/// Taking one member out takes its size off the total.
pub proof fn lemma_total_remove(sizes: Seq<nat>, at: int)
    requires
        0 <= at < sizes.len(),
    ensures
        total(sizes) == total(sizes.remove(at)) + sizes[at],
    decreases sizes.len(),
{
    if at == sizes.len() - 1 {
        assert(sizes.remove(at) =~= sizes.drop_last());
    } else {
        lemma_total_remove(sizes.drop_last(), at);
        assert(sizes.remove(at).drop_last() =~= sizes.drop_last().remove(at));
        assert(sizes.remove(at).last() == sizes.last());
    }
}

/// The total does not depend on the order: sizes rearranged by an `order`
/// that lists every index once add up to the same.
pub proof fn lemma_total_rearranged(sizes: Seq<nat>, order: Seq<int>)
    requires
        order.len() == sizes.len(),
        forall|p: int| 0 <= p < order.len() ==> 0 <= #[trigger] order[p] < sizes.len(),
        forall|p: int, q: int|
            0 <= p < q < order.len() ==> #[trigger] order[p] != #[trigger] order[q],
        forall|k: int| 0 <= k < sizes.len() ==> #[trigger] order.contains(k),
    ensures
        total(in_order(sizes, order)) == total(sizes),
    decreases sizes.len(),
{
    if sizes.len() == 0 {
        assert(in_order(sizes, order) =~= sizes);
    } else {
        let last = sizes.len() - 1;
        assert(order.contains(last));
        let at = choose|at: int| 0 <= at < order.len() && order[at] == last;
        let rest = order.remove(at);
        let fewer = sizes.drop_last();
        assert forall|p: int| 0 <= p < rest.len() implies 0 <= #[trigger] rest[p] < fewer.len() by {
            if p < at {
                assert(rest[p] == order[p]);
            } else {
                assert(rest[p] == order[p + 1]);
            }
        }
        assert forall|p: int, q: int| 0 <= p < q < rest.len() implies #[trigger] rest[p]
            != #[trigger] rest[q] by {
            let from_p = if p < at {
                p
            } else {
                p + 1
            };
            let from_q = if q < at {
                q
            } else {
                q + 1
            };
            assert(rest[p] == order[from_p] && rest[q] == order[from_q]);
        }
        assert forall|k: int| 0 <= k < fewer.len() implies #[trigger] rest.contains(k) by {
            assert(order.contains(k));
            let w = choose|w: int| 0 <= w < order.len() && order[w] == k;
            if w < at {
                assert(rest[w] == k);
            } else {
                assert(rest[w - 1] == k);
            }
        }
        lemma_total_rearranged(fewer, rest);
        lemma_total_remove(in_order(sizes, order), at);
        assert(in_order(sizes, order).remove(at) =~= in_order(fewer, rest));
    }
}

/// The total does not depend on the layout order.
pub proof fn lemma_total_in_layout_order(names: Seq<Seq<u8>>, sizes: Seq<nat>)
    requires
        names.len() == sizes.len(),
    ensures
        total(in_order(sizes, sorted_order(names))) == total(sizes),
{
    let order = sorted_order(names);
    lemma_sorted_order_exists(names);
    assert forall|p: int, q: int| 0 <= p < q < order.len() implies #[trigger] order[p]
        != #[trigger] order[q] by {
        assert(precedes(names, order[p], order[q]));
        lemma_precedes_irreflexive(names, order[p]);
    }
    lemma_total_rearranged(sizes, order);
}

/// Putting one more body behind the others appends it.
pub proof fn lemma_concat_step(bodies: Seq<Seq<u8>>, i: int)
    requires
        0 <= i < bodies.len(),
    ensures
        concat(bodies.take(i + 1)) == concat(bodies.take(i)) + bodies[i],
{
    assert(bodies.take(i + 1).drop_last() =~= bodies.take(i));
}

/// Bodies back to back are as long as their lengths together.
pub proof fn lemma_concat_len(bodies: Seq<Seq<u8>>)
    ensures
        concat(bodies).len() == total(lengths(bodies)),
    decreases bodies.len(),
{
    if bodies.len() > 0 {
        lemma_concat_len(bodies.drop_last());
        assert(lengths(bodies).drop_last() =~= lengths(bodies.drop_last()));
    }
}

/// Converts a number of files into a member count.
///
/// Fails with `TooManyFiles` when `found` is more than 32 bits can count.
pub fn member_count(found: usize) -> (result: Result<u32, Error>)
    ensures
        result == if found > u32::MAX {
            Err::<u32, Error>(Error::TooManyFiles { found })
        } else {
            Ok::<u32, Error>(found as u32)
        },
{
    if found > u32::MAX as usize {
        Err(Error::TooManyFiles { found })
    } else {
        Ok(found as u32)
    }
}

/// Lays out files with the given names and sizes.
fn lay_out(names: &[&[u8]], sizes: &[u64]) -> (result: Result<Plan, Error>)
    requires
        names@.len() == sizes@.len(),
    ensures
        match result {
            Ok(plan) => {
                &&& planned(name_views(names@), as_nats(sizes@)) == Ok::<_, Error>(
                    (as_ints(plan.order@), plan.header@),
                )
                &&& plan.body_len == total(as_nats(sizes@))
            },
            Err(e) => planned(name_views(names@), as_nats(sizes@)) == Err::<
                (Seq<int>, Seq<u8>),
                Error,
            >(e),
        },
{
    let n = names.len();
    let count = match member_count(n) {
        Ok(count) => count,
        Err(e) => {
            return Err(e);
        },
    };
    let order = sort_order(names);
    let ghost laid = in_order(as_nats(sizes@), as_ints(order@));
    proof {
        lemma_sorted_order_exists(name_views(names@));
        lemma_total_in_layout_order(name_views(names@), as_nats(sizes@));
        assert forall|q: int| 0 <= q < n implies #[trigger] order@[q] < n by {
            assert(0 <= as_ints(order@)[q] < n);
        }
    }
    let mut ends: Vec<u64> = Vec::new();
    let mut running: u64 = 0;
    let mut p: usize = 0;
    while p < n
        invariant
            n == names@.len(),
            n == sizes@.len(),
            n == order@.len(),
            n <= u32::MAX,
            as_ints(order@) == sorted_order(name_views(names@)),
            laid == in_order(as_nats(sizes@), as_ints(order@)),
            forall|q: int| 0 <= q < n ==> #[trigger] order@[q] < n,
            p <= n,
            laid.len() == n,
            total(laid) == total(as_nats(sizes@)),
            ends@.len() == p,
            running == total(laid.take(p as int)),
            as_nats(ends@) == end_offsets(laid).take(p as int),
        decreases n - p,
    {
        let size = sizes[order[p]];
        let ghost before = ends@;
        proof {
            assert(laid[p as int] == size as nat);
            lemma_total_step(laid, p as int);
        }
        match running.checked_add(size) {
            None => {
                proof {
                    lemma_total_monotonic(laid, p + 1, n as int);
                    assert(laid.take(n as int) =~= laid);
                }
                return Err(Error::TooLarge);
            },
            Some(next) => {
                running = next;
                ends.push(next);
            },
        }
        p = p + 1;
        proof {
            assert forall|i: int| 0 <= i < p implies as_nats(ends@)[i] == end_offsets(laid).take(
                p as int,
            )[i] by {
                if i < p - 1 {
                    assert(as_nats(before)[i] == end_offsets(laid).take(p - 1)[i]);
                }
            }
            assert(as_nats(ends@) =~= end_offsets(laid).take(p as int));
        }
    }
    let mut header = encode_header(count);
    let mut table = encode_offset_table(ends.as_slice());
    header.append(&mut table);
    proof {
        assert(laid.take(n as int) =~= laid);
        assert(end_offsets(laid).take(n as int) =~= end_offsets(laid));
    }
    Ok(Plan { order, header, body_len: running })
}

/// Plans a container for `entries`: puts them in name order and writes the
/// header and the offset table. The caller then writes `header` followed by
/// the bodies in the order that `order` gives.
///
/// Fails with `TooManyFiles` when there are more entries than 32 bits can
/// count, and otherwise with `TooLarge` when the sizes together exceed 64
/// bits.
pub fn plan(entries: &Vec<Entry>) -> (result: Result<Plan, Error>)
    ensures
        match result {
            Ok(plan) => {
                &&& planned(entry_names(entries@), entry_sizes(entries@)) == Ok::<_, Error>(
                    (as_ints(plan.order@), plan.header@),
                )
                &&& plan.body_len == total(entry_sizes(entries@))
            },
            Err(e) => planned(entry_names(entries@), entry_sizes(entries@)) == Err::<
                (Seq<int>, Seq<u8>),
                Error,
            >(e),
        },
{
    let mut names: Vec<&[u8]> = Vec::new();
    let mut sizes: Vec<u64> = Vec::new();
    let mut i: usize = 0;
    while i < entries.len()
        invariant
            i <= entries@.len(),
            names@.len() == i,
            sizes@.len() == i,
            forall|j: int| 0 <= j < i ==> (#[trigger] names@[j])@ == entries@[j].name@,
            forall|j: int| 0 <= j < i ==> #[trigger] sizes@[j] == entries@[j].size,
        decreases entries@.len() - i,
    {
        names.push(entries[i].name.as_slice());
        sizes.push(entries[i].size);
        i = i + 1;
    }
    proof {
        assert(name_views(names@) =~= entry_names(entries@));
        assert(as_nats(sizes@) =~= entry_sizes(entries@));
    }
    lay_out(names.as_slice(), sizes.as_slice())
}

/// Packs `members` into a container held in memory.
///
/// Fails with `TooManyFiles` when there are more members than 32 bits can
/// count, and otherwise with `TooLarge` when the container would be longer
/// than memory can address.
pub fn create(members: &Vec<Member>) -> (result: Result<Vec<u8>, Error>)
    ensures
        match result {
            Ok(container) => packed(member_names(members@), member_bodies(members@)) == Ok::<
                _,
                Error,
            >(container@),
            Err(e) => packed(member_names(members@), member_bodies(members@)) == Err::<
                Seq<u8>,
                Error,
            >(e),
        },
{
    let n = members.len();
    let mut names: Vec<&[u8]> = Vec::new();
    let mut sizes: Vec<u64> = Vec::new();
    let mut i: usize = 0;
    while i < n
        invariant
            n == members@.len(),
            i <= n,
            names@.len() == i,
            sizes@.len() == i,
            forall|j: int| 0 <= j < i ==> (#[trigger] names@[j])@ == members@[j].name@,
            forall|j: int| 0 <= j < i ==> #[trigger] sizes@[j] == members@[j].data@.len(),
        decreases n - i,
    {
        names.push(members[i].name.as_slice());
        sizes.push(members[i].data.len() as u64);
        i = i + 1;
    }
    let ghost nv = member_names(members@);
    let ghost bodies = member_bodies(members@);
    proof {
        assert(name_views(names@) =~= nv);
        assert(as_nats(sizes@) =~= lengths(bodies));
    }
    let plan = match lay_out(names.as_slice(), sizes.as_slice()) {
        Ok(plan) => plan,
        Err(e) => {
            return Err(e);
        },
    };
    let ghost laid = in_order(bodies, as_ints(plan.order@));
    proof {
        lemma_sorted_order_exists(nv);
        assert(lengths(laid) =~= in_order(lengths(bodies), as_ints(plan.order@)));
        assert forall|q: int| 0 <= q < n implies #[trigger] plan.order@[q] < n by {
            assert(0 <= as_ints(plan.order@)[q] < n);
        }
    }
    let order = plan.order;
    let mut out = plan.header;
    let front = out.len();
    proof {
        lemma_table_bytes_len(end_offsets(lengths(laid)));
        lemma_le_bytes_len(n as nat, 4);
    }
    if plan.body_len > (usize::MAX - front) as u64 {
        return Err(Error::TooLarge);
    }
    let mut p: usize = 0;
    while p < n
        invariant
            n == members@.len(),
            n == order@.len(),
            bodies == member_bodies(members@),
            laid == in_order(bodies, as_ints(order@)),
            forall|q: int| 0 <= q < n ==> #[trigger] order@[q] < n,
            p <= n,
            out@ == front_matter(lengths(laid)) + concat(laid.take(p as int)),
        decreases n - p,
    {
        let ghost before = out@;
        let body = members[order[p]].data.as_slice();
        out.extend_from_slice(body);
        proof {
            assert(laid[p as int] == body@);
            lemma_concat_step(laid, p as int);
            assert(out@ =~= before + body@);
        }
        p = p + 1;
    }
    proof {
        assert(laid.take(n as int) =~= laid);
    }
    Ok(out)
}

} // verus!
