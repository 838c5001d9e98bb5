//! The order in which members are laid out: byte-wise lexicographic by name.
//!
//! Names are compared as raw byte strings. Members whose names are equal keep
//! the order in which they were offered, so the layout order of any list of
//! names is unique.

use vstd::prelude::*;

verus! {

/// `a` comes strictly before `b` in byte-wise lexicographic order.
pub open spec fn lex_less(a: Seq<u8>, b: Seq<u8>) -> bool
    decreases a.len(),
{
    if b.len() == 0 {
        false
    } else if a.len() == 0 {
        true
    } else if a[0] != b[0] {
        a[0] < b[0]
    } else {
        lex_less(a.drop_first(), b.drop_first())
    }
}

/// No name comes before itself.
pub proof fn lemma_lex_irreflexive(a: Seq<u8>)
    ensures
        !lex_less(a, a),
    decreases a.len(),
{
    if a.len() > 0 {
        lemma_lex_irreflexive(a.drop_first());
    }
}

/// Of two different names one comes before the other.
pub proof fn lemma_lex_total(a: Seq<u8>, b: Seq<u8>)
    requires
        a != b,
    ensures
        lex_less(a, b) || lex_less(b, a),
    decreases a.len(),
{
    if a.len() > 0 && b.len() > 0 && a[0] == b[0] {
        if a.drop_first() == b.drop_first() {
            assert(a =~= seq![a[0]] + a.drop_first());
            assert(b =~= seq![b[0]] + b.drop_first());
        }
        lemma_lex_total(a.drop_first(), b.drop_first());
    } else if a.len() == 0 && b.len() == 0 {
        assert(a =~= b);
    }
}

/// Two names never come before each other.
pub proof fn lemma_lex_asymmetric(a: Seq<u8>, b: Seq<u8>)
    ensures
        !(lex_less(a, b) && lex_less(b, a)),
    decreases a.len(),
{
    if a.len() > 0 && b.len() > 0 && a[0] == b[0] {
        lemma_lex_asymmetric(a.drop_first(), b.drop_first());
    }
}

/// Coming before is transitive.
pub proof fn lemma_lex_transitive(a: Seq<u8>, b: Seq<u8>, c: Seq<u8>)
    requires
        lex_less(a, b),
        lex_less(b, c),
    ensures
        lex_less(a, c),
    decreases a.len(),
{
    if a.len() > 0 && b.len() > 0 && c.len() > 0 && a[0] == b[0] && b[0] == c[0] {
        lemma_lex_transitive(a.drop_first(), b.drop_first(), c.drop_first());
    }
}

/// Names that agree on their first `n` bytes compare as what follows them.
pub proof fn lemma_lex_skip_common(a: Seq<u8>, b: Seq<u8>, n: int)
    requires
        0 <= n <= a.len(),
        n <= b.len(),
        a.take(n) == b.take(n),
    ensures
        lex_less(a, b) == lex_less(a.skip(n), b.skip(n)),
    decreases n,
{
    if n == 0 {
        assert(a.skip(0) =~= a);
        assert(b.skip(0) =~= b);
    } else {
        let a1 = a.drop_first();
        let b1 = b.drop_first();
        assert(a[0] == a.take(n)[0]);
        assert(b[0] == b.take(n)[0]);
        assert(a1.take(n - 1) =~= a.take(n).drop_first());
        assert(b1.take(n - 1) =~= b.take(n).drop_first());
        lemma_lex_skip_common(a1, b1, n - 1);
        assert(a1.skip(n - 1) =~= a.skip(n));
        assert(b1.skip(n - 1) =~= b.skip(n));
    }
}

/// The length of the longest prefix that `a` and `b` share.
pub fn common_prefix_len(a: &[u8], b: &[u8]) -> (n: usize)
    ensures
        n <= a@.len(),
        n <= b@.len(),
        a@.take(n as int) == b@.take(n as int),
        n < a@.len() && n < b@.len() ==> a@[n as int] != b@[n as int],
{
    let mut n: usize = 0;
    while n < a.len() && n < b.len() && a[n] == b[n]
        invariant
            n <= a@.len(),
            n <= b@.len(),
            a@.take(n as int) == b@.take(n as int),
        decreases a@.len() - n,
    {
        assert(a@.take(n + 1) =~= a@.take(n as int).push(a@[n as int]));
        assert(b@.take(n + 1) =~= b@.take(n as int).push(b@[n as int]));
        n = n + 1;
    }
    n
}

/// Whether `a` comes strictly before `b` in byte-wise lexicographic order.
pub fn name_less(a: &[u8], b: &[u8]) -> (less: bool)
    ensures
        less == lex_less(a@, b@),
{
    let n = common_prefix_len(a, b);
    proof {
        lemma_lex_skip_common(a@, b@, n as int);
    }
    if n == b.len() {
        false
    } else if n == a.len() {
        true
    } else {
        a[n] < b[n]
    }
}


/// Member `j` is laid out before member `k`: its name comes first, or the
/// names are equal and `j` was offered first.
pub open spec fn precedes(names: Seq<Seq<u8>>, j: int, k: int) -> bool {
    lex_less(names[j], names[k]) || (names[j] == names[k] && j < k)
}

/// `run` lists every member index from `lo` up to but excluding `hi` exactly
/// once, each laid out before the ones that follow it.
pub open spec fn is_sorted_run(names: Seq<Seq<u8>>, run: Seq<int>, lo: int, hi: int) -> bool {
    &&& run.len() == hi - lo
    &&& forall|p: int| 0 <= p < run.len() ==> lo <= #[trigger] run[p] < hi
    &&& forall|p: int, q: int|
        0 <= p < q < run.len() ==> precedes(names, #[trigger] run[p], #[trigger] run[q])
    &&& forall|k: int| lo <= k < hi ==> #[trigger] run.contains(k)
}

/// `order` is the layout order of `names`: position `p` of the container
/// holds member `order[p]`.
pub open spec fn is_sorted_order(names: Seq<Seq<u8>>, order: Seq<int>) -> bool {
    is_sorted_run(names, order, 0, names.len() as int)
}

/// The layout order of `names`.
pub open spec fn sorted_order(names: Seq<Seq<u8>>) -> Seq<int> {
    choose|order: Seq<int>| is_sorted_order(names, order)
}

/// No member is laid out before itself.
pub proof fn lemma_precedes_irreflexive(names: Seq<Seq<u8>>, k: int)
    ensures
        !precedes(names, k, k),
{
    lemma_lex_irreflexive(names[k]);
}

/// Two members are never laid out before each other.
pub proof fn lemma_precedes_asymmetric(names: Seq<Seq<u8>>, j: int, k: int)
    ensures
        !(precedes(names, j, k) && precedes(names, k, j)),
{
    lemma_lex_asymmetric(names[j], names[k]);
    lemma_lex_irreflexive(names[j]);
}

/// Of two different members one is laid out before the other.
pub proof fn lemma_precedes_total(names: Seq<Seq<u8>>, j: int, k: int)
    requires
        j != k,
    ensures
        precedes(names, j, k) || precedes(names, k, j),
{
    if names[j] != names[k] {
        lemma_lex_total(names[j], names[k]);
    }
}

/// Being laid out before is transitive.
pub proof fn lemma_precedes_transitive(names: Seq<Seq<u8>>, i: int, j: int, k: int)
    requires
        precedes(names, i, j),
        precedes(names, j, k),
    ensures
        precedes(names, i, k),
{
    if lex_less(names[i], names[j]) && lex_less(names[j], names[k]) {
        lemma_lex_transitive(names[i], names[j], names[k]);
    }
}

/// Two layout orders of the same names agree on their first `upto` positions.
proof fn lemma_orders_agree(names: Seq<Seq<u8>>, first: Seq<int>, second: Seq<int>, upto: int)
    requires
        is_sorted_order(names, first),
        is_sorted_order(names, second),
        0 <= upto <= names.len(),
    ensures
        forall|p: int| 0 <= p < upto ==> first[p] == second[p],
    decreases upto,
{
    if upto > 0 {
        lemma_orders_agree(names, first, second, upto - 1);
        let m = upto - 1;
        let k1 = first[m];
        let k2 = second[m];
        assert(second.contains(k1));
        assert(first.contains(k2));
        let r = choose|r: int| 0 <= r < second.len() && second[r] == k1;
        let s = choose|s: int| 0 <= s < first.len() && first[s] == k2;
        lemma_precedes_irreflexive(names, k1);
        lemma_precedes_irreflexive(names, k2);
        lemma_precedes_asymmetric(names, k1, k2);
        if r < m {
            assert(first[r] == second[r]);
            assert(precedes(names, first[r], first[m]));
        } else if s < m {
            assert(first[s] == second[s]);
            assert(precedes(names, second[s], second[m]));
        } else if r > m && s > m {
            assert(precedes(names, second[m], second[r]));
            assert(precedes(names, first[m], first[s]));
        }
    }
}

/// A list of names has at most one layout order.
pub proof fn lemma_sorted_order_unique(names: Seq<Seq<u8>>, first: Seq<int>, second: Seq<int>)
    requires
        is_sorted_order(names, first),
        is_sorted_order(names, second),
    ensures
        first == second,
{
    lemma_orders_agree(names, first, second, names.len() as int);
    assert(first =~= second);
}

/// Where member `k` enters `run` so that the run stays sorted: behind the
/// last member that is laid out before it.
spec fn entry_point(names: Seq<Seq<u8>>, run: Seq<int>, k: int) -> int
    decreases run.len(),
{
    if run.len() == 0 {
        0
    } else if precedes(names, run.last(), k) {
        run.len() as int
    } else {
        entry_point(names, run.drop_last(), k)
    }
}

/// The entry point splits a sorted run into the members before `k` and the
/// members after it.
proof fn lemma_entry_point(names: Seq<Seq<u8>>, run: Seq<int>, k: int)
    requires
        forall|p: int, q: int|
            0 <= p < q < run.len() ==> precedes(names, #[trigger] run[p], #[trigger] run[q]),
        forall|p: int| 0 <= p < run.len() ==> #[trigger] run[p] != k,
    ensures
        0 <= entry_point(names, run, k) <= run.len(),
        forall|p: int|
            0 <= p < entry_point(names, run, k) ==> precedes(names, #[trigger] run[p], k),
        forall|p: int|
            entry_point(names, run, k) <= p < run.len() ==> precedes(names, k, #[trigger] run[p]),
    decreases run.len(),
{
    if run.len() == 0 {
    } else if precedes(names, run.last(), k) {
        assert forall|p: int| 0 <= p < run.len() implies precedes(names, #[trigger] run[p], k) by {
            if p < run.len() - 1 {
                assert(precedes(names, run[p], run[run.len() - 1]));
                lemma_precedes_transitive(names, run[p], run.last(), k);
            }
        }
    } else {
        let shorter = run.drop_last();
        assert forall|p: int, q: int| 0 <= p < q < shorter.len() implies precedes(
            names,
            #[trigger] shorter[p],
            #[trigger] shorter[q],
        ) by {
            assert(shorter[p] == run[p] && shorter[q] == run[q]);
        }
        assert forall|p: int| 0 <= p < shorter.len() implies #[trigger] shorter[p] != k by {
            assert(shorter[p] == run[p]);
        }
        lemma_entry_point(names, shorter, k);
        let e = entry_point(names, shorter, k);
        assert(run[run.len() - 1] != k);
        lemma_precedes_total(names, run.last(), k);
        assert forall|p: int| 0 <= p < e implies precedes(names, #[trigger] run[p], k) by {
            assert(shorter[p] == run[p]);
        }
        assert forall|p: int| e <= p < run.len() implies precedes(names, k, #[trigger] run[p]) by {
            if p < run.len() - 1 {
                assert(shorter[p] == run[p]);
            }
        }
    }
}

/// Builds a layout order by letting the members enter one after another.
proof fn sorted_order_witness(names: Seq<Seq<u8>>) -> (order: Seq<int>)
    ensures
        is_sorted_order(names, order),
    decreases names.len(),
{
    if names.len() == 0 {
        let order = Seq::<int>::empty();
        assert(is_sorted_order(names, order));
        order
    } else {
        let n = names.len() - 1;
        let shorter = names.drop_last();
        let prev = sorted_order_witness(shorter);
        assert forall|p: int, q: int| 0 <= p < q < prev.len() implies precedes(
            names,
            #[trigger] prev[p],
            #[trigger] prev[q],
        ) by {
            assert(precedes(shorter, prev[p], prev[q]));
            assert(shorter[prev[p]] == names[prev[p]]);
            assert(shorter[prev[q]] == names[prev[q]]);
        }
        lemma_entry_point(names, prev, n);
        let e = entry_point(names, prev, n);
        let order = Seq::new(
            names.len(),
            |p: int|
                if p < e {
                    prev[p]
                } else if p == e {
                    n
                } else {
                    prev[p - 1]
                },
        );
        assert forall|p: int, q: int| 0 <= p < q < order.len() implies precedes(
            names,
            #[trigger] order[p],
            #[trigger] order[q],
        ) by {
            if q < e {
                assert(precedes(names, prev[p], prev[q]));
            } else if q == e {
                assert(precedes(names, prev[p], n));
            } else if p < e {
                assert(precedes(names, prev[p], prev[q - 1]));
            } else if p == e {
                assert(precedes(names, n, prev[q - 1]));
            } else {
                assert(precedes(names, prev[p - 1], prev[q - 1]));
            }
        }
        assert forall|k: int| 0 <= k < names.len() implies #[trigger] order.contains(k) by {
            if k == n {
                assert(order[e] == k);
            } else {
                assert(prev.contains(k));
                let r = choose|r: int| 0 <= r < prev.len() && prev[r] == k;
                if r < e {
                    assert(order[r] == k);
                } else {
                    assert(order[r + 1] == k);
                }
            }
        }
        order
    }
}

/// Every list of names has a layout order, and `sorted_order` is it.
pub proof fn lemma_sorted_order_exists(names: Seq<Seq<u8>>)
    ensures
        is_sorted_order(names, sorted_order(names)),
{
    let witness = sorted_order_witness(names);
}


/// The names behind a list of borrowed byte strings.
pub open spec fn name_views(names: Seq<&[u8]>) -> Seq<Seq<u8>> {
    Seq::new(names.len(), |i: int| names[i]@)
}

/// Machine indices read as mathematical integers.
pub open spec fn as_ints(order: Seq<usize>) -> Seq<int> {
    Seq::new(order.len(), |p: int| order[p] as int)
}

/// Whatever a run contains it still contains after `k` is appended, and it
/// then contains `k` too.
proof fn lemma_push_contains(run: Seq<usize>, k: usize)
    ensures
        run.push(k).contains(k),
        forall|v: usize| run.contains(v) ==> #[trigger] run.push(k).contains(v),
{
    assert(run.push(k)[run.len() as int] == k);
    assert forall|v: usize| run.contains(v) implies #[trigger] run.push(k).contains(v) by {
        let w = choose|w: int| 0 <= w < run.len() && run[w] == v;
        assert(run.push(k)[w] == v);
    }
}

/// Merges the sorted run over `[lo, mid)` with the one over `[mid, hi)`.
///
/// Where the heads of both runs have equal names the left one goes first:
/// its index is the smaller one.
fn merge_runs(
    names: &[&[u8]],
    left: &Vec<usize>,
    right: &Vec<usize>,
    Ghost(lo): Ghost<int>,
    Ghost(mid): Ghost<int>,
    Ghost(hi): Ghost<int>,
) -> (out: Vec<usize>)
    requires
        0 <= lo <= mid <= hi <= names@.len(),
        is_sorted_run(name_views(names@), as_ints(left@), lo, mid),
        is_sorted_run(name_views(names@), as_ints(right@), mid, hi),
    ensures
        is_sorted_run(name_views(names@), as_ints(out@), lo, hi),
{
    let ghost nv = name_views(names@);
    let ghost l = as_ints(left@);
    let ghost r = as_ints(right@);
    let mut out: Vec<usize> = Vec::new();
    let mut i: usize = 0;
    let mut j: usize = 0;
    while i < left.len() || j < right.len()
        invariant
            nv == name_views(names@),
            l == as_ints(left@),
            r == as_ints(right@),
            0 <= lo <= mid <= hi <= names@.len(),
            is_sorted_run(nv, l, lo, mid),
            is_sorted_run(nv, r, mid, hi),
            i <= left@.len(),
            j <= right@.len(),
            out@.len() == i + j,
            forall|p: int| 0 <= p < out@.len() ==> lo <= #[trigger] out@[p] < hi,
            forall|p: int, q: int|
                0 <= p < q < out@.len() ==> precedes(
                    nv,
                    #[trigger] out@[p] as int,
                    #[trigger] out@[q] as int,
                ),
            forall|p: int|
                0 <= p < out@.len() && i < left@.len() ==> precedes(
                    nv,
                    #[trigger] out@[p] as int,
                    left@[i as int] as int,
                ),
            forall|p: int|
                0 <= p < out@.len() && j < right@.len() ==> precedes(
                    nv,
                    #[trigger] out@[p] as int,
                    right@[j as int] as int,
                ),
            forall|a: int| 0 <= a < i ==> out@.contains(#[trigger] left@[a]),
            forall|b: int| 0 <= b < j ==> out@.contains(#[trigger] right@[b]),
        decreases left@.len() - i + right@.len() - j,
    {
        proof {
            if i < left@.len() {
                assert(lo <= l[i as int] < mid);
            }
            if j < right@.len() {
                assert(mid <= r[j as int] < hi);
            }
        }
        let take_left = if j == right.len() {
            true
        } else if i == left.len() {
            false
        } else {
            !name_less(names[right[j]], names[left[i]])
        };
        let ghost before = out@;
        let k = if take_left {
            left[i]
        } else {
            right[j]
        };
        proof {
            // the head that stays behind comes after `k`
            if i < left@.len() && j < right@.len() {
                let a = left@[i as int] as int;
                let b = right@[j as int] as int;
                assert(nv[a] == names@[a]@ && nv[b] == names@[b]@);
                assert(a == l[i as int] && b == r[j as int]);
                lemma_precedes_total(nv, a, b);
                lemma_lex_asymmetric(nv[a], nv[b]);
            }
            // so does the next member of the run that `k` was taken from
            if take_left && i + 1 < left@.len() {
                assert(precedes(nv, l[i as int], l[i + 1]));
            }
            if !take_left && j + 1 < right@.len() {
                assert(precedes(nv, r[j as int], r[j + 1]));
            }
            lemma_push_contains(before, k);
        }
        out.push(k);
        if take_left {
            i = i + 1;
        } else {
            j = j + 1;
        }
        proof {
            assert forall|p: int, q: int| 0 <= p < q < out@.len() implies precedes(
                nv,
                #[trigger] out@[p] as int,
                #[trigger] out@[q] as int,
            ) by {
                if q < before.len() {
                    assert(precedes(nv, before[p] as int, before[q] as int));
                } else {
                    assert(precedes(nv, before[p] as int, k as int));
                }
            }
            assert forall|p: int| 0 <= p < out@.len() && i < left@.len() implies precedes(
                nv,
                #[trigger] out@[p] as int,
                left@[i as int] as int,
            ) by {
                if p < before.len() {
                    assert(precedes(nv, before[p] as int, k as int));
                    lemma_precedes_transitive(
                        nv,
                        before[p] as int,
                        k as int,
                        left@[i as int] as int,
                    );
                }
            }
            assert forall|p: int| 0 <= p < out@.len() && j < right@.len() implies precedes(
                nv,
                #[trigger] out@[p] as int,
                right@[j as int] as int,
            ) by {
                if p < before.len() {
                    assert(precedes(nv, before[p] as int, k as int));
                    lemma_precedes_transitive(
                        nv,
                        before[p] as int,
                        k as int,
                        right@[j as int] as int,
                    );
                }
            }
            assert forall|p: int| 0 <= p < out@.len() implies lo <= #[trigger] out@[p] < hi by {
                if p < before.len() {
                    assert(out@[p] == before[p]);
                }
            }
            assert forall|a: int| 0 <= a < i implies out@.contains(#[trigger] left@[a]) by {
                assert(a < i - 1 || !take_left ==> before.contains(left@[a]));
            }
            assert forall|b: int| 0 <= b < j implies out@.contains(#[trigger] right@[b]) by {
                assert(b < j - 1 || take_left ==> before.contains(right@[b]));
            }
        }
    }
    proof {
        let o = as_ints(out@);
        assert forall|p: int, q: int| 0 <= p < q < o.len() implies precedes(
            nv,
            #[trigger] o[p],
            #[trigger] o[q],
        ) by {
            assert(precedes(nv, out@[p] as int, out@[q] as int));
        }
        assert forall|k: int| lo <= k < hi implies #[trigger] o.contains(k) by {
            let source = if k < mid {
                left@
            } else {
                right@
            };
            assert(as_ints(source).contains(k));
            let a = choose|a: int| 0 <= a < source.len() && as_ints(source)[a] == k;
            assert(out@.contains(source[a]));
            let w = choose|w: int| 0 <= w < out@.len() && out@[w] == source[a];
            assert(o[w] == k);
        }
        assert forall|p: int| 0 <= p < o.len() implies lo <= #[trigger] o[p] < hi by {
            assert(lo <= out@[p] < hi);
        }
    }
    out
}

/// Sorts the member indices from `lo` up to but excluding `hi`.
fn sort_range(names: &[&[u8]], lo: usize, hi: usize) -> (run: Vec<usize>)
    requires
        lo <= hi <= names@.len(),
    ensures
        is_sorted_run(name_views(names@), as_ints(run@), lo as int, hi as int),
    decreases hi - lo,
{
    let mut run: Vec<usize> = Vec::new();
    if hi - lo == 0 {
        run
    } else if hi - lo == 1 {
        run.push(lo);
        proof {
            assert(as_ints(run@)[0] == lo as int);
        }
        run
    } else {
        let mid = lo + (hi - lo) / 2;
        let left = sort_range(names, lo, mid);
        let right = sort_range(names, mid, hi);
        merge_runs(names, &left, &right, Ghost(lo as int), Ghost(mid as int), Ghost(hi as int))
    }
}

/// Computes the layout order of `names`: the result's entry `p` is the index
/// of the member that the container holds at position `p`.
pub fn sort_order(names: &[&[u8]]) -> (order: Vec<usize>)
    ensures
        as_ints(order@) == sorted_order(name_views(names@)),
{
    let order = sort_range(names, 0, names.len());
    proof {
        lemma_sorted_order_exists(name_views(names@));
        lemma_sorted_order_unique(
            name_views(names@),
            as_ints(order@),
            sorted_order(name_views(names@)),
        );
    }
    order
}

} // verus!
