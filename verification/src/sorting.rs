use vstd::prelude::*;

verus! {

/// Lexicographic order on pairs of integers.
pub open spec fn key_lt(a: (int, int), b: (int, int)) -> bool {
    a.0 < b.0 || (a.0 == b.0 && a.1 < b.1)
}

/// The order of a stable sort: index `i` goes before index `j` when its key
/// is smaller, or when the keys are equal and `i` came first.
pub open spec fn goes_before(keys: Seq<(int, int)>, i: int, j: int) -> bool {
    key_lt(keys[i], keys[j]) || (keys[i] == keys[j] && i < j)
}

/// Index `i` occurs somewhere in `order`.
pub open spec fn occurs_in(order: Seq<usize>, i: int) -> bool {
    exists|p: int| 0 <= p < order.len() && order[p] == i
}

/// `order` lists every index of `keys` exactly once, in the order of a
/// stable sort by key.
pub open spec fn is_stable_sort_order(keys: Seq<(int, int)>, order: Seq<usize>) -> bool {
    &&& order.len() == keys.len()
    &&& forall|p: int| 0 <= p < order.len() ==> #[trigger] order[p] < keys.len()
    &&& forall|i: int| 0 <= i < keys.len() ==> #[trigger] occurs_in(order, i)
    &&& forall|p: int, q: int|
        0 <= p < q < order.len() ==> goes_before(keys, #[trigger] order[p] as int, #[trigger] order[q] as int)
}

/// The keys of a vector of machine pairs, read as integers.
pub open spec fn int_keys(keys: Seq<(i128, i128)>) -> Seq<(int, int)> {
    keys.map_values(|k: (i128, i128)| (k.0 as int, k.1 as int))
}

/// Stable sorting has exactly one outcome: two orders that both sort the
/// same keys stably are equal.
pub proof fn lemma_stable_sort_order_unique(keys: Seq<(int, int)>, a: Seq<usize>, b: Seq<usize>)
    requires
        is_stable_sort_order(keys, a),
        is_stable_sort_order(keys, b),
    ensures
        a == b,
{
    assert forall|p: int| 0 <= p < a.len() implies a[p] == b[p] by {
        if a[p] != b[p] {
            let first = choose|d: int| 0 <= d < a.len() && a[d] != b[d] && forall|e: int|
                0 <= e < d ==> a[e] == b[e];
            lemma_first_difference(a, b, p);
            let x = a[first];
            let y = b[first];
            assert(occurs_in(b, x as int));
            assert(occurs_in(a, y as int));
            let qx = choose|q: int| 0 <= q < b.len() && b[q] == x;
            let qy = choose|q: int| 0 <= q < a.len() && a[q] == y;
            assert(a[first] < keys.len());
            assert(b[first] < keys.len());
            assert(b[qx] == x);
            assert(a[qy] == y);
            if qx < first {
                assert(a[qx] == b[qx]);
                assert(goes_before(keys, a[qx] as int, a[first] as int));
            } else if qy < first {
                assert(b[qy] == a[qy]);
                assert(goes_before(keys, b[qy] as int, b[first] as int));
            } else {
                assert(qx > first);
                assert(qy > first);
                assert(goes_before(keys, b[first] as int, b[qx] as int));
                assert(goes_before(keys, a[first] as int, a[qy] as int));
            }
        }
    }
    assert(a =~= b);
}

/// A stable sort order lists the keys in ascending lexicographic order.
pub proof fn lemma_stable_sort_keys_ascending(keys: Seq<(int, int)>, order: Seq<usize>)
    requires
        is_stable_sort_order(keys, order),
    ensures
        forall|p: int, q: int|
            0 <= p < q < order.len() ==> !key_lt(
                keys[#[trigger] order[q] as int],
                keys[#[trigger] order[p] as int],
            ),
{
}

/// Where two sequences of equal length differ, there is a first place
/// where they do.
proof fn lemma_first_difference(a: Seq<usize>, b: Seq<usize>, p: int)
    requires
        a.len() == b.len(),
        0 <= p < a.len(),
        a[p] != b[p],
    ensures
        exists|d: int| 0 <= d < a.len() && a[d] != b[d] && forall|e: int| 0 <= e < d ==> a[e] == b[e],
    decreases p,
{
    if exists|e: int| 0 <= e < p && a[e] != b[e] {
        let e = choose|e: int| 0 <= e < p && a[e] != b[e];
        lemma_first_difference(a, b, e);
    } else {
        assert(forall|e: int| 0 <= e < p ==> a[e] == b[e]);
    }
}

/// The indices of `keys` in the order of a stable sort by key.
pub fn stable_sort_order(keys: &Vec<(i128, i128)>) -> (order: Vec<usize>)
    ensures
        is_stable_sort_order(int_keys(keys@), order@),
{
    let ghost ks = int_keys(keys@);
    let n = keys.len();
    let mut order: Vec<usize> = Vec::new();
    let mut k: usize = 0;
    while k < n
        invariant
            n == keys.len(),
            ks == int_keys(keys@),
            k <= n,
            order.len() == k,
            forall|p: int| 0 <= p < order.len() ==> #[trigger] order@[p] < k,
            forall|i: int| 0 <= i < k ==> #[trigger] occurs_in(order@, i),
            forall|p: int, q: int|
                0 <= p < q < order.len() ==> goes_before(ks, #[trigger] order@[p] as int, #[trigger] order@[q] as int),
        decreases n - k,
    {
        let kk = keys[k];
        let mut pos: usize = 0;
        while pos < order.len() && !(kk.0 < keys[order[pos]].0 || (kk.0 == keys[order[pos]].0 && kk.1 < keys[order[pos]].1))
            invariant
                n == keys.len(),
                ks == int_keys(keys@),
                k < n,
                kk == keys@[k as int],
                order.len() == k,
                pos <= order.len(),
                forall|p: int| 0 <= p < order.len() ==> #[trigger] order@[p] < k,
                forall|p: int| 0 <= p < pos ==> !key_lt(ks[k as int], ks[#[trigger] order@[p] as int]),
            decreases order.len() - pos,
        {
            pos = pos + 1;
        }
        let ghost old_order = order@;
        proof {
            assert(pos < order.len() ==> key_lt(ks[k as int], ks[order@[pos as int] as int]));
        }
        order.insert(pos, k);
        proof {
            old_order.insert_ensures(pos as int, k);
            assert forall|p: int| 0 <= p < order.len() implies #[trigger] order@[p] < k + 1 by {
                if p < pos {
                    assert(order@[p] == old_order[p]);
                } else if p > pos {
                    assert(order@[p] == old_order[p - 1]);
                }
            }
            assert forall|i: int| 0 <= i < k + 1 implies #[trigger] occurs_in(order@, i) by {
                if i == k {
                    assert(order@[pos as int] == i);
                } else {
                    assert(occurs_in(old_order, i));
                    let p0 = choose|p: int| 0 <= p < old_order.len() && old_order[p] == i;
                    if p0 < pos {
                        assert(order@[p0] == i);
                    } else {
                        assert(order@[p0 + 1] == i);
                    }
                }
            }
            assert forall|p: int, q: int| 0 <= p < q < order.len() implies goes_before(
                ks,
                #[trigger] order@[p] as int,
                #[trigger] order@[q] as int,
            ) by {
                if q < pos {
                    assert(order@[p] == old_order[p]);
                    assert(order@[q] == old_order[q]);
                } else if q == pos {
                    assert(order@[p] == old_order[p]);
                    assert(old_order[p] < k);
                    assert(!key_lt(ks[k as int], ks[old_order[p] as int]));
                } else if p < pos {
                    assert(order@[p] == old_order[p]);
                    assert(order@[q] == old_order[q - 1]);
                } else if p == pos {
                    assert(order@[q] == old_order[q - 1]);
                    assert(old_order[q - 1] < k);
                    if q - 1 > pos {
                        assert(goes_before(ks, old_order[pos as int] as int, old_order[q - 1] as int));
                    }
                } else {
                    assert(order@[p] == old_order[p - 1]);
                    assert(order@[q] == old_order[q - 1]);
                }
            }
        }
        k = k + 1;
    }
    order
}

} // verus!
