//! Reordering a slice in place by a permutation, following its cycles.
use vstd::prelude::*;

use crate::node::ArenaIndex;

verus! {

/// `p` maps positions `0..p.len()` one to one onto positions `0..p.len()`.
pub open spec fn is_permutation(p: Seq<ArenaIndex>) -> bool {
    &&& forall|i: int| 0 <= i < p.len() ==> #[trigger] p[i].0 < p.len()
    &&& forall|i: int, j: int| 0 <= i < p.len() && 0 <= j < p.len() && i != j ==> #[trigger] p[i] != #[trigger] p[j]
}

/// The sequence that a plain allocate-and-copy reorder produces: position `k`
/// receives the element found at `order[k]`.
pub open spec fn reordered<T>(data: Seq<T>, order: Seq<ArenaIndex>) -> Seq<T> {
    Seq::new(order.len(), |k: int| data[order[k].0 as int])
}

/// Relies on `slice::swap`: the elements at `a` and `b` trade places.
#[verifier::external_body]
fn swap_elements<T>(data: &mut [T], a: usize, b: usize)
    requires
        a < old(data)@.len(),
        b < old(data)@.len(),
    ensures
        final(data)@ == old(data)@.update(a as int, old(data)@[b as int]).update(
            b as int,
            old(data)@[a as int],
        ),
{
    data.swap(a, b)
}

spec fn settled(ind: Seq<ArenaIndex>, j: int) -> bool {
    ind[j].0 == j
}

/// Number of positions below `m` that are not yet in their final place.
spec fn unsettled_count(ind: Seq<ArenaIndex>, m: int) -> nat
    decreases m,
{
    if m <= 0 {
        0
    } else {
        unsettled_count(ind, m - 1) + if ind[m - 1].0 != m - 1 {
            1nat
        } else {
            0nat
        }
    }
}

/// Position `k` is the image of a position that is already settled.
spec fn has_settled_preimage(ind: Seq<ArenaIndex>, p: Seq<ArenaIndex>, k: int) -> bool {
    exists|j: int| #![trigger p[j]] 0 <= j < ind.len() && ind[j].0 == j && p[j].0 == k
}

proof fn lemma_unsettled_step(ind: Seq<ArenaIndex>, c: usize, m: int)
    requires
        c < ind.len(),
        ind[c as int].0 != c,
        m <= ind.len(),
    ensures
        c < m ==> unsettled_count(ind.update(c as int, ArenaIndex(c)), m) + 1 == unsettled_count(ind, m),
        c >= m ==> unsettled_count(ind.update(c as int, ArenaIndex(c)), m) == unsettled_count(ind, m),
    decreases m,
{
    if m > 0 {
        lemma_unsettled_step(ind, c, m - 1);
        let ind2 = ind.update(c as int, ArenaIndex(c));
        assert(ind2[m - 1] == if m - 1 == c { ArenaIndex(c) } else { ind[m - 1] });
    }
}

proof fn lemma_preimage_kept(ind: Seq<ArenaIndex>, ind2: Seq<ArenaIndex>, p: Seq<ArenaIndex>, k: int)
    requires
        ind.len() == ind2.len(),
        forall|j: int| 0 <= j < ind.len() && ind[j].0 == j ==> ind2[j].0 == j,
        has_settled_preimage(ind, p, k),
    ensures
        has_settled_preimage(ind2, p, k),
{
    let j = choose|j: int| #![trigger p[j]] 0 <= j < ind.len() && ind[j].0 == j && p[j].0 == k;
    assert(ind2[j].0 == j && p[j].0 == k);
}

/// Reorders `data` in place so that position `k` receives the element that was
/// at `indices[k]`, in linear time and without a second buffer: each cycle of
/// the permutation is followed once, swapping as it goes and marking every
/// visited slot as settled, until the cycle closes.
pub fn sort_by_indices<T>(data: &mut [T], indices: Vec<ArenaIndex>)
    requires
        indices@.len() == old(data)@.len(),
        is_permutation(indices@),
    ensures
        final(data)@ == reordered(old(data)@, indices@),
{
    let ghost orig = data@;
    let ghost p = indices@;
    let mut indices = indices;
    let n = data.len();
    let mut idx: usize = 0;
    proof {
        assert forall|k: int| 0 <= k < n && settled(indices@, k) implies has_settled_preimage(indices@, p, k) by {
            assert(indices@[k].0 == k && p[k].0 == k);
        }
    }
    while idx < n
        invariant
            n == data@.len(),
            n == indices@.len(),
            p.len() == n,
            orig.len() == n,
            is_permutation(p),
            idx <= n,
            forall|j: int| 0 <= j < n ==> settled(indices@, j) || #[trigger] indices@[j] == p[j],
            forall|j: int| 0 <= j < n && !settled(indices@, j) ==> #[trigger] data@[j] == orig[j],
            forall|j: int| 0 <= j < n && settled(indices@, j) ==> #[trigger] data@[j] == orig[p[j].0 as int],
            forall|k: int| 0 <= k < n && settled(indices@, k) ==> has_settled_preimage(indices@, p, k),
            forall|j: int| 0 <= j < idx ==> settled(indices@, j),
        decreases n - idx,
    {
        if indices[idx].0 != idx {
            let ghost start = idx as int;
            let mut current: usize = idx;
            assert(indices@[start] == p[start]);
            loop
                invariant_except_break
                    current < n,
                    !settled(indices@, current as int),
                    indices@[current as int] == p[current as int],
                    data@[current as int] == orig[start],
                    current != start ==> settled(indices@, start),
                    current == start ==> !settled(indices@, start),
                    forall|j: int| 0 <= j < n ==> settled(indices@, j) || #[trigger] indices@[j] == p[j],
                    forall|j: int|
                        0 <= j < n && !settled(indices@, j) && j != current ==> #[trigger] data@[j] == orig[j],
                    forall|j: int| 0 <= j < n && settled(indices@, j) ==> #[trigger] data@[j] == orig[p[j].0 as int],
                    forall|k: int|
                        0 <= k < n && settled(indices@, k) && k != start ==> has_settled_preimage(indices@, p, k),
                    current != start ==> has_settled_preimage(indices@, p, current as int),
                    forall|j: int| 0 <= j < idx ==> settled(indices@, j),
                invariant
                    n == data@.len(),
                    n == indices@.len(),
                    p.len() == n,
                    orig.len() == n,
                    is_permutation(p),
                    idx < n,
                    start == idx,
                ensures
                    n == data@.len(),
                    n == indices@.len(),
                    forall|j: int| 0 <= j < n ==> settled(indices@, j) || #[trigger] indices@[j] == p[j],
                    forall|j: int| 0 <= j < n && !settled(indices@, j) ==> #[trigger] data@[j] == orig[j],
                    forall|j: int| 0 <= j < n && settled(indices@, j) ==> #[trigger] data@[j] == orig[p[j].0 as int],
                    forall|k: int| 0 <= k < n && settled(indices@, k) ==> has_settled_preimage(indices@, p, k),
                    forall|j: int| 0 <= j <= idx ==> settled(indices@, j),
                decreases unsettled_count(indices@, n as int),
            {
                let target = indices[current];
                let ghost before = indices@;
                indices[current] = ArenaIndex(current);
                proof {
                    lemma_unsettled_step(before, current, n as int);
                    assert forall|k: int| 0 <= k < n && settled(before, k) && k != start implies has_settled_preimage(
                        indices@,
                        p,
                        k,
                    ) by {
                        lemma_preimage_kept(before, indices@, p, k);
                    }
                    if current != start {
                        lemma_preimage_kept(before, indices@, p, current as int);
                    }
                }
                if indices[target.0].0 == target.0 {
                    proof {
                        let t = target.0 as int;
                        if t != start {
                            assert(settled(before, t));
                            let j = choose|j: int| #![trigger p[j]] 0 <= j < n && before[j].0 == j && p[j].0 == t;
                            assert(p[j] == p[current as int]);
                        }
                        assert(t == start);
                        assert(current != start);
                        assert(settled(before, start));
                        assert(settled(indices@, start));
                        assert forall|j: int| 0 <= j <= idx implies settled(indices@, j) by {
                            if j < idx {
                                assert(settled(before, j));
                            }
                        }
                        assert(has_settled_preimage(indices@, p, start)) by {
                            assert(indices@[current as int].0 == current && p[current as int].0 == start);
                        }
                    }
                    break;
                }
                swap_elements(data, current, target.0);
                proof {
                    let t = target.0 as int;
                    assert(has_settled_preimage(indices@, p, t)) by {
                        assert(indices@[current as int].0 == current && p[current as int].0 == t);
                    }
                }
                current = target.0;
            }
        }
        idx += 1;
    }
    proof {
        assert(data@ =~= reordered(orig, p));
    }
}

} // verus!
