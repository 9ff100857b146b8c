use vstd::prelude::*;
use crate::order::{TotalOrder, sorted, lemma_sorted_pairwise};

verus! {

/// Exchanges the elements at positions `x` and `y` of `v`, leaving every
/// other position untouched. The exchange moves both elements through
/// ownership transfer out of and back into the buffer; no element is ever
/// duplicated or dropped.
fn swap_in_place<T>(v: &mut Vec<T>, x: usize, y: usize)
    requires
        x < y < old(v)@.len(),
    ensures
        final(v)@ == old(v)@.update(x as int, old(v)@[y as int]).update(
            y as int,
            old(v)@[x as int],
        ),
        final(v)@.to_multiset() == old(v)@.to_multiset(),
{
    let ghost s0 = v@;
    let elem_y = v.remove(y);
    let elem_x = v.remove(x);
    v.insert(x, elem_y);
    v.insert(y, elem_x);
    proof {
        broadcast use vstd::seq_lib::group_to_multiset_ensures;
        broadcast use vstd::multiset::group_multiset_axioms;

        let t = s0.update(x as int, s0[y as int]).update(y as int, s0[x as int]);
        assert(v@ =~= t);
        assert(s0.contains(s0[y as int]));
        assert(s0.remove(y as int)[x as int] == s0[x as int]);
        assert(s0.remove(y as int).contains(s0[x as int]));
        assert forall|z: T| v@.to_multiset().count(z) == s0.to_multiset().count(z) by {
        }
        assert(v@.to_multiset() =~= s0.to_multiset());
    }
}

/// Selection sort: returns the same elements in non-descending order.
///
/// The buffer is taken by value and handed back reordered. The result is a
/// permutation of the input, and an already-sorted buffer comes back
/// element-for-element unchanged (no exchange ever fires on it). Unlike
/// insertion sort, an exchange may reorder equal elements, so no stability
/// is promised.
pub fn selection_sort<T: TotalOrder>(input: Vec<T>) -> (r: Vec<T>)
    ensures
        sorted(r@),
        r@.len() == input@.len(),
        r@.to_multiset() == input@.to_multiset(),
        sorted(input@) ==> r@ == input@,
{
    let mut a = input;
    let n: usize = a.len();
    if n <= 1 {
        return a;
    }
    let mut j: usize = 0;
    while j < n - 1
        invariant
            j <= n - 1,
            2 <= n,
            a@.len() == n,
            n == input@.len(),
            sorted(a@.subrange(0, j as int)),
            forall|p: int, q: int| #![trigger a@[p], a@[q]]
                0 <= p < j <= q < n ==> a@[p].le_spec(a@[q]),
            a@.to_multiset() == input@.to_multiset(),
            sorted(input@) ==> a@ == input@,
        decreases n - j,
    {
        let ghost s0 = a@;
        proof {
            T::lemma_total(s0[j as int], s0[j as int]);
        }
        let mut smallest: usize = j;
        let mut i: usize = j + 1;
        while i < n
            invariant
                j <= smallest < i <= n,
                j + 1 <= i,
                a@ == s0,
                a@.len() == n,
                forall|k: int| j <= k < i ==> a@[smallest as int].le_spec(#[trigger] a@[k]),
                sorted(a@) ==> smallest == j,
            decreases n - i,
        {
            if !a[smallest].le(&a[i]) {
                proof {
                    T::lemma_total(a@[smallest as int], a@[i as int]);
                    assert forall|k: int| j <= k < i + 1 implies a@[i as int].le_spec(
                        #[trigger] a@[k],
                    ) by {
                        if k < i {
                            T::lemma_transitive(a@[i as int], a@[smallest as int], a@[k]);
                        } else {
                            T::lemma_total(a@[i as int], a@[i as int]);
                        }
                    }
                    if sorted(a@) {
                        lemma_sorted_pairwise(a@, smallest as int, i as int);
                        assert(false);
                    }
                }
                smallest = i;
            }
            i = i + 1;
        }
        if smallest != j {
            let ghost sm = smallest as int;
            swap_in_place(&mut a, j, smallest);
            proof {
                assert forall|p: int, q: int| #![trigger a@[p], a@[q]]
                    0 <= p < j + 1 <= q < n implies a@[p].le_spec(a@[q]) by {
                    assert(a@[p] == (if p == j { s0[sm] } else { s0[p] }));
                    assert(a@[q] == (if q == sm {
                        s0[j as int]
                    } else {
                        s0[q]
                    }));
                }
                let u = a@.subrange(0, (j + 1) as int);
                assert forall|m: int| 0 <= m && m + 1 < u.len() implies (#[trigger] u[m]).le_spec(
                    u[m + 1],
                ) by {
                    assert(u[m] == a@[m] && a@[m] == s0[m]);
                    assert(u[m + 1] == a@[m + 1]);
                    if m + 1 < j {
                        assert(s0.subrange(0, j as int)[m] == s0[m]);
                        assert(s0.subrange(0, j as int)[m + 1] == s0[m + 1]);
                    } else {
                        assert(a@[m + 1] == s0[sm]);
                    }
                }
                assert(sorted(u));
            }
        } else {
            proof {
                let u = a@.subrange(0, (j + 1) as int);
                assert forall|m: int| 0 <= m && m + 1 < u.len() implies (#[trigger] u[m]).le_spec(
                    u[m + 1],
                ) by {
                    assert(u[m] == a@[m]);
                    assert(u[m + 1] == a@[m + 1]);
                    if m + 1 < j {
                        assert(s0.subrange(0, j as int)[m] == s0[m]);
                        assert(s0.subrange(0, j as int)[m + 1] == s0[m + 1]);
                    }
                }
                assert(sorted(u));
            }
        }
        j = j + 1;
    }
    proof {
        assert forall|m: int| 0 <= m && m + 1 < n implies (#[trigger] a@[m]).le_spec(
            a@[m + 1],
        ) by {
            if m + 1 < n - 1 {
                assert(a@.subrange(0, (n - 1) as int)[m] == a@[m]);
                assert(a@.subrange(0, (n - 1) as int)[m + 1] == a@[m + 1]);
            }
        }
    }
    a
}

} // verus!
