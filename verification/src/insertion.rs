use vstd::prelude::*;
use crate::order::{TotalOrder, sorted, eqv, class_of, lemma_sorted_pairwise};

verus! {

/// The sequence after one insertion pass: the element at `j` is lifted out
/// and written back at position `i`, shifting what lies between one slot to
/// the right.
spec fn shifted<T>(s: Seq<T>, i: int, j: int) -> Seq<T> {
    s.remove(j).insert(i, s[j])
}

/// Where each position of `shifted(s, i, j)` gets its element from.
proof fn lemma_shifted_index<T>(s: Seq<T>, i: int, j: int)
    requires
        0 <= i <= j < s.len(),
    ensures
        shifted(s, i, j).len() == s.len(),
        forall|m: int| 0 <= m < i ==> #[trigger] shifted(s, i, j)[m] == s[m],
        shifted(s, i, j)[i] == s[j],
        forall|m: int| i < m <= j ==> #[trigger] shifted(s, i, j)[m] == s[m - 1],
        forall|m: int| j < m < s.len() ==> #[trigger] shifted(s, i, j)[m] == s[m],
{
}

/// A sequence none of whose elements are equivalent to `x` has an empty
/// `x`-class.
proof fn lemma_class_of_none<T: TotalOrder>(s: Seq<T>, x: T)
    requires
        forall|k: int| 0 <= k < s.len() ==> !eqv(#[trigger] s[k], x),
    ensures
        class_of(s, x) == Seq::<T>::empty(),
    decreases s.len(),
{
    reveal(Seq::filter);
    if s.len() == 0 {
        assert(class_of(s, x) =~= Seq::<T>::empty());
    } else {
        lemma_class_of_none(s.drop_last(), x);
        assert(!eqv(s.last(), x));
    }
}

/// The `x`-class of a one-element sequence.
proof fn lemma_class_of_singleton<T: TotalOrder>(y: T, x: T)
    ensures
        class_of(seq![y], x) == (if eqv(y, x) { seq![y] } else { Seq::<T>::empty() }),
{
    reveal(Seq::filter);
    let s = seq![y];
    lemma_class_of_none(s.drop_last(), x);
    assert(s.last() == y);
    if eqv(y, x) {
        assert(class_of(s, x) =~= seq![y]);
    } else {
        assert(class_of(s, x) =~= Seq::<T>::empty());
    }
}

/// After a pass that moves `s[j]` down to position `i`, the prefix up to and
/// including position `j` is sorted.
proof fn lemma_pass_sorted<T: TotalOrder>(s: Seq<T>, i: int, j: int)
    requires
        0 <= i <= j < s.len(),
        sorted(s.subrange(0, j)),
        forall|k: int| i <= k < j ==> !(#[trigger] s[k]).le_spec(s[j]),
        i > 0 ==> s[i - 1].le_spec(s[j]),
    ensures
        sorted(shifted(s, i, j).subrange(0, j + 1)),
{
    lemma_shifted_index(s, i, j);
    let t = shifted(s, i, j);
    let u = t.subrange(0, j + 1);
    assert forall|m: int| 0 <= m && m + 1 < u.len() implies (#[trigger] u[m]).le_spec(u[m + 1]) by {
        if m + 1 < i {
            assert(s.subrange(0, j)[m] == s[m]);
            assert(s.subrange(0, j)[m + 1] == s[m + 1]);
        } else if m + 1 == i {
            assert(u[m] == s[m]);
            assert(u[m + 1] == s[j]);
        } else if m == i {
            assert(!(s[i]).le_spec(s[j]));
            T::lemma_total(s[i], s[j]);
        } else {
            assert(s.subrange(0, j)[m - 1] == s[m - 1]);
            assert(s.subrange(0, j)[m] == s[m]);
        }
    };
}

/// A pass permutes the buffer: the multiset of elements is unchanged.
proof fn lemma_pass_multiset<T>(s: Seq<T>, i: int, j: int)
    requires
        0 <= i <= j < s.len(),
    ensures
        shifted(s, i, j).to_multiset() == s.to_multiset(),
{
    broadcast use vstd::seq_lib::group_to_multiset_ensures;
    broadcast use vstd::multiset::group_multiset_axioms;

    assert(s.contains(s[j]));
    assert(shifted(s, i, j).to_multiset() == s.to_multiset().remove(s[j]).insert(s[j]));
    assert forall|z: T|
        s.to_multiset().remove(s[j]).insert(s[j]).count(z) == s.to_multiset().count(z) by {
    };
    assert(s.to_multiset().remove(s[j]).insert(s[j]) =~= s.to_multiset());
}

/// A pass that only jumps over elements strictly above the key keeps every
/// equivalence class in its original order: the step is stable.
proof fn lemma_pass_classes<T: TotalOrder>(s: Seq<T>, i: int, j: int)
    requires
        0 <= i <= j < s.len(),
        forall|k: int| i <= k < j ==> !(#[trigger] s[k]).le_spec(s[j]),
    ensures
        forall|x: T| #[trigger] class_of(shifted(s, i, j), x) == class_of(s, x),
{
    broadcast use vstd::seq_lib::group_seq_lib_default;

    let t = shifted(s, i, j);
    let aa = s.subrange(0, i);
    let bb = s.subrange(i, j);
    let kk = seq![s[j]];
    let cc = s.subrange(j + 1, s.len() as int);
    assert(s =~= aa + (bb + (kk + cc)));
    assert(t =~= aa + (kk + (bb + cc)));
    assert forall|x: T| #[trigger] class_of(t, x) == class_of(s, x) by {
        let ca = class_of(aa, x);
        let cb = class_of(bb, x);
        let ck = class_of(kk, x);
        let cc2 = class_of(cc, x);
        assert(class_of(s, x) == ca + (cb + (ck + cc2)));
        assert(class_of(t, x) == ca + (ck + (cb + cc2)));
        if eqv(s[j], x) {
            assert forall|k2: int| 0 <= k2 < bb.len() implies !eqv(#[trigger] bb[k2], x) by {
                assert(bb[k2] == s[i + k2]);
                if eqv(bb[k2], x) {
                    T::lemma_transitive(s[i + k2], x, s[j]);
                }
            };
            lemma_class_of_none(bb, x);
            assert(cb + (ck + cc2) =~= ck + (cb + cc2));
        } else {
            lemma_class_of_singleton(s[j], x);
            assert(ck == Seq::<T>::empty());
            assert(cb + (ck + cc2) =~= ck + (cb + cc2));
        }
    };
}

/// On a sorted buffer a pass changes nothing: the scan cannot have jumped
/// over any element, and putting the key back where it was is the identity.
proof fn lemma_pass_identity<T: TotalOrder>(s: Seq<T>, i: int, j: int)
    requires
        0 <= i <= j < s.len(),
        sorted(s),
        forall|k: int| i <= k < j ==> !(#[trigger] s[k]).le_spec(s[j]),
    ensures
        shifted(s, i, j) == s,
{
    if i < j {
        lemma_sorted_pairwise(s, i, j);
        assert(false);
    }
    lemma_shifted_index(s, i, j);
    assert(shifted(s, i, j) =~= s);
}

/// Insertion sort: returns the same elements in non-descending order.
///
/// The buffer is taken by value and handed back reordered. The result is a
/// permutation of the input, every equivalence class of the order keeps its
/// original internal order (the sort is stable), and an already-sorted
/// buffer comes back element-for-element unchanged.
pub fn insertion_sort<T: TotalOrder>(input: Vec<T>) -> (r: Vec<T>)
    ensures
        sorted(r@),
        r@.len() == input@.len(),
        r@.to_multiset() == input@.to_multiset(),
        forall|x: T| #[trigger] class_of(r@, x) == class_of(input@, x),
        sorted(input@) ==> r@ == input@,
{
    let mut a = input;
    let n: usize = a.len();
    if n <= 1 {
        return a;
    }
    let mut j: usize = 1;
    while j < n
        invariant
            1 <= j <= n,
            a@.len() == n,
            n == input@.len(),
            sorted(a@.subrange(0, j as int)),
            a@.to_multiset() == input@.to_multiset(),
            forall|x: T| #[trigger] class_of(a@, x) == class_of(input@, x),
            sorted(input@) ==> a@ == input@,
        decreases n - j,
    {
        let ghost s0 = a@;
        let mut i: usize = j;
        while i > 0 && !a[i - 1].le(&a[j])
            invariant
                i <= j,
                j < n,
                a@ == s0,
                a@.len() == n,
                forall|k: int| i <= k < j ==> !(#[trigger] a@[k]).le_spec(a@[j as int]),
            decreases i,
        {
            i = i - 1;
        }
        let key = a.remove(j);
        a.insert(i, key);
        proof {
            assert(a@ == shifted(s0, i as int, j as int));
            lemma_shifted_index(s0, i as int, j as int);
            lemma_pass_sorted(s0, i as int, j as int);
            lemma_pass_multiset(s0, i as int, j as int);
            lemma_pass_classes(s0, i as int, j as int);
            if sorted(input@) {
                lemma_pass_identity(s0, i as int, j as int);
            }
        }
        j = j + 1;
    }
    proof {
        assert(a@.subrange(0, n as int) =~= a@);
    }
    a
}

} // verus!
