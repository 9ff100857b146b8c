use vstd::prelude::*;

verus! {

/// The comparison capability that the sorting algorithms require of their
/// element type: a total preorder.
///
/// `le_spec` is the order itself, as a mathematical relation; `le` is its
/// executable form. Totality and transitivity are proof obligations on every
/// implementor. Antisymmetry is deliberately not required: two elements may
/// sit at the same position in the order and still be distinguishable (carry
/// different tags), which is what makes stability a meaningful promise.
pub trait TotalOrder: Sized {
    /// `self` comes no later than `other` in the order.
    spec fn le_spec(self, other: Self) -> bool;

    /// Any two elements are comparable.
    proof fn lemma_total(a: Self, b: Self)
        ensures
            a.le_spec(b) || b.le_spec(a),
    ;

    /// The order is transitive.
    proof fn lemma_transitive(a: Self, b: Self, c: Self)
        requires
            a.le_spec(b),
            b.le_spec(c),
        ensures
            a.le_spec(c),
    ;

    /// Executable comparison, answering `self.le_spec(*other)`.
    fn le(&self, other: &Self) -> (r: bool)
        ensures
            r == self.le_spec(*other),
    ;
}

/// `s` is in non-descending order: every adjacent pair is ordered.
pub open spec fn sorted<T: TotalOrder>(s: Seq<T>) -> bool {
    forall|i: int| 0 <= i && i + 1 < s.len() ==> (#[trigger] s[i]).le_spec(s[i + 1])
}

/// `a` and `b` occupy the same position in the order.
pub open spec fn eqv<T: TotalOrder>(a: T, b: T) -> bool {
    a.le_spec(b) && b.le_spec(a)
}

/// The subsequence of `s` whose elements are equivalent to `x`, in the order
/// they appear in `s`. A stable sort leaves this subsequence unchanged for
/// every `x`.
pub open spec fn class_of<T: TotalOrder>(s: Seq<T>, x: T) -> Seq<T> {
    s.filter(|e: T| eqv(e, x))
}

/// In a sorted sequence, any earlier element is below any later one, not only
/// its neighbour.
pub proof fn lemma_sorted_pairwise<T: TotalOrder>(s: Seq<T>, i: int, j: int)
    requires
        sorted(s),
        0 <= i <= j < s.len(),
    ensures
        s[i].le_spec(s[j]),
    decreases j - i,
{
    if i == j {
        T::lemma_total(s[i], s[j]);
    } else {
        lemma_sorted_pairwise(s, i, j - 1);
        assert(s[j - 1].le_spec(s[j]));
        T::lemma_transitive(s[i], s[j - 1], s[j]);
    }
}

impl TotalOrder for i32 {
    open spec fn le_spec(self, other: Self) -> bool {
        self <= other
    }

    proof fn lemma_total(a: Self, b: Self) {
    }

    proof fn lemma_transitive(a: Self, b: Self, c: Self) {
    }

    fn le(&self, other: &Self) -> (r: bool) {
        *self <= *other
    }
}

/// An element with a sort key and a tag that the order ignores.
///
/// Two values with equal keys are equivalent in the order yet remain
/// distinguishable, so a caller can observe whether a sort is stable.
#[derive(Clone, Copy, PartialEq, Eq, Structural, Debug)]
pub struct Tagged {
    pub key: i32,
    pub tag: u32,
}

impl TotalOrder for Tagged {
    open spec fn le_spec(self, other: Self) -> bool {
        self.key <= other.key
    }

    proof fn lemma_total(a: Self, b: Self) {
    }

    proof fn lemma_transitive(a: Self, b: Self, c: Self) {
    }

    fn le(&self, other: &Self) -> (r: bool) {
        self.key <= other.key
    }
}

} // verus!
