//! A specification-level view of `PartialOrd` comparisons.
//!
//! Contracts in this crate speak of `partial_cmp_spec`, the specification
//! that `vstd` attaches to `PartialOrd::partial_cmp`. A partial order may
//! leave some pairs of values incomparable, so guarantees that depend on
//! ordering hold under the hypothesis `total_preorder_on`: the comparison
//! restricts to a total preorder on the values actually involved.

use core::cmp::Ordering;
use vstd::prelude::*;
use vstd::std_specs::cmp::PartialOrdSpec;

verus! {

/// `a` compares strictly below `b`.
pub open spec fn lt_spec<T: PartialOrd>(a: T, b: T) -> bool {
    a.partial_cmp_spec(&b) == Some(Ordering::Less)
}

/// `a` compares below `b`, or the two compare as equal.
pub open spec fn le_spec<T: PartialOrd>(a: T, b: T) -> bool {
    a.partial_cmp_spec(&b) matches Some(Ordering::Less | Ordering::Equal)
}

/// The comparison restricts to a total preorder on the elements of `s`:
/// every pair of elements compares to some outcome, the two directions of
/// a comparison agree, and `le_spec` is transitive.
pub open spec fn total_preorder_on<T: PartialOrd>(s: Seq<T>) -> bool {
    &&& (forall|a: T, b: T|
        #![trigger s.contains(a), s.contains(b)]
        s.contains(a) && s.contains(b) ==> {
            &&& a.partial_cmp_spec(&b) is Some
            &&& (a.partial_cmp_spec(&b) == Some(Ordering::Less) <==> b.partial_cmp_spec(&a)
                == Some(Ordering::Greater))
            &&& (a.partial_cmp_spec(&b) == Some(Ordering::Equal) <==> b.partial_cmp_spec(&a)
                == Some(Ordering::Equal))
        })
    &&& (forall|a: T, b: T, c: T|
        #![trigger s.contains(a), s.contains(b), s.contains(c)]
        s.contains(a) && s.contains(b) && s.contains(c) && le_spec(a, b) && le_spec(b, c)
            ==> le_spec(a, c))
}

/// No two elements of `s` at different positions compare as equal.
pub open spec fn pairwise_distinct<T: PartialOrd>(s: Seq<T>) -> bool {
    forall|i: int, j: int|
        #![trigger s[i], s[j]]
        0 <= i < j < s.len() ==> s[i].partial_cmp_spec(&s[j]) != Some(Ordering::Equal)
}

/// A total preorder restricts to every subset: a sequence drawn from the
/// elements of a totally preordered sequence is itself totally preordered.
pub proof fn lemma_total_preorder_on_subset<T: PartialOrd>(big: Seq<T>, small: Seq<T>)
    requires
        total_preorder_on(big),
        forall|k: int| 0 <= k < small.len() ==> big.contains(#[trigger] small[k]),
    ensures
        total_preorder_on(small),
{
    assert forall|a: T, b: T|
        #![trigger small.contains(a), small.contains(b)]
        small.contains(a) && small.contains(b) implies {
        &&& a.partial_cmp_spec(&b) is Some
        &&& (a.partial_cmp_spec(&b) == Some(Ordering::Less) <==> b.partial_cmp_spec(&a)
            == Some(Ordering::Greater))
        &&& (a.partial_cmp_spec(&b) == Some(Ordering::Equal) <==> b.partial_cmp_spec(&a)
            == Some(Ordering::Equal))
    } by {
        let ia = choose|i: int| 0 <= i < small.len() && small[i] == a;
        let ib = choose|i: int| 0 <= i < small.len() && small[i] == b;
        assert(big.contains(small[ia]));
        assert(big.contains(small[ib]));
    }
    assert forall|a: T, b: T, c: T|
        #![trigger small.contains(a), small.contains(b), small.contains(c)]
        small.contains(a) && small.contains(b) && small.contains(c) && le_spec(a, b)
            && le_spec(b, c) implies le_spec(a, c) by {
        let ia = choose|i: int| 0 <= i < small.len() && small[i] == a;
        let ib = choose|i: int| 0 <= i < small.len() && small[i] == b;
        let ic = choose|i: int| 0 <= i < small.len() && small[i] == c;
        assert(big.contains(small[ia]));
        assert(big.contains(small[ib]));
        assert(big.contains(small[ic]));
    }
}

/// Under a total preorder, every element compares below or equal to itself.
pub proof fn lemma_le_refl<T: PartialOrd>(s: Seq<T>, a: T)
    requires
        total_preorder_on(s),
        s.contains(a),
    ensures
        le_spec(a, a),
{
}

/// Under a total preorder, a failed strict comparison in one direction
/// gives `le_spec` in the other direction.
pub proof fn lemma_not_lt_le<T: PartialOrd>(s: Seq<T>, a: T, b: T)
    requires
        total_preorder_on(s),
        s.contains(a),
        s.contains(b),
        !lt_spec(a, b),
    ensures
        le_spec(b, a),
{
}

/// `le_spec` is transitive on the elements of a totally preordered set.
pub proof fn lemma_le_trans<T: PartialOrd>(s: Seq<T>, a: T, b: T, c: T)
    requires
        total_preorder_on(s),
        s.contains(a),
        s.contains(b),
        s.contains(c),
        le_spec(a, b),
        le_spec(b, c),
    ensures
        le_spec(a, c),
{
}

} // verus!
