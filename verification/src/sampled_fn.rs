//! A univariate function given by finitely many samples.
//!
//! The samples are coordinate pairs, sorted non-decreasing by their
//! x-values at construction and immutable afterwards. The one query,
//! `search_interval`, locates the sampling interval that brackets a
//! query value.

use core::cmp::Ordering;
use vstd::pervasive::VecAdditionalExecFns;
use vstd::prelude::*;
use vstd::std_specs::cmp::PartialOrdSpec;

use crate::order::{le_spec, lemma_le_refl, lemma_le_trans, lemma_not_lt_le,
    lemma_total_preorder_on_subset, lt_spec, pairwise_distinct, total_preorder_on};
use crate::point2::Point2;

verus! {

/// Why constructing a sampled function can fail.
#[derive(Clone, Copy, Debug, PartialEq, Eq, Structural)]
pub enum SampledFnError {
    /// The two coordinate arrays do not have the same length.
    InvalidArgument,
}

/// The coordinate pairs formed by aligning `args` with `values`
/// position by position.
pub open spec fn paired<T>(args: Seq<T>, values: Seq<T>) -> Seq<Point2<T>> {
    Seq::new(args.len(), |i: int| (Point2 { x: args[i], y: values[i] }))
}

/// The x-values of a coordinate sequence.
pub open spec fn xs_of<T>(coords: Seq<Point2<T>>) -> Seq<T> {
    coords.map_values(|p: Point2<T>| p.x)
}

/// The y-values of a coordinate sequence.
pub open spec fn ys_of<T>(coords: Seq<Point2<T>>) -> Seq<T> {
    coords.map_values(|p: Point2<T>| p.y)
}

/// The coordinates are sorted non-decreasing by their x-values.
pub open spec fn sorted_by_x<T: PartialOrd>(coords: Seq<Point2<T>>) -> bool {
    forall|a: int, b: int|
        #![trigger coords[a], coords[b]]
        0 <= a <= b < coords.len() ==> le_spec(coords[a].x, coords[b].x)
}

/// What construction guarantees: the stored coordinates are a reordering
/// of the aligned input pairs, and whenever `partial_cmp` follows its
/// specification and restricts to a total preorder on the supplied
/// x-values, they are sorted non-decreasing by x. With an undecided
/// comparison among the x-values (such as a floating-point `NaN`) the
/// resulting order is unspecified.
pub open spec fn from_samples<T: PartialOrd>(
    args: Seq<T>,
    values: Seq<T>,
    coords: Seq<Point2<T>>,
) -> bool {
    &&& coords.len() == args.len()
    &&& coords.to_multiset() == paired(args, values).to_multiset()
    &&& ((T::obeys_partial_cmp_spec() && total_preorder_on(args)) ==> sorted_by_x(coords))
}

/// What interval lookup returns for a query `x` on `coords`: `Some(i)`
/// exactly when `i + 1` is the position of the first coordinate whose
/// x-value is strictly above `x` and a lower bracketing sample exists;
/// `None` when `x` is below the first sample or no sample lies strictly
/// above it (in particular on an empty coordinate sequence).
pub open spec fn interval_lookup_post<T: PartialOrd>(
    coords: Seq<Point2<T>>,
    x: T,
    r: Option<usize>,
) -> bool {
    match r {
        Some(i) => {
            &&& 0 <= i + 1 < coords.len()
            &&& lt_spec(x, coords[i + 1].x)
            &&& (forall|j: int| 0 <= j <= i ==> !lt_spec(x, (#[trigger] coords[j]).x))
        },
        None => {
            ||| (forall|j: int|
                0 <= j < coords.len() ==> !lt_spec(x, (#[trigger] coords[j]).x))
            ||| (coords.len() > 0 && lt_spec(x, coords[0].x))
        },
    }
}

/// A univariate sampled function; the coordinates pair each x-value with
/// the function value taken there.
pub struct SampledFn<T> {
    coordinates: Vec<Point2<T>>,
}

impl<T> View for SampledFn<T> {
    type V = Seq<Point2<T>>;

    closed spec fn view(&self) -> Seq<Point2<T>> {
        self.coordinates@
    }
}

/// Sort the coordinates non-decreasing by their x-values, by insertion.
/// The contents are preserved exactly; the sorted order is guaranteed
/// whenever the comparison restricts to a total preorder on the x-values.
#[verifier::loop_isolation(false)]
fn sort_points_by_x<T: PartialOrd + Copy>(v: &mut Vec<Point2<T>>)
    ensures
        final(v)@.len() == old(v)@.len(),
        final(v)@.to_multiset() == old(v)@.to_multiset(),
        ((T::obeys_partial_cmp_spec() && total_preorder_on(xs_of(old(v)@)))
            ==> sorted_by_x(final(v)@)),
{
    broadcast use vstd::seq_lib::group_to_multiset_ensures;
    broadcast use vstd::seq_lib::to_multiset_update;

    let ghost orig: Seq<Point2<T>> = v@;
    let ghost xs: Seq<T> = xs_of(orig);
    let ghost cond: bool = T::obeys_partial_cmp_spec() && total_preorder_on(xs);
    proof {
        assert forall|k: int| 0 <= k < v@.len() implies xs.contains((#[trigger] v@[k]).x) by {
            assert(xs[k] == v@[k].x);
        }
    }
    let mut i: usize = 1;
    while i < v.len()
        invariant
            1 <= i,
            v@.len() == orig.len(),
            v@.to_multiset() == orig.to_multiset(),
            forall|k: int| 0 <= k < v@.len() ==> xs.contains((#[trigger] v@[k]).x),
            (cond ==> (forall|a: int, b: int|
                #![trigger v@[a], v@[b]]
                0 <= a <= b < i && b < v@.len() ==> le_spec(v@[a].x, v@[b].x))),
        decreases v@.len() - i,
    {
        let mut j: usize = i;
        let mut placed: bool = false;
        while !placed && j > 0
            invariant
                j <= i,
                i < v@.len(),
                v@.len() == orig.len(),
                v@.to_multiset() == orig.to_multiset(),
                forall|k: int| 0 <= k < v@.len() ==> xs.contains((#[trigger] v@[k]).x),
                (cond ==> (forall|a: int, b: int|
                    #![trigger v@[a], v@[b]]
                    0 <= a <= b <= i && a != j && b != j ==> le_spec(v@[a].x, v@[b].x))),
                (cond ==> (forall|b: int|
                    j < b <= i ==> le_spec(v@[j as int].x, (#[trigger] v@[b]).x))),
                ((cond && placed) ==> (forall|a: int, b: int|
                    #![trigger v@[a], v@[b]]
                    0 <= a <= b <= i ==> le_spec(v@[a].x, v@[b].x))),
            decreases j, (if placed { 0int } else { 1int }),
        {
            let below = v[j - 1];
            let moving = v[j];
            if moving.x.lt(&below.x) {
                let ghost s0: Seq<Point2<T>> = v@;
                v.set(j - 1, moving);
                v.set(j, below);
                proof {
                    assert(s0.to_multiset().count(below) > 0);
                    assert(v@.to_multiset() =~= s0.to_multiset());
                    if cond {
                        assert forall|a: int, b: int|
                            0 <= a <= b <= i && a != j - 1 && b != j - 1
                            implies le_spec((#[trigger] v@[a]).x, (#[trigger] v@[b]).x) by {
                            if a == j && b == j {
                                lemma_le_refl(xs, s0[j - 1].x);
                            } else if b == j {
                                assert(le_spec(s0[a].x, s0[j - 1].x));
                            } else if a == j {
                                assert(le_spec(s0[j - 1].x, s0[b].x));
                            } else {
                                assert(le_spec(s0[a].x, s0[b].x));
                            }
                        }
                        assert forall|b: int| j - 1 < b <= i
                            implies le_spec(v@[j - 1].x, (#[trigger] v@[b]).x) by {
                            if b == j {
                                assert(lt_spec(s0[j as int].x, s0[j - 1].x));
                            } else {
                                assert(le_spec(s0[j as int].x, s0[b].x));
                            }
                        }
                    }
                }
                j -= 1;
            } else {
                proof {
                    if cond {
                        assert(xs.contains(v@[j as int].x));
                        assert(xs.contains(v@[j - 1].x));
                        lemma_not_lt_le(xs, v@[j as int].x, v@[j - 1].x);
                        assert forall|a: int, b: int| 0 <= a <= b <= i
                            implies le_spec((#[trigger] v@[a]).x, (#[trigger] v@[b]).x) by {
                            if a == j && b == j {
                                lemma_le_refl(xs, v@[j as int].x);
                            } else if b == j {
                                if a == j - 1 {
                                    assert(le_spec(v@[a].x, v@[b].x));
                                } else {
                                    assert(le_spec(v@[a].x, v@[j - 1].x));
                                    lemma_le_trans(xs, v@[a].x, v@[j - 1].x, v@[j as int].x);
                                }
                            } else if a == j {
                                assert(le_spec(v@[j as int].x, v@[b].x));
                            } else {
                                assert(le_spec(v@[a].x, v@[b].x));
                            }
                        }
                    }
                }
                placed = true;
            }
        }
        proof {
            if cond && !placed {
                assert forall|a: int, b: int| 0 <= a <= b <= i
                    implies le_spec((#[trigger] v@[a]).x, (#[trigger] v@[b]).x) by {
                    if a == 0 && b == 0 {
                        lemma_le_refl(xs, v@[0].x);
                    } else if a == 0 {
                        assert(le_spec(v@[0].x, v@[b].x));
                    } else {
                        assert(le_spec(v@[a].x, v@[b].x));
                    }
                }
            }
        }
        i += 1;
    }
}

impl<T: PartialOrd + Copy> SampledFn<T> {
    /// Create a sampled function from x-values and the function values
    /// taken there, aligned position by position; the coordinates are
    /// stored sorted non-decreasing by x.
    pub fn new(args: Vec<T>, values: Vec<T>) -> (result: Self)
        requires
            args@.len() == values@.len(),
        ensures
            from_samples(args@, values@, result@),
    {
        let mut coordinates: Vec<Point2<T>> = Vec::new();
        let mut i: usize = 0;
        while i < args.len()
            invariant
                i <= args@.len(),
                args@.len() == values@.len(),
                coordinates@ =~= paired(args@, values@).take(i as int),
            decreases args@.len() - i,
        {
            coordinates.push(Point2::new(args[i], values[i]));
            proof {
                assert(coordinates@ =~= paired(args@, values@).take(i + 1));
            }
            i += 1;
        }
        proof {
            assert(coordinates@ =~= paired(args@, values@));
            assert(xs_of(paired(args@, values@)) =~= args@);
        }
        sort_points_by_x(&mut coordinates);
        SampledFn { coordinates }
    }

    /// Create a sampled function, rejecting coordinate arrays whose
    /// lengths differ instead of pairing them up arbitrarily.
    pub fn try_new(args: Vec<T>, values: Vec<T>) -> (result: Result<Self, SampledFnError>)
        ensures
            (result is Ok) <==> args@.len() == values@.len(),
            (result matches Ok(f) ==> from_samples(args@, values@, f@)),
            (result matches Err(e) ==> e == SampledFnError::InvalidArgument),
    {
        if args.len() != values.len() {
            Err(SampledFnError::InvalidArgument)
        } else {
            Ok(Self::new(args, values))
        }
    }

    /// Search the sampling interval that brackets `x`: the index of the
    /// last coordinate at or below the query, determined by the first
    /// coordinate whose x-value is strictly above it. `None` when the
    /// query falls before the first sample or at or beyond the last one.
    pub fn search_interval(&self, x: T) -> (r: Option<usize>)
        ensures
            T::obeys_partial_cmp_spec() ==> interval_lookup_post(self@, x, r),
    {
        let mut i: usize = 0;
        let n: usize = self.coordinates.len();
        while i < n
            invariant
                i <= n,
                n == self@.len(),
                (T::obeys_partial_cmp_spec() ==> (forall|j: int|
                    0 <= j < i ==> !lt_spec(x, (#[trigger] self@[j]).x))),
            decreases n - i,
        {
            let p = self.coordinates[i];
            if x.lt(&p.x) {
                if i == 0 {
                    return None;
                }
                return Some(i - 1);
            }
            i += 1;
        }
        None
    }

    /// The stored x-values, in their sorted order.
    pub fn get_x_vec(&self) -> (r: Vec<T>)
        ensures
            r@ == xs_of(self@),
    {
        let mut r: Vec<T> = Vec::new();
        let mut i: usize = 0;
        while i < self.coordinates.len()
            invariant
                i <= self@.len(),
                r@.len() == i,
                forall|k: int| 0 <= k < i ==> r@[k] == (#[trigger] self@[k]).x,
            decreases self@.len() - i,
        {
            r.push(self.coordinates[i].x);
            i += 1;
        }
        proof {
            assert(r@ =~= xs_of(self@));
        }
        r
    }

    /// The stored function values, aligned with the sorted x-values.
    pub fn get_y_vec(&self) -> (r: Vec<T>)
        ensures
            r@ == ys_of(self@),
    {
        let mut r: Vec<T> = Vec::new();
        let mut i: usize = 0;
        while i < self.coordinates.len()
            invariant
                i <= self@.len(),
                r@.len() == i,
                forall|k: int| 0 <= k < i ==> r@[k] == (#[trigger] self@[k]).y,
            decreases self@.len() - i,
        {
            r.push(self.coordinates[i].y);
            i += 1;
        }
        proof {
            assert(r@ =~= ys_of(self@));
        }
        r
    }
}

/// The interval-lookup contract determines the result uniquely: two
/// results for the same coordinates and the same query are equal, so
/// repeating an unchanged lookup always returns the same answer.
pub proof fn lemma_interval_lookup_deterministic<T: PartialOrd>(
    coords: Seq<Point2<T>>,
    x: T,
    r1: Option<usize>,
    r2: Option<usize>,
)
    requires
        interval_lookup_post(coords, x, r1),
        interval_lookup_post(coords, x, r2),
    ensures
        r1 == r2,
{
    match (r1, r2) {
        (Some(i1), Some(i2)) => {
            if (i1 as int) < i2 {
                assert(!lt_spec(x, coords[i1 + 1].x));
                assert(false);
            } else if (i2 as int) < i1 {
                assert(!lt_spec(x, coords[i2 + 1].x));
                assert(false);
            }
        },
        (Some(i1), None) => {
            assert(!lt_spec(x, coords[0].x));
            assert(lt_spec(x, coords[i1 + 1].x));
            assert(false);
        },
        (None, Some(i2)) => {
            assert(!lt_spec(x, coords[0].x));
            assert(lt_spec(x, coords[i2 + 1].x));
            assert(false);
        },
        (None, None) => {},
    }
}

/// Construction does not depend on the order in which the coordinate
/// pairs arrive: two constructions whose aligned input pairs are equal
/// up to reordering store the same coordinates, and each is sorted
/// whenever its own x-values admit a total preorder.
pub proof fn lemma_from_samples_order_independent<T: PartialOrd>(
    args1: Seq<T>,
    values1: Seq<T>,
    coords1: Seq<Point2<T>>,
    args2: Seq<T>,
    values2: Seq<T>,
    coords2: Seq<Point2<T>>,
)
    requires
        from_samples(args1, values1, coords1),
        from_samples(args2, values2, coords2),
        paired(args1, values1).to_multiset() == paired(args2, values2).to_multiset(),
    ensures
        coords1.to_multiset() == coords2.to_multiset(),
        ((T::obeys_partial_cmp_spec() && total_preorder_on(args1) && total_preorder_on(args2))
            ==> (sorted_by_x(coords1) && sorted_by_x(coords2))),
{
}

/// A sorted coordinate sequence free of ties on x is determined by the
/// samples it holds: two such sequences holding the same samples are
/// equal position by position.
pub proof fn lemma_sorted_distinct_unique<T: PartialOrd>(s1: Seq<Point2<T>>, s2: Seq<Point2<T>>)
    requires
        total_preorder_on(xs_of(s1)),
        pairwise_distinct(xs_of(s1)),
        sorted_by_x(s1),
        sorted_by_x(s2),
        s1.to_multiset() == s2.to_multiset(),
    ensures
        s1 == s2,
    decreases s1.len(),
{
    broadcast use vstd::seq_lib::group_to_multiset_ensures;

    assert(s1.len() == s1.to_multiset().len());
    assert(s2.len() == s2.to_multiset().len());
    if s1.len() == 0 {
        assert(s1 =~= s2);
    } else {
        assert(s2.contains(s2[0]));
        assert(s2.to_multiset().count(s2[0]) > 0);
        assert(s1.contains(s2[0]));
        let k = choose|i: int| 0 <= i < s1.len() && s1[i] == s2[0];
        assert(s1.contains(s1[0]));
        assert(s2.to_multiset().count(s1[0]) > 0);
        assert(s2.contains(s1[0]));
        let m = choose|i: int| 0 <= i < s2.len() && s2[i] == s1[0];
        if k > 0 {
            assert(le_spec(s1[0].x, s1[k].x));
            assert(xs_of(s1)[0] == s1[0].x);
            assert(xs_of(s1)[k] == s1[k].x);
            assert(s1[0].x.partial_cmp_spec(&s1[k].x) != Some(Ordering::Equal));
            assert(lt_spec(s1[0].x, s2[0].x));
            assert(le_spec(s2[0].x, s2[m].x));
            assert(xs_of(s1).contains(s1[0].x));
            assert(xs_of(s1).contains(s1[k].x));
            assert(false);
        }
        assert(s1[0] == s2[0]);
        let t1 = s1.remove(0);
        let t2 = s2.remove(0);
        assert(t1.to_multiset() =~= s1.to_multiset().remove(s1[0]));
        assert(t2.to_multiset() =~= s2.to_multiset().remove(s2[0]));
        assert forall|a: int, b: int|
            #![trigger t1[a], t1[b]]
            0 <= a <= b < t1.len() implies le_spec(t1[a].x, t1[b].x) by {
            assert(t1[a] == s1[a + 1]);
            assert(t1[b] == s1[b + 1]);
        }
        assert forall|a: int, b: int|
            #![trigger t2[a], t2[b]]
            0 <= a <= b < t2.len() implies le_spec(t2[a].x, t2[b].x) by {
            assert(t2[a] == s2[a + 1]);
            assert(t2[b] == s2[b + 1]);
        }
        assert forall|i: int, j: int|
            #![trigger xs_of(t1)[i], xs_of(t1)[j]]
            0 <= i < j < xs_of(t1).len() implies xs_of(t1)[i].partial_cmp_spec(&xs_of(t1)[j])
            != Some(Ordering::Equal) by {
            assert(t1[i] == s1[i + 1]);
            assert(t1[j] == s1[j + 1]);
            assert(xs_of(t1)[i] == xs_of(s1)[i + 1]);
            assert(xs_of(t1)[j] == xs_of(s1)[j + 1]);
        }
        assert forall|k2: int| 0 <= k2 < xs_of(t1).len() implies xs_of(s1).contains(
            #[trigger] xs_of(t1)[k2],
        ) by {
            assert(t1[k2] == s1[k2 + 1]);
            assert(xs_of(t1)[k2] == xs_of(s1)[k2 + 1]);
        }
        lemma_total_preorder_on_subset(xs_of(s1), xs_of(t1));
        lemma_sorted_distinct_unique(t1, t2);
        assert forall|i: int| 0 <= i < s1.len() implies s1[i] == s2[i] by {
            if i > 0 {
                assert(t1[i - 1] == s1[i]);
                assert(t2[i - 1] == s2[i]);
            }
        }
        assert(s1 =~= s2);
    }
}

/// For inputs whose x-values are pairwise distinct under the comparison,
/// construction is fully deterministic: any two constructions from
/// reorderings of the same coordinate pairs store identical coordinate
/// sequences.
pub proof fn lemma_from_samples_deterministic<T: PartialOrd>(
    args1: Seq<T>,
    values1: Seq<T>,
    coords1: Seq<Point2<T>>,
    args2: Seq<T>,
    values2: Seq<T>,
    coords2: Seq<Point2<T>>,
)
    requires
        T::obeys_partial_cmp_spec(),
        total_preorder_on(args1),
        total_preorder_on(args2),
        pairwise_distinct(args1),
        from_samples(args1, values1, coords1),
        from_samples(args2, values2, coords2),
        paired(args1, values1).to_multiset() == paired(args2, values2).to_multiset(),
    ensures
        coords1 == coords2,
{
    broadcast use vstd::seq_lib::group_to_multiset_ensures;

    let pairs = paired(args1, values1);
    // distinct x-values make the aligned pairs pairwise distinct
    assert forall|i: int, j: int|
        0 <= i < j < pairs.len() implies pairs[i] != pairs[j] by {
        assert(args1.contains(args1[i]));
        assert(args1.contains(args1[j]));
        if args1[i] == args1[j] {
            assert(args1[i].partial_cmp_spec(&args1[j]) == Some(Ordering::Equal));
        }
    }
    assert(pairs.no_duplicates());
    pairs.lemma_multiset_has_no_duplicates();
    // so each stored coordinate occurs exactly once
    assert forall|p: Point2<T>|
        coords1.to_multiset().contains(p) implies coords1.to_multiset().count(p) == 1 by {
        assert(pairs.to_multiset().count(p) > 0);
        assert(pairs.contains(p));
    }
    coords1.lemma_multiset_has_no_duplicates_conv();
    // every stored x-value is one of the input x-values
    assert forall|k: int| 0 <= k < xs_of(coords1).len() implies args1.contains(
        #[trigger] xs_of(coords1)[k],
    ) by {
        assert(coords1.contains(coords1[k]));
        assert(pairs.to_multiset().count(coords1[k]) > 0);
        assert(pairs.contains(coords1[k]));
        let j = choose|j: int| 0 <= j < pairs.len() && pairs[j] == coords1[k];
        assert(args1.contains(args1[j]));
        assert(xs_of(coords1)[k] == coords1[k].x);
    }
    lemma_total_preorder_on_subset(args1, xs_of(coords1));
    // distinct stored coordinates cannot tie on x either
    assert forall|i: int, j: int|
        #![trigger xs_of(coords1)[i], xs_of(coords1)[j]]
        0 <= i < j < xs_of(coords1).len() implies xs_of(coords1)[i].partial_cmp_spec(
            &xs_of(coords1)[j],
        ) != Some(Ordering::Equal) by {
        assert(coords1[i] != coords1[j]);
        assert(coords1.contains(coords1[i]));
        assert(coords1.contains(coords1[j]));
        assert(pairs.to_multiset().count(coords1[i]) > 0);
        assert(pairs.to_multiset().count(coords1[j]) > 0);
        assert(pairs.contains(coords1[i]));
        assert(pairs.contains(coords1[j]));
        let ki = choose|k: int| 0 <= k < pairs.len() && pairs[k] == coords1[i];
        let kj = choose|k: int| 0 <= k < pairs.len() && pairs[k] == coords1[j];
        assert(ki != kj);
        assert(coords1[i].x == args1[ki]);
        assert(coords1[j].x == args1[kj]);
        assert(args1.contains(args1[ki]));
        assert(args1.contains(args1[kj]));
        assert(xs_of(coords1)[i] == coords1[i].x);
        assert(xs_of(coords1)[j] == coords1[j].x);
    }
    assert(pairwise_distinct(xs_of(coords1)));
    lemma_sorted_distinct_unique(coords1, coords2);
}

/// A successful lookup brackets the query: the sample at the returned
/// index is at or below the query, and the following sample is strictly
/// above it.
pub proof fn lemma_interval_brackets_query<T: PartialOrd>(
    coords: Seq<Point2<T>>,
    x: T,
    i: usize,
)
    requires
        interval_lookup_post(coords, x, Some(i)),
        total_preorder_on(xs_of(coords).push(x)),
    ensures
        le_spec(coords[i as int].x, x),
        lt_spec(x, coords[i + 1].x),
{
    let s = xs_of(coords).push(x);
    assert(s[s.len() - 1] == x);
    assert(s.contains(x));
    assert(s[i as int] == coords[i as int].x);
    assert(s.contains(coords[i as int].x));
    assert(!lt_spec(x, coords[i as int].x));
    lemma_not_lt_le(s, x, coords[i as int].x);
}

} // verus!
