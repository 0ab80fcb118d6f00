//! Stable sorting by a total preorder.
//!
//! A type says how its values rank through [`Ranked`]. [`stable_sorted`] puts a
//! vector into that order and keeps values of equal rank in the order they came.
use vstd::prelude::*;
use vstd::relations::*;
use vstd::multiset::Multiset;

verus! {

/// Any two values compare, and comparisons chain.
pub open spec fn total_preorder<A>(le: spec_fn(A, A) -> bool) -> bool {
    &&& forall|x: A, y: A| #[trigger] le(x, y) || le(y, x)
    &&& forall|x: A, y: A, z: A| #[trigger] le(x, y) && #[trigger] le(y, z) ==> le(x, z)
}

/// A type with a total preorder on its values.
pub trait Ranked: Sized {
    /// The order.
    spec fn rank_le() -> spec_fn(Self, Self) -> bool;

    /// The order is total and chains.
    proof fn rank_is_preorder()
        ensures
            total_preorder(Self::rank_le()),
    ;

    /// Whether `self` may stand before `other`.
    fn ranks_le(&self, other: &Self) -> (r: bool)
        ensures
            r == Self::rank_le()(*self, *other),
    ;
}

/// The order on positions of `s`: by rank, then by position.
pub open spec fn position_le<A>(s: Seq<A>, le: spec_fn(A, A) -> bool) -> spec_fn(
    usize,
    usize,
) -> bool {
    |i: usize, j: usize|
        le(s[i as int], s[j as int]) && (le(s[j as int], s[i as int]) ==> i <= j)
}

/// The positions `lo..hi`, ascending.
pub open spec fn positions(lo: int, hi: int) -> Seq<usize> {
    Seq::new((hi - lo) as nat, |i: int| (lo + i) as usize)
}

/// The positions of `s` in sorted order.
pub open spec fn stable_order<A>(s: Seq<A>, le: spec_fn(A, A) -> bool) -> Seq<usize> {
    positions(0, s.len() as int).sort_by(position_le(s, le))
}

/// `s` in order, values that compare both ways in the order they came.
pub open spec fn stable_sort<A>(s: Seq<A>, le: spec_fn(A, A) -> bool) -> Seq<A> {
    Seq::new(s.len(), |k: int| s[stable_order(s, le)[k] as int])
}

proof fn lemma_position_le_total<A>(s: Seq<A>, le: spec_fn(A, A) -> bool)
    requires
        total_preorder(le),
    ensures
        total_ordering(position_le(s, le)),
{
    let leq = position_le(s, le);
    assert forall|i: usize| #[trigger] leq(i, i) by {
        assert(le(s[i as int], s[i as int]));
    }
    assert forall|i: usize, j: usize| #[trigger] leq(i, j) && #[trigger] leq(j, i) implies i
        == j by {}
    assert forall|i: usize, j: usize, k: usize| #[trigger] leq(i, j) && #[trigger] leq(
        j,
        k,
    ) implies leq(i, k) by {
        let (x, y, z) = (s[i as int], s[j as int], s[k as int]);
        assert(le(x, y) && le(y, z) ==> le(x, z));
        if le(z, x) {
            assert(le(z, x) && le(x, y) ==> le(z, y));
            assert(le(y, z) && le(z, x) ==> le(y, x));
        }
    }
    assert forall|i: usize, j: usize| #[trigger] leq(i, j) || #[trigger] leq(j, i) by {
        assert(le(s[i as int], s[j as int]) || le(s[j as int], s[i as int]));
    }
}

/// The sorted positions are a permutation of all positions, in strictly
/// ascending order.
pub proof fn lemma_stable_order<A>(s: Seq<A>, le: spec_fn(A, A) -> bool)
    requires
        s.len() <= usize::MAX,
        total_preorder(le),
    ensures
        stable_order(s, le).len() == s.len(),
        stable_order(s, le).to_multiset() == positions(0, s.len() as int).to_multiset(),
        sorted_by(stable_order(s, le), position_le(s, le)),
        stable_order(s, le).no_duplicates(),
        forall|k: int| 0 <= k < s.len() ==> #[trigger] stable_order(s, le)[k] < s.len(),
        forall|i: int|
            0 <= i < s.len() ==> #[trigger] stable_order(s, le).contains(i as usize),
{
    broadcast use vstd::seq_lib::group_to_multiset_ensures;

    lemma_position_le_total(s, le);
    let base = positions(0, s.len() as int);
    base.lemma_sort_by_ensures(position_le(s, le));
    let p = stable_order(s, le);
    assert(p.to_multiset() == base.to_multiset());
    assert(p.len() == p.to_multiset().len());
    assert(base.len() == base.to_multiset().len());
    assert(base.no_duplicates());
    base.lemma_multiset_has_no_duplicates();
    assert forall|x: usize| p.to_multiset().contains(x) implies p.to_multiset().count(x) == 1 by {}
    p.lemma_multiset_has_no_duplicates_conv();
    assert forall|k: int| 0 <= k < s.len() implies #[trigger] p[k] < s.len() by {
        assert(p.to_multiset().contains(p[k]));
        assert(base.contains(p[k]));
    }
    assert forall|i: int| 0 <= i < s.len() implies #[trigger] p.contains(i as usize) by {
        assert(base[i] == i as usize);
        assert(base.contains(i as usize));
        assert(base.to_multiset().contains(i as usize));
    }
}

/// Sorting keeps every value as often as it occurs.
pub proof fn lemma_stable_sort_permutes<A>(s: Seq<A>, le: spec_fn(A, A) -> bool)
    requires
        s.len() <= usize::MAX,
        total_preorder(le),
    ensures
        stable_sort(s, le).len() == s.len(),
        stable_sort(s, le).to_multiset() == s.to_multiset(),
{
    lemma_stable_order(s, le);
    lemma_picked_multiset(s, stable_order(s, le), positions(0, s.len() as int));
    assert(stable_sort(s, le) =~= stable_order(s, le).map_values(|i: usize| s[i as int]));
    assert(s =~= positions(0, s.len() as int).map_values(|i: usize| s[i as int]));
}

/// Two position lists with the same members pick the same values.
proof fn lemma_picked_multiset<T>(s: Seq<T>, p: Seq<usize>, q: Seq<usize>)
    requires
        p.to_multiset() == q.to_multiset(),
    ensures
        p.map_values(|i: usize| s[i as int]).to_multiset() == q.map_values(
            |i: usize| s[i as int],
        ).to_multiset(),
    decreases p.len(),
{
    broadcast use vstd::seq_lib::group_to_multiset_ensures;
    broadcast use vstd::multiset::group_multiset_axioms;

    let f = |i: usize| s[i as int];
    if p.len() == 0 {
        assert(q.to_multiset().len() == 0);
        assert(q.len() == 0);
        assert(p.map_values(f) =~= q.map_values(f));
    } else {
        let x = p.last();
        assert(p.to_multiset().contains(x));
        assert(q.contains(x));
        let j = choose|j: int| 0 <= j < q.len() && q[j] == x;
        let p1 = p.drop_last();
        let q1 = q.remove(j);
        assert(p =~= p1.push(x));
        assert(p1.to_multiset() =~= p.to_multiset().remove(x));
        assert(q1.to_multiset() =~= q.to_multiset().remove(x));
        lemma_picked_multiset(s, p1, q1);
        assert(p.map_values(f) =~= p1.map_values(f).push(f(x)));
        assert(q1.map_values(f) =~= q.map_values(f).remove(j));
        assert(q.map_values(f)[j] == f(x));
        assert(q.map_values(f).to_multiset() =~= q1.map_values(f).to_multiset().insert(f(x)));
    }
}

/// A sorted sequence ascends.
pub proof fn lemma_stable_sort_ascends<A>(s: Seq<A>, le: spec_fn(A, A) -> bool)
    requires
        s.len() <= usize::MAX,
        total_preorder(le),
    ensures
        forall|i: int, j: int|
            0 <= i <= j < s.len() ==> le(
                #[trigger] stable_sort(s, le)[i],
                #[trigger] stable_sort(s, le)[j],
            ),
{
    lemma_stable_order(s, le);
    assert forall|i: int, j: int| 0 <= i <= j < s.len() implies le(
        #[trigger] stable_sort(s, le)[i],
        #[trigger] stable_sort(s, le)[j],
    ) by {
        if i == j {
            assert(le(stable_sort(s, le)[i], stable_sort(s, le)[j]));
        } else {
            assert(position_le(s, le)(stable_order(s, le)[i], stable_order(s, le)[j]));
        }
    }
}

/// Sorting by what a function makes of the values sorts what it makes of them.
pub proof fn lemma_stable_sort_mapped<A, B>(
    s: Seq<A>,
    f: spec_fn(A) -> B,
    le_a: spec_fn(A, A) -> bool,
    le_b: spec_fn(B, B) -> bool,
)
    requires
        s.len() <= usize::MAX,
        total_preorder(le_a),
        total_preorder(le_b),
        forall|x: A, y: A| #[trigger] le_a(x, y) == le_b(f(x), f(y)),
    ensures
        stable_sort(s.map_values(f), le_b) == stable_sort(s, le_a).map_values(f),
{
    let t = s.map_values(f);
    let p = stable_order(s, le_a);
    let q = stable_order(t, le_b);
    lemma_stable_order(s, le_a);
    lemma_stable_order(t, le_b);
    lemma_position_le_total(t, le_b);
    assert forall|i: int, j: int| 0 <= i < j < p.len() implies #[trigger] position_le(t, le_b)(
        p[i],
        p[j],
    ) by {
        assert(position_le(s, le_a)(p[i], p[j]));
        let (x, y) = (s[p[i] as int], s[p[j] as int]);
        assert(le_a(x, y) == le_b(f(x), f(y)));
        assert(le_a(y, x) == le_b(f(y), f(x)));
    }
    vstd::seq_lib::lemma_sorted_unique(p, q, position_le(t, le_b));
    assert(stable_sort(t, le_b) =~= stable_sort(s, le_a).map_values(f));
}

/// Sorting leaves a sequence alone that is in order.
pub proof fn lemma_stable_sort_of_sorted<A>(s: Seq<A>, le: spec_fn(A, A) -> bool)
    requires
        s.len() <= usize::MAX,
        total_preorder(le),
        forall|i: int, j: int| 0 <= i <= j < s.len() ==> le(#[trigger] s[i], #[trigger] s[j]),
    ensures
        stable_sort(s, le) == s,
{
    let base = positions(0, s.len() as int);
    lemma_position_le_total(s, le);
    lemma_stable_order(s, le);
    assert forall|i: int, j: int| 0 <= i < j < base.len() implies #[trigger] position_le(s, le)(
        base[i],
        base[j],
    ) by {
        assert(base[i] == i as usize && base[j] == j as usize);
        assert(le(s[i], s[j]));
    }
    vstd::seq_lib::lemma_sorted_unique(base, stable_order(s, le), position_le(s, le));
    assert(stable_sort(s, le) =~= s);
}

/// Where only equal values compare both ways, the same values come out in the same
/// order, however they came in.
pub proof fn lemma_stable_sort_unique<A>(s: Seq<A>, t: Seq<A>, le: spec_fn(A, A) -> bool)
    requires
        s.len() <= usize::MAX,
        total_preorder(le),
        forall|x: A, y: A| #[trigger] le(x, y) && le(y, x) ==> x == y,
        s.to_multiset() == t.to_multiset(),
    ensures
        stable_sort(s, le) == stable_sort(t, le),
{
    broadcast use vstd::seq_lib::group_to_multiset_ensures;

    assert(s.to_multiset().len() == s.len() && t.to_multiset().len() == t.len());
    lemma_stable_sort_permutes(s, le);
    lemma_stable_sort_permutes(t, le);
    lemma_stable_sort_ascends(s, le);
    lemma_stable_sort_ascends(t, le);
    assert(total_ordering(le));
    vstd::seq_lib::lemma_sorted_unique(stable_sort(s, le), stable_sort(t, le), le);
}

/// Two ascending sequences of the same values are the same, where only equal ones
/// among them compare both ways.
proof fn lemma_ascending_unique<A>(s: Seq<A>, t: Seq<A>, le: spec_fn(A, A) -> bool)
    requires
        forall|i: int, j: int| 0 <= i <= j < s.len() ==> le(#[trigger] s[i], #[trigger] s[j]),
        forall|i: int, j: int| 0 <= i <= j < t.len() ==> le(#[trigger] t[i], #[trigger] t[j]),
        s.to_multiset() == t.to_multiset(),
        forall|x: A, y: A|
            s.contains(x) && s.contains(y) && #[trigger] le(x, y) && le(y, x) ==> x == y,
    ensures
        s == t,
    decreases s.len(),
{
    broadcast use vstd::seq_lib::group_to_multiset_ensures;

    assert(s.to_multiset().len() == s.len() && t.to_multiset().len() == t.len());
    if s.len() > 0 {
        let (x, y) = (s.last(), t.last());
        assert(t.contains(y));
        assert(s.to_multiset().count(y) > 0);
        assert(s.contains(y) && s.contains(x));
        assert(t.to_multiset().count(x) > 0);
        assert(t.contains(x));
        let i = choose|i: int| 0 <= i < s.len() && s[i] == y;
        let j = choose|j: int| 0 <= j < t.len() && t[j] == x;
        assert(le(s[i], s[s.len() - 1]) && le(t[j], t[t.len() - 1]));
        assert(x == y);
        let (p, q) = (s.drop_last(), t.drop_last());
        assert(p.push(x) =~= s && q.push(x) =~= t);
        assert(p.to_multiset().insert(x) =~= s.to_multiset());
        assert(q.to_multiset().insert(x) =~= t.to_multiset());
        assert(p.to_multiset() =~= q.to_multiset()) by {
            assert forall|v: A| p.to_multiset().count(v) == q.to_multiset().count(v) by {
                assert(s.to_multiset().count(v) == p.to_multiset().count(v) + (if v == x {
                    1int
                } else {
                    0
                }));
                assert(t.to_multiset().count(v) == q.to_multiset().count(v) + (if v == x {
                    1int
                } else {
                    0
                }));
            }
        }
        assert forall|a: A, b: A|
            p.contains(a) && p.contains(b) && #[trigger] le(a, b) && le(b, a) implies a == b by {
            assert(s.contains(a) && s.contains(b));
        }
        lemma_ascending_unique(p, q, le);
    } else {
        assert(s =~= t);
    }
}

/// Where only equal ones among some values compare both ways, they come out in the
/// same order, however they came in.
pub proof fn lemma_stable_sort_unique_among<A>(s: Seq<A>, t: Seq<A>, le: spec_fn(A, A) -> bool)
    requires
        s.len() <= usize::MAX,
        total_preorder(le),
        forall|x: A, y: A|
            s.contains(x) && s.contains(y) && #[trigger] le(x, y) && le(y, x) ==> x == y,
        s.to_multiset() == t.to_multiset(),
    ensures
        stable_sort(s, le) == stable_sort(t, le),
{
    broadcast use vstd::seq_lib::group_to_multiset_ensures;

    assert(s.to_multiset().len() == s.len() && t.to_multiset().len() == t.len());
    lemma_stable_sort_permutes(s, le);
    lemma_stable_sort_permutes(t, le);
    lemma_stable_sort_ascends(s, le);
    lemma_stable_sort_ascends(t, le);
    let sorted = stable_sort(s, le);
    assert forall|x: A, y: A|
        sorted.contains(x) && sorted.contains(y) && #[trigger] le(x, y) && le(y, x) implies x
        == y by {
        assert(sorted.to_multiset().count(x) > 0 && sorted.to_multiset().count(y) > 0);
        assert(s.contains(x) && s.contains(y));
    }
    lemma_ascending_unique(sorted, stable_sort(t, le), le);
}

/// The sum of what a function makes of the values.
pub open spec fn sum_of<A>(s: Seq<A>, f: spec_fn(A) -> int) -> int
    decreases s.len(),
{
    if s.len() == 0 {
        0
    } else {
        sum_of(s.drop_last(), f) + f(s.last())
    }
}

pub proof fn lemma_sum_remove<A>(s: Seq<A>, f: spec_fn(A) -> int, i: int)
    requires
        0 <= i < s.len(),
    ensures
        sum_of(s, f) == sum_of(s.remove(i), f) + f(s[i]),
    decreases s.len(),
{
    if i == s.len() - 1 {
        assert(s.remove(i) =~= s.drop_last());
    } else {
        lemma_sum_remove(s.drop_last(), f, i);
        assert(s.remove(i).drop_last() =~= s.drop_last().remove(i));
        assert(s.remove(i).last() == s.last());
    }
}

/// A sum does not depend on the order of the values.
pub proof fn lemma_sum_permutes<A>(s: Seq<A>, t: Seq<A>, f: spec_fn(A) -> int)
    requires
        s.to_multiset() == t.to_multiset(),
    ensures
        sum_of(s, f) == sum_of(t, f),
    decreases s.len(),
{
    broadcast use vstd::seq_lib::group_to_multiset_ensures;
    broadcast use vstd::multiset::group_multiset_axioms;

    if s.len() == 0 {
        assert(t.to_multiset().len() == 0);
        assert(t.len() == 0);
    } else {
        let x = s.last();
        assert(s.to_multiset().contains(x));
        assert(t.contains(x));
        let j = choose|j: int| 0 <= j < t.len() && t[j] == x;
        let s1 = s.drop_last();
        let t1 = t.remove(j);
        assert(s =~= s1.push(x));
        assert(s1.to_multiset() =~= s.to_multiset().remove(x));
        assert(t1.to_multiset() =~= t.to_multiset().remove(x));
        lemma_sum_permutes(s1, t1, f);
        lemma_sum_remove(t, f, j);
    }
}

proof fn lemma_mapped_count<A, B>(s: Seq<A>, f: spec_fn(A) -> B, x: B)
    ensures
        s.map_values(f).to_multiset().count(x) == sum_of(
            s,
            |a: A|
                if f(a) == x {
                    1int
                } else {
                    0
                },
        ),
    decreases s.len(),
{
    broadcast use vstd::seq_lib::group_to_multiset_ensures;
    broadcast use vstd::multiset::group_multiset_axioms;

    if s.len() > 0 {
        lemma_mapped_count(s.drop_last(), f, x);
        assert(s.map_values(f) =~= s.drop_last().map_values(f).push(f(s.last())));
    } else {
        assert(s.map_values(f) =~= Seq::empty());
    }
}

/// What a function makes of the values does not depend on their order.
pub proof fn lemma_mapped_permutes<A, B>(s: Seq<A>, t: Seq<A>, f: spec_fn(A) -> B)
    requires
        s.to_multiset() == t.to_multiset(),
    ensures
        s.map_values(f).to_multiset() == t.map_values(f).to_multiset(),
{
    broadcast use vstd::multiset::group_multiset_axioms;

    let (x, y) = (s.map_values(f).to_multiset(), t.map_values(f).to_multiset());
    assert forall|b: B| x.count(b) == y.count(b) by {
        lemma_mapped_count(s, f, b);
        lemma_mapped_count(t, f, b);
        lemma_sum_permutes(
            s,
            t,
            |a: A|
                if f(a) == b {
                    1int
                } else {
                    0
                },
        );
    }
    assert(x =~= y);
}

/// Position lists merged into one.
fn merge<T: Ranked>(items: &[T], a: &Vec<usize>, b: &Vec<usize>) -> (out: Vec<usize>)
    requires
        sorted_by(a@, position_le(items@, T::rank_le())),
        sorted_by(b@, position_le(items@, T::rank_le())),
        forall|i: int| 0 <= i < a@.len() ==> a@[i] < items@.len(),
        forall|i: int| 0 <= i < b@.len() ==> b@[i] < items@.len(),
    ensures
        sorted_by(out@, position_le(items@, T::rank_le())),
        out@.to_multiset() == a@.to_multiset().add(b@.to_multiset()),
        forall|i: int| 0 <= i < out@.len() ==> out@[i] < items@.len(),
{
    broadcast use vstd::seq_lib::group_to_multiset_ensures;
    broadcast use vstd::multiset::group_multiset_axioms;

    let ghost leq = position_le(items@, T::rank_le());
    proof {
        T::rank_is_preorder();
        lemma_position_le_total(items@, T::rank_le());
    }
    let mut out: Vec<usize> = Vec::new();
    let mut i: usize = 0;
    let mut j: usize = 0;
    proof {
        assert(a@.take(0) =~= Seq::<usize>::empty());
        assert(b@.take(0) =~= Seq::<usize>::empty());
    }
    while i < a.len() || j < b.len()
        invariant
            i <= a@.len(),
            j <= b@.len(),
            leq == position_le(items@, T::rank_le()),
            total_ordering(leq),
            sorted_by(a@, leq),
            sorted_by(b@, leq),
            sorted_by(out@, leq),
            forall|k: int| 0 <= k < a@.len() ==> a@[k] < items@.len(),
            forall|k: int| 0 <= k < b@.len() ==> b@[k] < items@.len(),
            forall|k: int| 0 <= k < out@.len() ==> out@[k] < items@.len(),
            forall|k: int, l: int|
                #![trigger out@[k], a@[l]]
                0 <= k < out@.len() && i <= l < a@.len() ==> leq(out@[k], a@[l]),
            forall|k: int, l: int|
                #![trigger out@[k], b@[l]]
                0 <= k < out@.len() && j <= l < b@.len() ==> leq(out@[k], b@[l]),
            out@.to_multiset() == a@.take(i as int).to_multiset().add(
                b@.take(j as int).to_multiset(),
            ),
        decreases a@.len() - i + b@.len() - j,
    {
        let from_a: bool = if i >= a.len() {
            false
        } else if j >= b.len() {
            true
        } else {
            let x: usize = a[i];
            let y: usize = b[j];
            let before: bool = items[x].ranks_le(&items[y]);
            let after: bool = items[y].ranks_le(&items[x]);
            before && (!after || x <= y)
        };
        if from_a {
            let ghost head = a@[i as int];
            proof {
                broadcast use vstd::seq_lib::group_to_multiset_ensures;
                broadcast use vstd::multiset::group_multiset_axioms;

                assert(a@.take(i as int + 1) =~= a@.take(i as int).push(head));
                assert forall|l: int| i <= l < a@.len() implies leq(head, a@[l]) by {
                    if l == i {
                        assert(leq(head, head));
                    }
                }
                if j < b@.len() {
                    assert(leq(head, b@[j as int]));
                    assert forall|l: int| j <= l < b@.len() implies leq(head, b@[l]) by {
                        if l > j {
                            assert(leq(b@[j as int], b@[l]));
                        }
                    }
                }
                assert(a@.take(i as int).push(head).to_multiset().add(
                    b@.take(j as int).to_multiset(),
                ) =~= a@.take(i as int).to_multiset().add(b@.take(j as int).to_multiset()).insert(
                    head,
                ));
            }
            out.push(a[i]);
            i = i + 1;
        } else {
            let ghost head = b@[j as int];
            proof {
                broadcast use vstd::seq_lib::group_to_multiset_ensures;
                broadcast use vstd::multiset::group_multiset_axioms;

                assert(b@.take(j as int + 1) =~= b@.take(j as int).push(head));
                assert forall|l: int| j <= l < b@.len() implies leq(head, b@[l]) by {
                    if l == j {
                        assert(leq(head, head));
                    }
                }
                if i < a@.len() {
                    assert(leq(head, a@[i as int]) || leq(a@[i as int], head));
                    assert(leq(head, a@[i as int]));
                    assert forall|l: int| i <= l < a@.len() implies leq(head, a@[l]) by {
                        if l > i {
                            assert(leq(a@[i as int], a@[l]));
                        }
                    }
                }
                assert(a@.take(i as int).to_multiset().add(
                    b@.take(j as int).push(head).to_multiset(),
                ) =~= a@.take(i as int).to_multiset().add(b@.take(j as int).to_multiset()).insert(
                    head,
                ));
            }
            out.push(b[j]);
            j = j + 1;
        }
    }
    proof {
        assert(a@.take(a@.len() as int) =~= a@);
        assert(b@.take(b@.len() as int) =~= b@);
    }
    out
}

/// The positions `lo..hi` of `items`, sorted.
fn sort_positions<T: Ranked>(items: &[T], lo: usize, hi: usize) -> (out: Vec<usize>)
    requires
        lo <= hi <= items@.len(),
    ensures
        sorted_by(out@, position_le(items@, T::rank_le())),
        out@.to_multiset() == positions(lo as int, hi as int).to_multiset(),
        forall|i: int| 0 <= i < out@.len() ==> out@[i] < items@.len(),
    decreases hi - lo,
{
    if hi - lo <= 1 {
        let mut out: Vec<usize> = Vec::new();
        if lo < hi {
            out.push(lo);
        }
        proof {
            assert(out@ =~= positions(lo as int, hi as int));
        }
        return out;
    }
    let mid: usize = lo + (hi - lo) / 2;
    let a = sort_positions(items, lo, mid);
    let b = sort_positions(items, mid, hi);
    proof {
        assert(positions(lo as int, hi as int) =~= positions(lo as int, mid as int) + positions(
            mid as int,
            hi as int,
        ));
        vstd::seq_lib::lemma_multiset_commutative(
            positions(lo as int, mid as int),
            positions(mid as int, hi as int),
        );
    }
    merge(items, &a, &b)
}

/// The positions of `items` in sorted order.
pub fn sorted_positions<T: Ranked>(items: &[T]) -> (out: Vec<usize>)
    ensures
        out@ == stable_order(items@, T::rank_le()),
{
    let out = sort_positions(items, 0, items.len());
    proof {
        let base = positions(0, items@.len() as int);
        T::rank_is_preorder();
        lemma_position_le_total(items@, T::rank_le());
        base.lemma_sort_by_ensures(position_le(items@, T::rank_le()));
        vstd::seq_lib::lemma_sorted_unique(
            out@,
            stable_order(items@, T::rank_le()),
            position_le(items@, T::rank_le()),
        );
    }
    out
}

/// Sorts a vector, keeping values of equal rank in the order they came.
pub fn stable_sorted<T: Ranked>(items: Vec<T>) -> (out: Vec<T>)
    ensures
        out@ == stable_sort(items@, T::rank_le()),
{
    let order = sorted_positions(items.as_slice());
    let ghost s = items@;
    let n: usize = items.len();
    proof {
        T::rank_is_preorder();
        lemma_stable_order(s, T::rank_le());
    }
    let mut slots: Vec<Option<T>> = Vec::new();
    for x in it: items
        invariant
            it.seq() == s,
            slots@.len() == it.index(),
            forall|k: int| 0 <= k < slots@.len() ==> #[trigger] slots@[k] == Some(s[k]),
    {
        slots.push(Some(x));
    }
    let mut out: Vec<T> = Vec::new();
    let mut k: usize = 0;
    while k < n
        invariant
            n == s.len(),
            k <= n,
            out@.len() == k,
            slots@.len() == n,
            order@ == stable_order(s, T::rank_le()),
            order@.len() == n,
            order@.no_duplicates(),
            forall|i: int| 0 <= i < n ==> #[trigger] order@[i] < n,
            forall|i: int| k <= i < n ==> slots@[#[trigger] order@[i] as int] == Some(
                s[order@[i] as int],
            ),
            forall|i: int| 0 <= i < k ==> #[trigger] out@[i] == s[order@[i] as int],
        decreases n - k,
    {
        let at: usize = order[k];
        let mut slot: Option<T> = None;
        assert(slots@[at as int] == Some(s[at as int]));
        std::mem::swap(&mut slot, &mut slots[at]);
        match slot {
            Some(x) => {
                out.push(x);
            },
            None => {
                assert(false);
            },
        }
        k = k + 1;
    }
    proof {
        assert(out@ =~= stable_sort(s, T::rank_le()));
    }
    out
}

} // verus!
