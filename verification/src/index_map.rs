//! Values by grid index, handed out in index order.
use std::collections::HashMap;
use vstd::prelude::*;
use crate::cells;
use crate::order::{self, stable_sorted, Ranked};

verus! {

impl Ranked for i64 {
    open spec fn rank_le() -> spec_fn(Self, Self) -> bool {
        |a: i64, b: i64| a <= b
    }

    proof fn rank_is_preorder() {
    }

    fn ranks_le(&self, other: &Self) -> (r: bool) {
        *self <= *other
    }
}

/// A hash map from indices to values.
pub struct IndexMap<V> {
    pub map: HashMap<i64, V>,
    /// What the map holds, in index order.
    pub entries: Ghost<Seq<(i64, V)>>,
}

/// Where an index stands among entries, or would stand: after those of lesser indices.
pub open spec fn place<V>(entries: Seq<(i64, V)>, k: i64) -> int
    decreases entries.len(),
{
    if entries.len() == 0 {
        0
    } else if entries.last().0 < k {
        entries.len() as int
    } else {
        place(entries.drop_last(), k)
    }
}

proof fn lemma_place<V>(entries: Seq<(i64, V)>, k: i64)
    requires
        cells::keys_ascend(entries),
    ensures
        0 <= place(entries, k) <= entries.len(),
        forall|j: int| 0 <= j < place(entries, k) ==> (#[trigger] entries[j]).0 < k,
        forall|j: int| place(entries, k) <= j < entries.len() ==> (#[trigger] entries[j]).0 >= k,
        cells::has_key(entries, k as int) <==> place(entries, k) < entries.len()
            && entries[place(entries, k)].0 == k,
    decreases entries.len(),
{
    if entries.len() > 0 {
        let rest = entries.drop_last();
        assert forall|i: int, j: int| 0 <= i < j < rest.len() implies rest[i].0 < rest[j].0 by {
            assert(entries[i].0 < entries[j].0);
        }
        lemma_place(rest, k);
        let p = place(entries, k);
        assert forall|j: int| 0 <= j < p implies (#[trigger] entries[j]).0 < k by {
            if j < entries.len() - 1 {
                assert(entries[j].0 < entries.last().0);
                assert(rest[j] == entries[j]);
            }
        }
        assert forall|j: int| p <= j < entries.len() implies (#[trigger] entries[j]).0 >= k by {
            if j < entries.len() - 1 {
                assert(rest[j] == entries[j]);
            }
        }
        if cells::has_key(entries, k as int) {
            let i = choose|i: int| 0 <= i < entries.len() && #[trigger] entries[i].0 == k;
            assert(i >= p);
            if i > p {
                assert(entries[p].0 < entries[i].0);
            }
        }
    }
}

/// Indices that ascend and are the same indices are the same sequence.
proof fn lemma_ascending_alike(a: Seq<i64>, b: Seq<i64>)
    requires
        forall|i: int, j: int| 0 <= i < j < a.len() ==> a[i] < a[j],
        forall|i: int, j: int| 0 <= i < j < b.len() ==> b[i] < b[j],
        forall|k: i64| #[trigger] a.contains(k) <==> b.contains(k),
    ensures
        a == b,
    decreases a.len(),
{
    if a.len() == 0 {
        if b.len() > 0 {
            assert(b.contains(b[0]));
            assert(a.contains(b[0]));
        }
        assert(a =~= b);
    } else {
        assert(a.contains(a[a.len() - 1]));
        assert(b.contains(a.last()));
        let i = choose|i: int| 0 <= i < b.len() && b[i] == a.last();
        assert(b.contains(b[b.len() - 1]));
        assert(a.contains(b.last()));
        let j = choose|j: int| 0 <= j < a.len() && a[j] == b.last();
        assert(a.last() == b.last()) by {
            if i < b.len() - 1 {
                assert(b[i] < b[b.len() - 1]);
            }
            if j < a.len() - 1 {
                assert(a[j] < a[a.len() - 1]);
            }
        }
        let (p, q) = (a.drop_last(), b.drop_last());
        assert forall|k: i64| #[trigger] p.contains(k) <==> q.contains(k) by {
            lemma_shorter(a, k);
            lemma_shorter(b, k);
        }
        lemma_ascending_alike(p, q);
        assert(a =~= p.push(a.last()));
        assert(b =~= q.push(b.last()));
    }
}

proof fn lemma_shorter(a: Seq<i64>, k: i64)
    requires
        a.len() > 0,
        forall|i: int, j: int| 0 <= i < j < a.len() ==> a[i] < a[j],
    ensures
        a.drop_last().contains(k) <==> a.contains(k) && k != a.last(),
{
    let p = a.drop_last();
    if p.contains(k) {
        let i = choose|i: int| 0 <= i < p.len() && p[i] == k;
        assert(a[i] == k);
        assert(a[i] < a[a.len() - 1]);
    }
    if a.contains(k) && k != a.last() {
        let i = choose|i: int| 0 <= i < a.len() && a[i] == k;
        assert(p[i] == k);
    }
}

impl<V: Copy> IndexMap<V> {
    /// The entries, in index order.
    pub open spec fn view(&self) -> Seq<(i64, V)> {
        self.entries@
    }

    /// The entries are those of the map.
    pub open spec fn wf(&self) -> bool {
        &&& cells::keys_ascend(self@)
        &&& forall|i: int|
            0 <= i < self@.len() ==> self.map@.contains_key((#[trigger] self@[i]).0)
                && self.map@[self@[i].0] == self@[i].1
        &&& forall|k: i64| #[trigger] self.map@.contains_key(k) ==> cells::has_key(self@, k as int)
    }

    /// No entry.
    pub fn new() -> (m: IndexMap<V>)
        ensures
            m.wf(),
            m@ == Seq::<(i64, V)>::empty(),
    {
        broadcast use vstd::std_specs::hash::group_hash_axioms;

        IndexMap { map: HashMap::new(), entries: Ghost(Seq::empty()) }
    }

    /// How many entries there are.
    pub fn len(&self) -> (n: usize)
        requires
            self.wf(),
        ensures
            n == self@.len(),
    {
        broadcast use vstd::std_specs::hash::group_hash_axioms;

        proof {
            let keys = self@.map_values(|e: (i64, V)| e.0);
            assert(keys.no_duplicates());
            keys.unique_seq_to_set();
            assert(keys.to_set() =~= self.map@.dom()) by {
                assert forall|k: i64| keys.to_set().contains(k) <==> self.map@.dom().contains(
                    k,
                ) by {
                    if keys.contains(k) {
                        let i = choose|i: int| 0 <= i < keys.len() && keys[i] == k;
                        assert(self@[i].0 == k);
                    }
                    if self.map@.contains_key(k) {
                        let i = choose|i: int| 0 <= i < self@.len() && #[trigger] self@[i].0 == k;
                        assert(keys[i] == k);
                    }
                }
            }
        }
        self.map.len()
    }

    /// The value at an index.
    pub fn at(&self, k: i64) -> (v: Option<V>)
        requires
            self.wf(),
        ensures
            ({
                let i = place(self@, k);
                match v {
                    Some(x) => 0 <= i < self@.len() && self@[i] == (k, x),
                    None => {
                        &&& 0 <= i <= self@.len()
                        &&& forall|j: int| 0 <= j < i ==> (#[trigger] self@[j]).0 < k
                        &&& forall|j: int| i <= j < self@.len() ==> (#[trigger] self@[j]).0 > k
                    },
                }
            }),
    {
        broadcast use vstd::std_specs::hash::group_hash_axioms;

        proof {
            lemma_place(self@, k);
        }
        match self.map.get(&k) {
            Some(x) => {
                proof {
                    assert(cells::has_key(self@, k as int));
                }
                Some(*x)
            },
            None => {
                proof {
                    let i = place(self@, k);
                    if i < self@.len() && self@[i].0 == k {
                        assert(self.map@.contains_key(self@[i].0));
                    }
                    assert forall|j: int| i <= j < self@.len() implies (#[trigger] self@[j]).0
                        > k by {
                        if j > i {
                            assert(self@[i].0 < self@[j].0);
                        }
                    }
                }
                None
            },
        }
    }

    /// Puts a value at an index.
    pub fn put(&mut self, k: i64, v: V)
        requires
            old(self).wf(),
        ensures
            final(self).wf(),
            ({
                let i = place(old(self)@, k);
                final(self)@ == (if cells::has_key(old(self)@, k as int) {
                    old(self)@.update(i, (k, v))
                } else {
                    old(self)@.insert(i, (k, v))
                })
            }),
    {
        broadcast use vstd::std_specs::hash::group_hash_axioms;

        let ghost before = self@;
        let ghost map0 = self.map@;
        let ghost i = place(before, k);
        let ghost known = cells::has_key(before, k as int);
        self.map.insert(k, v);
        self.entries = Ghost(
            if known {
                before.update(i, (k, v))
            } else {
                before.insert(i, (k, v))
            },
        );
        proof {
            lemma_place(before, k);
            let after = self@;
            if known {
                cells::lemma_update_keys(before, i, v);
                assert forall|j: int| 0 <= j < after.len() implies self.map@.contains_key(
                    (#[trigger] after[j]).0,
                ) && self.map@[after[j].0] == after[j].1 by {
                    if j != i {
                        assert(after[j] == before[j]);
                        if j < i {
                            assert(before[j].0 < before[i].0);
                        } else {
                            assert(before[i].0 < before[j].0);
                        }
                    }
                }
            } else {
                assert forall|j: int| i <= j < before.len() implies (#[trigger] before[j]).0
                    > k by {
                    assert(before[j].0 != k);
                }
                cells::lemma_insert_keys(before, i, k, v);
                assert forall|j: int| 0 <= j < after.len() implies self.map@.contains_key(
                    (#[trigger] after[j]).0,
                ) && self.map@[after[j].0] == after[j].1 by {
                    if j < i {
                        assert(after[j] == before[j]);
                    } else if j > i {
                        assert(after[j] == before[j - 1]);
                    }
                }
            }
            assert forall|x: i64| #[trigger] self.map@.contains_key(x) implies cells::has_key(
                after,
                x as int,
            ) by {
                if x != k {
                    assert(map0.contains_key(x));
                }
            }
        }
    }

    /// The entries, in index order.
    pub fn sorted(&self) -> (out: Vec<(i64, V)>)
        requires
            self.wf(),
        ensures
            out@ == self@,
    {
        broadcast use vstd::std_specs::hash::group_hash_axioms;

        let mut keys: Vec<i64> = Vec::new();
        for k in it: self.map.keys()
            invariant
                keys@ == it.seq().unref().take(it.index()),
                it.seq().unref().to_set() == self.map@.dom(),
                it.seq().unref().no_duplicates(),
                it.seq().unref().len() == it.seq().len(),
                keys@.no_duplicates(),
                it.index() == it.seq().len() ==> keys@.to_set() == self.map@.dom(),
        {
            let ghost n = it.index();
            keys.push(*k);
            proof {
                assert(keys@ =~= it.seq().unref().take(n + 1));
                assert(n + 1 == it.seq().len() ==> keys@ =~= it.seq().unref());
            }
        }
        let ghost given = keys@;
        proof {
            assert(given.to_set() == self.map@.dom());
            assert(given.no_duplicates());
            assert(keys@.len() == keys.len());
            i64::rank_is_preorder();
            order::lemma_stable_sort_permutes(given, i64::rank_le());
            order::lemma_stable_sort_ascends(given, i64::rank_le());
        }
        let keys = stable_sorted(keys);
        let ghost indices = self@.map_values(|e: (i64, V)| e.0);
        proof {
            self.lemma_indices(given, keys@);
        }
        let mut out: Vec<(i64, V)> = Vec::new();
        let mut i: usize = 0;
        while i < keys.len()
            invariant
                i <= keys@.len(),
                self.wf(),
                keys@ == self@.map_values(|e: (i64, V)| e.0),
                out@ == self@.take(i as int),
            decreases keys@.len() - i,
        {
            let k: i64 = keys[i];
            proof {
                assert(keys@[i as int] == self@[i as int].0);
                assert(self.map@.contains_key(k));
            }
            match self.map.get(&k) {
                Some(v) => {
                    out.push((k, *v));
                },
                None => {
                    assert(false);
                },
            }
            proof {
                assert(self@[i as int] == (self@[i as int].0, self@[i as int].1));
                assert(out@ =~= self@.take(i + 1));
            }
            i = i + 1;
        }
        proof {
            assert(self@.take(self@.len() as int) =~= self@);
        }
        out
    }

    proof fn lemma_indices(&self, given: Seq<i64>, sorted: Seq<i64>)
        requires
            self.wf(),
            given.to_set() == self.map@.dom(),
            given.no_duplicates(),
            sorted.to_multiset() == given.to_multiset(),
            forall|i: int, j: int|
                0 <= i <= j < sorted.len() ==> i64::rank_le()(
                    #[trigger] sorted[i],
                    #[trigger] sorted[j],
                ),
        ensures
            sorted == self@.map_values(|e: (i64, V)| e.0),
    {
        broadcast use vstd::seq_lib::group_to_multiset_ensures;

        let indices = self@.map_values(|e: (i64, V)| e.0);
        given.lemma_multiset_has_no_duplicates();
        assert forall|k: i64| sorted.to_multiset().contains(k) implies
            sorted.to_multiset().count(k) == 1 by {}
        sorted.lemma_multiset_has_no_duplicates_conv();
        assert forall|i: int, j: int| 0 <= i < j < sorted.len() implies sorted[i]
            < sorted[j] by {
            assert(i64::rank_le()(sorted[i], sorted[j]));
            assert(sorted[i] != sorted[j]);
        }
        assert forall|i: int, j: int| 0 <= i < j < indices.len() implies indices[i]
            < indices[j] by {
            assert(self@[i].0 < self@[j].0);
        }
        assert forall|k: i64| #[trigger] sorted.contains(k) <==> indices.contains(k) by {
            assert(sorted.contains(k) <==> sorted.to_multiset().contains(k));
            assert(given.contains(k) <==> given.to_multiset().contains(k));
            assert(given.contains(k) <==> given.to_set().contains(k));
            if indices.contains(k) {
                let i = choose|i: int| 0 <= i < indices.len() && indices[i] == k;
                assert(self@[i].0 == k);
                assert(self.map@.contains_key(k));
            }
            if self.map@.contains_key(k) {
                let i = choose|i: int| 0 <= i < self@.len() && #[trigger] self@[i].0 == k;
                assert(indices[i] == k);
            }
        }
        lemma_ascending_alike(sorted, indices);
    }
}

} // verus!
