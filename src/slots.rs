//! A table of removable entries, each keyed by an id that the table hands
//! out itself and never reuses.

use std::collections::HashMap;
use vstd::prelude::*;
use vstd::std_specs::iter::IteratorSpec;

verus! {

broadcast use vstd::std_specs::hash::group_hash_axioms;

/// Holds that `r` is one copy of every entry of `m`, in some order: each
/// position of `r` stands for a distinct id of `m`, and every id has one.
pub open spec fn is_snapshot_of<T: Clone>(r: Seq<T>, m: Map<u32, T>) -> bool {
    exists|ids: Seq<u32>|
        {
            &&& ids.len() == r.len()
            &&& ids.no_duplicates()
            &&& ids.to_set() == m.dom()
            &&& forall|i: int| 0 <= i < r.len() ==> #[trigger] cloned(m[ids[i]], r[i])
        }
}

/// A snapshot holds one copy for each entry and no more: any two distinct
/// entries each have a copy, at two distinct positions.
pub proof fn lemma_snapshot_reaches_each_once<T: Clone>(r: Seq<T>, m: Map<u32, T>, a: u32, b: u32)
    requires
        is_snapshot_of(r, m),
        m.contains_key(a),
        m.contains_key(b),
        a != b,
    ensures
        r.len() == m.dom().len(),
        exists|i: int, j: int|
            0 <= i < r.len() && 0 <= j < r.len() && i != j && cloned(m[a], #[trigger] r[i])
                && cloned(m[b], #[trigger] r[j]),
{
    let ids = choose|ids: Seq<u32>|
        {
            &&& ids.len() == r.len()
            &&& ids.no_duplicates()
            &&& ids.to_set() == m.dom()
            &&& forall|i: int| 0 <= i < r.len() ==> #[trigger] cloned(m[ids[i]], r[i])
        };
    ids.unique_seq_to_set();
    assert(ids.to_set().contains(a));
    assert(ids.to_set().contains(b));
    let i = choose|i: int| 0 <= i < ids.len() && ids[i] == a;
    let j = choose|j: int| 0 <= j < ids.len() && ids[j] == b;
    assert(cloned(m[ids[i]], r[i]));
    assert(cloned(m[ids[j]], r[j]));
}

/// Removing one id leaves every other entry as it was.
pub proof fn lemma_remove_keeps_others<T>(m: Map<u32, T>, removed: u32, kept: u32)
    requires
        removed != kept,
    ensures
        m.remove(removed).contains_key(kept) == m.contains_key(kept),
        m.contains_key(kept) ==> m.remove(removed)[kept] == m[kept],
{
}

/// Entries keyed by ids that grow by one with every insertion.
pub struct TempSet<T> {
    next_id: u32,
    set: HashMap<u32, T>,
}

impl<T> View for TempSet<T> {
    type V = Map<u32, T>;

    closed spec fn view(&self) -> Map<u32, T> {
        self.set@
    }
}

impl<T> TempSet<T> {
    /// The id that the next insertion receives.
    pub closed spec fn next_id(&self) -> nat {
        self.next_id as nat
    }

    /// Every id in use was handed out before the next one.
    pub closed spec fn wf(&self) -> bool {
        forall|id: u32| #[trigger] self.set@.contains_key(id) ==> id < self.next_id
    }

    /// Whether every id has been handed out, so that no insertion is possible.
    pub open spec fn spec_is_exhausted(&self) -> bool {
        self.next_id() >= u32::MAX
    }

    /// The table holds finitely many entries.
    pub proof fn lemma_finite(&self)
        ensures
            self@.dom().finite(),
    {
    }

    pub fn new() -> (r: Self)
        ensures
            r.wf(),
            r@ == Map::<u32, T>::empty(),
            r@.dom().finite(),
            r@.len() == 0,
            r.next_id() == 0,
    {
        TempSet { next_id: 0, set: HashMap::new() }
    }

    #[verifier::when_used_as_spec(spec_is_exhausted)]
    pub fn is_exhausted(&self) -> (r: bool)
        ensures
            r == self.spec_is_exhausted(),
    {
        self.next_id == u32::MAX
    }

    /// Inserts `value` under a fresh id and returns that id.
    pub fn add(&mut self, value: T) -> (id: u32)
        requires
            old(self).wf(),
            !old(self).spec_is_exhausted(),
        ensures
            final(self).wf(),
            id as nat == old(self).next_id(),
            !old(self)@.contains_key(id),
            final(self)@ == old(self)@.insert(id, value),
            final(self)@.dom().finite(),
            final(self)@.len() == old(self)@.len() + 1,
            final(self).next_id() == old(self).next_id() + 1,
    {
        let id = self.next_id;
        self.next_id = self.next_id + 1;
        self.set.insert(id, value);
        id
    }

    /// Removes the entry with id `id`, if there is one; tells whether there was.
    pub fn remove(&mut self, id: u32) -> (r: bool)
        requires
            old(self).wf(),
        ensures
            final(self).wf(),
            r == old(self)@.contains_key(id),
            final(self)@ == old(self)@.remove(id),
            final(self)@.dom().finite(),
            final(self)@.len() == if r {
                old(self)@.len() - 1
            } else {
                old(self)@.len() as int
            },
            final(self).next_id() == old(self).next_id(),
    {
        self.set.remove(&id).is_some()
    }

    pub fn is_empty(&self) -> (r: bool)
        ensures
            self@.dom().finite(),
            r == (self@.dom() == Set::<u32>::empty()),
            r == (self@.len() == 0),
    {
        let r = self.set.is_empty();
        proof {
            if !r {
                assert(self@.dom().len() > 0);
            } else {
                assert(self@.dom() =~= Set::<u32>::empty());
            }
        }
        r
    }
}

impl<T> Default for TempSet<T> {
    fn default() -> (r: Self)
        ensures
            r.wf(),
            r@ == Map::<u32, T>::empty(),
            r@.len() == 0,
            r.next_id() == 0,
    {
        TempSet::new()
    }
}

impl<T: Clone> TempSet<T> {
    /// A copy of every entry, for use once the table is out of reach.
    pub fn iter(&self) -> (r: Vec<T>)
        ensures
            is_snapshot_of(r@, self@),
    {
        let mut r: Vec<T> = Vec::new();
        let ghost mut ids: Seq<u32> = Seq::empty();
        let ghost m = self@;
        let it0 = self.set.iter();
        let ghost all = it0.remaining();
        for kv in it: it0
            invariant
                it.seq() == all,
                all == vstd::std_specs::hash::spec_hash_map_iter(&self.set).remaining(),
                m == self@,
                ids.len() == r@.len(),
                ids.len() == it.index(),
                forall|i: int| 0 <= i < ids.len() ==> ids[i] == *all[i].0,
                forall|i: int| 0 <= i < r@.len() ==> #[trigger] cloned(m[ids[i]], r@[i]),
        {
            let v = kv.1.clone();
            proof {
                let i = ids.len() as int;
                assert(kv == all[i]);
                assert(m.contains_key(*all[i].0) && m[*all[i].0] == *all[i].1);
                assert(cloned(*kv.1, v));
                ids = ids.push(*kv.0);
            }
            r.push(v);
        }
        proof {
            assert forall|i: int, j: int| 0 <= i < ids.len() && 0 <= j < ids.len() && i != j
                implies ids[i] != ids[j] by {
                assert(m.contains_key(*all[i].0) && m[*all[i].0] == *all[i].1);
                assert(m.contains_key(*all[j].0) && m[*all[j].0] == *all[j].1);
                if ids[i] == ids[j] {
                    assert(all[i] == all[j]);
                }
            }
            assert forall|k: u32| ids.to_set().contains(k) <==> m.dom().contains(k) by {
                if m.contains_key(k) {
                    assert(all.contains((&k, &m[k])));
                    let i = choose|i: int| 0 <= i < all.len() && all[i] == (&k, &m[k]);
                    assert(ids[i] == k);
                }
                if ids.to_set().contains(k) {
                    let i = choose|i: int| 0 <= i < ids.len() && ids[i] == k;
                    assert(m.contains_key(*all[i].0));
                }
            }
            assert(ids.to_set() =~= m.dom());
        }
        r
    }
}

} // verus!
