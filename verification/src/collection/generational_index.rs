//! A stable-handle arena: values of one type stored behind reusable,
//! generation-tagged handles.
//!
//! Every slot carries a generation counter. Removing a value empties the slot
//! and bumps the counter, so every handle that pointed at the removed value
//! becomes stale and is rejected by later lookups. A slot whose counter would
//! overflow is never handed out again, which keeps the guarantee that a handle
//! is never reissued.

use vstd::prelude::*;
use crate::AutoDiffError;

verus! {

/// A generation-tagged handle into a [`GenIndex`] arena.
///
/// Two handles are equal exactly when both the slot index and the generation
/// match; a handle to a removed value never compares equal to the handle of a
/// value that later reuses the slot.
#[derive(Clone, Copy, PartialEq, Eq, Structural, Debug, Hash)]
pub struct NetIndex {
    pub id: usize,
    pub gen: usize,
}

impl NetIndex {
    pub fn new(id: usize, gen: usize) -> (r: NetIndex)
        ensures
            r.id == id && r.gen == gen,
    {
        NetIndex { id, gen }
    }
}

/// The stable-handle arena.
pub struct GenIndex<V> {
    slots: Vec<Option<V>>,
    gens: Vec<usize>,
    free: Vec<usize>,
}

impl<V> GenIndex<V> {
    /// The stored values, one `Option` per slot.
    pub closed spec fn slots_view(&self) -> Seq<Option<V>> {
        self.slots@
    }

    /// The generation counter of each slot.
    pub closed spec fn gens_view(&self) -> Seq<usize> {
        self.gens@
    }

    /// `h` currently refers to a stored value.
    pub open spec fn live(&self, h: NetIndex) -> bool {
        &&& h.id < self.slots_view().len()
        &&& self.slots_view()[h.id as int] is Some
        &&& self.gens_view()[h.id as int] == h.gen
    }

    /// The value `h` refers to (meaningful only when `live(h)`).
    pub open spec fn at(&self, h: NetIndex) -> V {
        self.slots_view()[h.id as int]->Some_0
    }

    /// `h` is outdated: its slot has moved on to a later generation, so no
    /// lookup with `h` can ever succeed again.
    pub open spec fn stale(&self, h: NetIndex) -> bool {
        h.id < self.slots_view().len() && h.gen < self.gens_view()[h.id as int]
    }

    /// Internal consistency of the slot table and the free list.
    pub closed spec fn wf(&self) -> bool {
        &&& self.gens@.len() == self.slots@.len()
        &&& self.free@.no_duplicates()
        &&& forall|k: int|
            0 <= k < self.free@.len() ==> {
                &&& #[trigger] self.free@[k] < self.slots@.len()
                &&& self.slots@[self.free@[k] as int] is None
                &&& self.gens@[self.free@[k] as int] < usize::MAX
            }
        &&& forall|i: int|
            0 <= i < self.slots@.len() && #[trigger] self.slots@[i] is Some
                ==> self.gens@[i] < usize::MAX
    }

    /// The handle `h` was inserted with value `v`, turning `pre` into `post`:
    /// `h` is fresh, now refers to `v`, and every other handle is unaffected.
    pub open spec fn inserted(pre: Self, post: Self, h: NetIndex, v: V) -> bool {
        &&& !pre.live(h) && !pre.stale(h)
        &&& post.live(h) && post.at(h) == v
        &&& forall|h2: NetIndex|
            h2 != h ==> ((#[trigger] post.live(h2)) <==> pre.live(h2))
        &&& forall|h2: NetIndex|
            h2 != h && pre.live(h2) ==> #[trigger] post.at(h2) == pre.at(h2)
        &&& forall|h2: NetIndex| #[trigger] pre.stale(h2) ==> post.stale(h2)
    }

    /// The handle `h` was removed, turning `pre` into `post`: `h` is stale
    /// from now on and every other handle is unaffected.
    pub open spec fn removed(pre: Self, post: Self, h: NetIndex) -> bool {
        &&& pre.live(h)
        &&& !post.live(h) && post.stale(h)
        &&& forall|h2: NetIndex|
            h2 != h ==> ((#[trigger] post.live(h2)) <==> pre.live(h2))
        &&& forall|h2: NetIndex|
            h2 != h && pre.live(h2) ==> #[trigger] post.at(h2) == pre.at(h2)
        &&& forall|h2: NetIndex| #[trigger] pre.stale(h2) ==> post.stale(h2)
    }

    /// Create an empty arena.
    pub fn new() -> (r: GenIndex<V>)
        ensures
            r.wf(),
            r.slots_view().len() == 0,
            forall|h: NetIndex| !(#[trigger] r.live(h)) && !r.stale(h),
    {
        GenIndex { slots: Vec::new(), gens: Vec::new(), free: Vec::new() }
    }

    /// Store `val` in a free slot (reusing a freed slot with a bumped
    /// generation when one is available, growing otherwise) and return a
    /// fresh handle to it. Always succeeds.
    pub fn insert(&mut self, val: V) -> (h: NetIndex)
        requires
            old(self).wf(),
        ensures
            final(self).wf(),
            Self::inserted(*old(self), *final(self), h, val),
    {
        let n = self.free.len();
        if n > 0 {
            let i = self.free[n - 1];
            self.free.pop();
            let g = self.gens[i];
            self.slots[i] = Some(val);
            let h = NetIndex { id: i, gen: g };
            assert forall|h2: NetIndex| h2 != h implies
                ((#[trigger] self.live(h2)) <==> old(self).live(h2)) by {
                if h2.id == i as int {
                    assert(old(self).slots_view()[i as int] is None);
                }
            }
            h
        } else {
            let i = self.slots.len();
            self.slots.push(Some(val));
            self.gens.push(0);
            NetIndex { id: i, gen: 0 }
        }
    }

    /// Whether `h` refers to a live value.
    pub fn contains(&self, h: &NetIndex) -> (r: bool)
        requires
            self.wf(),
        ensures
            r == self.live(*h),
    {
        h.id < self.slots.len() && self.gens[h.id] == h.gen && self.slots[h.id].is_some()
    }

    /// Look up the value behind `h`; a stale or out-of-range handle is
    /// rejected with `InvalidHandle`.
    pub fn get(&self, h: &NetIndex) -> (r: Result<&V, AutoDiffError>)
        requires
            self.wf(),
        ensures
            r is Ok <==> self.live(*h),
            r is Ok ==> *r->Ok_0 == self.at(*h),
            r is Err ==> r->Err_0 == AutoDiffError::InvalidHandle,
    {
        if h.id < self.slots.len() && self.gens[h.id] == h.gen {
            match &self.slots[h.id] {
                Some(v) => Ok(v),
                None => Err(AutoDiffError::InvalidHandle),
            }
        } else {
            Err(AutoDiffError::InvalidHandle)
        }
    }

    /// Replace the value behind `h`; a stale or out-of-range handle is
    /// rejected with `InvalidHandle` and leaves the arena unchanged.
    pub fn set(&mut self, h: &NetIndex, val: V) -> (r: Result<(), AutoDiffError>)
        requires
            old(self).wf(),
        ensures
            final(self).wf(),
            r is Ok <==> old(self).live(*h),
            forall|h2: NetIndex| (#[trigger] final(self).live(h2)) <==> old(self).live(h2),
            r is Err ==> r->Err_0 == AutoDiffError::InvalidHandle && *final(self) == *old(self),
            r is Ok ==> {
                &&& final(self).live(*h) && final(self).at(*h) == val
                &&& final(self).gens_view() == old(self).gens_view()
                &&& forall|h2: NetIndex|
                    h2 != *h ==> ((#[trigger] final(self).live(h2)) <==> old(self).live(h2))
                &&& forall|h2: NetIndex|
                    h2 != *h && old(self).live(h2) ==> #[trigger] final(self).at(h2) == old(self).at(h2)
                &&& forall|h2: NetIndex| #[trigger] old(self).stale(h2) ==> final(self).stale(h2)
            },
    {
        if h.id < self.slots.len() && self.gens[h.id] == h.gen && self.slots[h.id].is_some() {
            self.slots[h.id] = Some(val);
            Ok(())
        } else {
            Err(AutoDiffError::InvalidHandle)
        }
    }

    /// Remove and return the value behind `h`; a stale or out-of-range handle
    /// is rejected with `InvalidHandle`. On success the slot's generation is
    /// bumped, so every outstanding copy of `h` becomes stale.
    pub fn remove(&mut self, h: &NetIndex) -> (r: Result<V, AutoDiffError>)
        requires
            old(self).wf(),
        ensures
            final(self).wf(),
            r is Ok <==> old(self).live(*h),
            r is Ok ==> r->Ok_0 == old(self).at(*h) && Self::removed(*old(self), *final(self), *h),
            r is Err ==> r->Err_0 == AutoDiffError::InvalidHandle && *final(self) == *old(self),
    {
        if h.id < self.slots.len() && self.gens[h.id] == h.gen && self.slots[h.id].is_some() {
            let mut taken: Option<V> = None;
            core::mem::swap(&mut taken, &mut self.slots[h.id]);
            let g = self.gens[h.id];
            self.gens[h.id] = g + 1;
            if g + 1 < usize::MAX {
                self.free.push(h.id);
            }
            match taken {
                Some(v) => Ok(v),
                None => Err(AutoDiffError::InvalidHandle),
            }
        } else {
            Err(AutoDiffError::InvalidHandle)
        }
    }
}

/// Arena round trip, first half: a handle fresh from an insertion refers to
/// exactly the inserted value, so a lookup right after `insert(v)` yields `v`.
pub proof fn lemma_arena_round_trip<V>(pre: GenIndex<V>, post: GenIndex<V>, h: NetIndex, v: V)
    requires
        GenIndex::inserted(pre, post, h, v),
    ensures
        post.live(h),
        post.at(h) == v,
{
}

/// Arena round trip, second half: after a removal the removed handle is no
/// longer live, so every later lookup with it is rejected.
pub proof fn lemma_arena_removed_lookup_fails<V>(pre: GenIndex<V>, post: GenIndex<V>, h: NetIndex)
    requires
        GenIndex::removed(pre, post, h),
    ensures
        !post.live(h),
        post.stale(h),
{
}

/// A removed handle is never reissued: once `h` has been removed it is stale,
/// staleness persists across any later insertion, and an insertion only ever
/// returns a handle that is not stale — so the new handle differs from `h`.
pub proof fn lemma_arena_no_reissue<V>(
    s0: GenIndex<V>,
    s1: GenIndex<V>,
    s2: GenIndex<V>,
    s3: GenIndex<V>,
    h: NetIndex,
    h2: NetIndex,
    v: V,
)
    requires
        GenIndex::removed(s0, s1, h),
        // any interim activity that preserves staleness, such as further
        // inserts, sets and removes — each operation's contract keeps it
        forall|hs: NetIndex| #[trigger] s1.stale(hs) ==> s2.stale(hs),
        GenIndex::inserted(s2, s3, h2, v),
    ensures
        h2 != h,
{
    assert(s2.stale(h));
}

} // verus!
