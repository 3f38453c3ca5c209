//! A small association map from node handles to arbitrary values, stored as a
//! list with unique keys in insertion order, abstracted as a `Map`.

use vstd::prelude::*;
use crate::collection::generational_index::NetIndex;

verus! {

/// A mapping from node handles to values of type `V`.
pub struct KeyedMap<V> {
    entries: Vec<(NetIndex, V)>,
}

impl<V> KeyedMap<V> {
    pub closed spec fn entries_seq(&self) -> Seq<(NetIndex, V)> {
        self.entries@
    }

    /// Unique keys.
    pub closed spec fn wf(&self) -> bool {
        self.entries@.map_values(|e: (NetIndex, V)| e.0).no_duplicates()
    }

    spec fn map_of(s: Seq<(NetIndex, V)>) -> Map<NetIndex, V>
        decreases s.len(),
    {
        if s.len() == 0 {
            Map::empty()
        } else {
            Self::map_of(s.drop_last()).insert(s.last().0, s.last().1)
        }
    }

    /// The mapping as a mathematical map.
    pub closed spec fn map(&self) -> Map<NetIndex, V> {
        Self::map_of(self.entries@)
    }

    proof fn lemma_map_of_dom(s: Seq<(NetIndex, V)>)
        ensures
            Self::map_of(s).dom() == s.map_values(|e: (NetIndex, V)| e.0).to_set(),
        decreases s.len(),
    {
        let keys = s.map_values(|e: (NetIndex, V)| e.0);
        if s.len() == 0 {
            assert(Self::map_of(s).dom() =~= keys.to_set());
        } else {
            let s2 = s.drop_last();
            Self::lemma_map_of_dom(s2);
            let keys2 = s2.map_values(|e: (NetIndex, V)| e.0);
            assert(keys2 =~= keys.drop_last());
            assert forall|x: NetIndex| #[trigger] keys.to_set().contains(x) implies
                Self::map_of(s).dom().contains(x) by {
                let i = choose|i: int| 0 <= i < keys.len() && keys[i] == x;
                if i < keys.len() - 1 {
                    assert(keys2[i] == x);
                }
            }
            assert forall|x: NetIndex| Self::map_of(s).dom().contains(x) implies
                #[trigger] keys.to_set().contains(x) by {
                if x == s.last().0 {
                    assert(keys[s.len() - 1] == x);
                } else {
                    let i = choose|i: int| 0 <= i < keys2.len() && keys2[i] == x;
                    assert(keys[i] == x);
                }
            }
            assert(Self::map_of(s).dom() =~= keys.to_set());
        }
    }

    proof fn lemma_map_of_entry(s: Seq<(NetIndex, V)>, at: int)
        requires
            s.map_values(|e: (NetIndex, V)| e.0).no_duplicates(),
            0 <= at < s.len(),
        ensures
            Self::map_of(s).dom().contains(s[at].0),
            Self::map_of(s)[s[at].0] == s[at].1,
        decreases s.len(),
    {
        let keys = s.map_values(|e: (NetIndex, V)| e.0);
        if at == s.len() - 1 {
        } else {
            let s2 = s.drop_last();
            let keys2 = s2.map_values(|e: (NetIndex, V)| e.0);
            assert(keys2 =~= keys.drop_last());
            Self::lemma_map_of_entry(s2, at);
            assert(s2[at] == s[at]);
            assert(keys[at] == s[at].0 && keys[s.len() - 1] == s.last().0);
            assert(s.last().0 != s[at].0);
        }
    }

    /// The key at a live entry is in the map's domain and maps to that
    /// entry's value.
    proof fn lemma_entry(&self, at: int)
        requires
            self.wf(),
            0 <= at < self.entries_seq().len(),
        ensures
            self.map().dom().contains(self.entries_seq()[at].0),
            self.map()[self.entries_seq()[at].0] == self.entries_seq()[at].1,
    {
        Self::lemma_map_of_entry(self.entries@, at);
    }

    /// Two distinct entries carry distinct keys.
    pub proof fn lemma_keys_unique(&self, i: int, j: int)
        requires
            self.wf(),
            0 <= i < j < self.entries_seq().len(),
        ensures
            self.entries_seq()[i].0 != self.entries_seq()[j].0,
    {
        let keys = self.entries@.map_values(|e: (NetIndex, V)| e.0);
        assert(keys[i] == self.entries@[i].0 && keys[j] == self.entries@[j].0);
    }

    /// A key in the map's domain has an entry in the list.
    pub proof fn lemma_dom(&self, k: NetIndex)
        requires
            self.map().dom().contains(k),
        ensures
            exists|i: int|
                0 <= i < self.entries_seq().len() && #[trigger] self.entries_seq()[i].0 == k,
    {
        Self::lemma_map_of_dom(self.entries@);
        let keys = self.entries@.map_values(|e: (NetIndex, V)| e.0);
        let i = choose|i: int| 0 <= i < keys.len() && keys[i] == k;
        assert(self.entries_seq()[i].0 == k);
    }

    pub fn new() -> (r: KeyedMap<V>)
        ensures
            r.wf(),
            r.map() == Map::<NetIndex, V>::empty(),
            r.entries_seq().len() == 0,
    {
        KeyedMap { entries: Vec::new() }
    }

    /// The number of entries.
    pub fn len(&self) -> (r: usize)
        ensures
            r == self.entries_seq().len(),
    {
        self.entries.len()
    }

    /// The key of the entry at position `i` of the insertion order.
    pub fn key_at(&self, i: usize) -> (r: NetIndex)
        requires
            i < self.entries_seq().len(),
        ensures
            r == self.entries_seq()[i as int].0,
            self.wf() ==> self.map().dom().contains(r) && self.map()[r]
                == self.entries_seq()[i as int].1,
    {
        proof {
            if self.wf() {
                self.lemma_entry(i as int);
            }
        }
        self.entries[i].0
    }

    /// The value of the entry at position `i` of the insertion order.
    pub fn val_at(&self, i: usize) -> (r: &V)
        requires
            i < self.entries_seq().len(),
        ensures
            *r == self.entries_seq()[i as int].1,
    {
        &self.entries[i].1
    }

    fn find(&self, k: &NetIndex) -> (r: Option<usize>)
        ensures
            match r {
                Some(i) => i < self.entries_seq().len() && self.entries_seq()[i as int].0 == *k,
                None => forall|j: int|
                    0 <= j < self.entries_seq().len() ==> self.entries_seq()[j].0 != *k,
            },
    {
        let n = self.entries.len();
        let mut i: usize = 0;
        while i < n
            invariant
                i <= n,
                n == self.entries_seq().len(),
                forall|j: int| 0 <= j < i ==> self.entries_seq()[j].0 != *k,
            decreases n - i,
        {
            if self.entries[i].0 == *k {
                return Some(i);
            }
            i = i + 1;
        }
        None
    }

    pub fn contains_key(&self, k: &NetIndex) -> (r: bool)
        requires
            self.wf(),
        ensures
            r == self.map().dom().contains(*k),
    {
        match self.find(k) {
            Some(i) => {
                proof {
                    self.lemma_entry(i as int);
                }
                true
            },
            None => {
                proof {
                    if self.map().dom().contains(*k) {
                        self.lemma_dom(*k);
                    }
                }
                false
            },
        }
    }

    /// The value under key `k`.
    pub fn get(&self, k: &NetIndex) -> (r: Option<&V>)
        requires
            self.wf(),
        ensures
            r is Some <==> self.map().dom().contains(*k),
            r is Some ==> *r->Some_0 == self.map()[*k],
    {
        match self.find(k) {
            Some(i) => {
                proof {
                    self.lemma_entry(i as int);
                }
                Some(&self.entries[i].1)
            },
            None => {
                proof {
                    if self.map().dom().contains(*k) {
                        self.lemma_dom(*k);
                    }
                }
                None
            },
        }
    }

    /// Bind `k` to `v`, replacing any previous binding.
    pub fn insert(&mut self, k: NetIndex, v: V)
        requires
            old(self).wf(),
        ensures
            final(self).wf(),
            final(self).map() == old(self).map().insert(k, v),
            final(self).entries_seq().len() <= old(self).entries_seq().len() + 1,
    {
        let r = self.find(&k);
        match r {
            Some(i) => {
                proof {
                    old(self).lemma_entry(i as int);
                }
                self.entries[i] = (k, v);
                proof {
                    Self::lemma_map_of_update(old(self).entries_seq(), self.entries_seq(),
                        i as int);
                    let prekeys = old(self).entries_seq().map_values(|e: (NetIndex, V)| e.0);
                    let postkeys = self.entries_seq().map_values(|e: (NetIndex, V)| e.0);
                    assert(postkeys =~= prekeys);
                }
            },
            None => {
                self.entries.push((k, v));
                proof {
                    let pre = old(self).entries_seq();
                    let post = self.entries_seq();
                    let prekeys = pre.map_values(|e: (NetIndex, V)| e.0);
                    let postkeys = post.map_values(|e: (NetIndex, V)| e.0);
                    assert(postkeys =~= prekeys.push(k));
                    assert(post.drop_last() =~= pre);
                }
            },
        }
    }

    /// Rebinding one entry of an association list rebinds exactly that key in
    /// the resulting map.
    proof fn lemma_map_of_update(pres: Seq<(NetIndex, V)>, posts: Seq<(NetIndex, V)>, at: int)
        requires
            pres.map_values(|e: (NetIndex, V)| e.0).no_duplicates(),
            0 <= at < pres.len(),
            posts.len() == pres.len(),
            posts[at].0 == pres[at].0,
            forall|j: int| 0 <= j < pres.len() && j != at ==> posts[j] == pres[j],
        ensures
            Self::map_of(posts) == Self::map_of(pres).insert(pres[at].0, posts[at].1),
        decreases pres.len(),
    {
        let k = pres[at].0;
        let prekeys = pres.map_values(|e: (NetIndex, V)| e.0);
        if at == pres.len() - 1 {
            assert(posts.drop_last() =~= pres.drop_last());
            assert(Self::map_of(posts) =~= Self::map_of(pres).insert(k, posts[at].1));
        } else {
            assert(posts.last() == pres.last());
            let pres2 = pres.drop_last();
            let posts2 = posts.drop_last();
            assert(pres2.map_values(|e: (NetIndex, V)| e.0) =~= prekeys.drop_last());
            assert(pres2[at] == pres[at] && posts2[at] == posts[at]);
            Self::lemma_map_of_update(pres2, posts2, at);
            assert(prekeys[at] == pres[at].0 && prekeys[pres.len() - 1] == pres.last().0);
            assert(pres.last().0 != k);
            assert(Self::map_of(posts) =~= Self::map_of(pres).insert(k, posts[at].1));
        }
    }

    /// Drop every binding.
    pub fn clear(&mut self)
        ensures
            final(self).wf(),
            final(self).map() == Map::<NetIndex, V>::empty(),
            final(self).entries_seq().len() == 0,
    {
        self.entries.clear();
    }
}

} // verus!
