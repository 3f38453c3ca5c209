//! A bipartite dependency graph: data nodes and operator nodes, connected by
//! four adjacency relations (data to consuming op, op to produced data, and
//! their inverses), with a readiness-driven walk that fires each operator once
//! all of its inputs are available.

use vstd::prelude::*;
use crate::AutoDiffError;
use crate::collection::generational_index::NetIndex;

verus! {

/// An insertion-ordered set of node handles, stored without duplicates.
#[derive(Debug)]
pub struct IdSet {
    items: Vec<NetIndex>,
}

impl IdSet {
    /// The members in insertion order.
    pub closed spec fn seq(&self) -> Seq<NetIndex> {
        self.items@
    }

    /// The members as a set.
    pub open spec fn set(&self) -> Set<NetIndex> {
        self.seq().to_set()
    }

    /// No handle is stored twice.
    pub closed spec fn wf(&self) -> bool {
        self.items@.no_duplicates()
    }

    pub fn new() -> (r: IdSet)
        ensures
            r.wf(),
            r.seq().len() == 0,
            r.set() == Set::<NetIndex>::empty(),
    {
        let r = IdSet { items: Vec::new() };
        proof {
            assert(r.set() =~= Set::<NetIndex>::empty());
        }
        r
    }

    pub fn len(&self) -> (r: usize)
        ensures
            r == self.seq().len(),
            self.wf() ==> r == self.set().len(),
    {
        proof {
            if self.wf() {
                self.items@.unique_seq_to_set();
            }
        }
        self.items.len()
    }

    pub fn is_empty(&self) -> (r: bool)
        ensures
            r == (self.seq().len() == 0),
            r == (self.set() == Set::<NetIndex>::empty()),
    {
        proof {
            if self.seq().len() == 0 {
                assert(self.set() =~= Set::<NetIndex>::empty());
            } else {
                assert(self.set().contains(self.seq()[0]));
                assert(self.set() != Set::<NetIndex>::empty());
            }
        }
        self.items.len() == 0
    }

    /// The member at position `i` of the insertion order.
    pub fn index(&self, i: usize) -> (r: NetIndex)
        requires
            i < self.seq().len(),
        ensures
            r == self.seq()[i as int],
            self.set().contains(r),
    {
        self.items[i]
    }

    pub fn contains(&self, h: &NetIndex) -> (r: bool)
        ensures
            r == self.set().contains(*h),
    {
        let n = self.items.len();
        let mut i: usize = 0;
        while i < n
            invariant
                i <= n,
                n == self.seq().len(),
                forall|k: int| 0 <= k < i ==> self.seq()[k] != *h,
            decreases n - i,
        {
            if self.items[i] == *h {
                return true;
            }
            i = i + 1;
        }
        false
    }

    /// Add `h` if it is not yet a member.
    pub fn insert(&mut self, h: NetIndex)
        requires
            old(self).wf(),
        ensures
            final(self).wf(),
            final(self).set() == old(self).set().insert(h),
            old(self).set().contains(h) ==> final(self).seq() == old(self).seq(),
            !old(self).set().contains(h) ==> final(self).seq() == old(self).seq().push(h),
    {
        if !self.contains(&h) {
            self.items.push(h);
            proof {
                let pre = old(self).seq();
                let post = self.seq();
                assert forall|x: NetIndex| #[trigger] self.set().contains(x) implies old(
                    self,
                ).set().insert(h).contains(x) by {
                    let p = choose|p: int| 0 <= p < post.len() && post[p] == x;
                    if p < pre.len() {
                        assert(pre[p] == x);
                    }
                }
                assert forall|x: NetIndex|
                    old(self).set().insert(h).contains(x) implies #[trigger] self.set().contains(
                    x,
                ) by {
                    if x == h {
                        assert(post[pre.len() as int] == x);
                    } else {
                        let p = choose|p: int| 0 <= p < pre.len() && pre[p] == x;
                        assert(post[p] == x);
                    }
                }
                assert(self.set() =~= old(self).set().insert(h));
            }
        } else {
            proof {
                assert(self.set() =~= old(self).set().insert(h));
            }
        }
    }

    /// Remove `h` if it is a member; the order of the rest is kept.
    pub fn remove(&mut self, h: &NetIndex)
        requires
            old(self).wf(),
        ensures
            final(self).wf(),
            final(self).set() == old(self).set().remove(*h),
    {
        let n = self.items.len();
        let mut i: usize = 0;
        while i < n
            invariant
                i <= n,
                n == self.seq().len(),
                self.wf(),
                *self == *old(self),
                forall|k: int| 0 <= k < i ==> self.seq()[k] != *h,
            decreases n - i,
        {
            if self.items[i] == *h {
                self.items.remove(i);
                proof {
                    let pre = old(self).seq();
                    let post = self.seq();
                    assert forall|p: int, q: int|
                        0 <= p < post.len() && 0 <= q < post.len() && p != q implies post[p]
                        != post[q] by {
                        let p0: int = if p < i { p } else { p + 1 };
                        let q0: int = if q < i { q } else { q + 1 };
                        assert(post[p] == pre[p0] && post[q] == pre[q0]);
                    }
                    assert forall|x: NetIndex| #[trigger] self.set().contains(x) implies old(
                        self,
                    ).set().remove(*h).contains(x) by {
                        let p = choose|p: int| 0 <= p < post.len() && post[p] == x;
                        let p0: int = if p < i { p } else { p + 1 };
                        assert(pre[p0] == x);
                        assert(x != *h);
                    }
                    assert forall|x: NetIndex|
                        old(self).set().remove(*h).contains(x) implies #[trigger] self.set()
                        .contains(x) by {
                        let p0 = choose|p0: int| 0 <= p0 < pre.len() && pre[p0] == x;
                        if p0 < i {
                            assert(post[p0] == x);
                        } else {
                            assert(p0 != i);
                            assert(post[p0 - 1] == x);
                        }
                    }
                    assert(self.set() =~= old(self).set().remove(*h));
                }
                return ;
            }
            i = i + 1;
        }
        proof {
            assert(forall|k: int| 0 <= k < n ==> self.seq()[k] != *h);
            assert forall|x: NetIndex| #[trigger] self.set().contains(x) implies old(
                self,
            ).set().remove(*h).contains(x) by {
                let p = choose|p: int| 0 <= p < self.seq().len() && self.seq()[p] == x;
                assert(self.seq()[p] != *h);
            }
            assert(self.set() =~= old(self).set().remove(*h));
        }
    }

    /// The members, in insertion order, as a fresh vector.
    pub fn to_vec(&self) -> (r: Vec<NetIndex>)
        ensures
            r@ == self.seq(),
    {
        let n = self.items.len();
        let mut r: Vec<NetIndex> = Vec::new();
        let mut i: usize = 0;
        while i < n
            invariant
                i <= n,
                n == self.seq().len(),
                r@ == self.seq().subrange(0, i as int),
            decreases n - i,
        {
            r.push(self.items[i]);
            proof {
                assert(r@ =~= self.seq().subrange(0, i + 1 as int));
            }
            i = i + 1;
        }
        proof {
            assert(r@ =~= self.seq());
        }
        r
    }
}


/// Handle order: by slot index, then by generation.
pub open spec fn handle_lt(a: NetIndex, b: NetIndex) -> bool {
    a.id < b.id || (a.id == b.id && a.gen < b.gen)
}

/// Strictly ascending handle order.
pub open spec fn sorted_by_handle(s: Seq<NetIndex>) -> bool {
    forall|i: int, j: int| 0 <= i < j < s.len() ==> handle_lt(#[trigger] s[i], #[trigger] s[j])
}

/// Whether `a` orders strictly before `b`.
fn handle_before(a: &NetIndex, b: &NetIndex) -> (r: bool)
    ensures
        r == handle_lt(*a, *b),
{
    a.id < b.id || (a.id == b.id && a.gen < b.gen)
}

impl IdSet {
    /// The members in strictly ascending handle order.
    pub fn to_sorted_vec(&self) -> (r: Vec<NetIndex>)
        requires
            self.wf(),
        ensures
            r@.to_set() == self.set(),
            r@.no_duplicates(),
            sorted_by_handle(r@),
    {
        let n = self.items.len();
        let mut out: Vec<NetIndex> = Vec::new();
        let mut i: usize = 0;
        while i < n
            invariant
                i <= n,
                n == self.seq().len(),
                self.wf(),
                out@.to_set() == self.seq().subrange(0, i as int).to_set(),
                out@.no_duplicates(),
                sorted_by_handle(out@),
            decreases n - i,
        {
            let x = self.items[i];
            proof {
                // `x` is not yet in `out`: the stored members are unique
                if out@.to_set().contains(x) {
                    let q = choose|q: int|
                        0 <= q < i && #[trigger] self.seq().subrange(0, i as int)[q] == x;
                    assert(self.seq()[q] == x && self.seq()[i as int] == x);
                }
            }
            let m = out.len();
            let mut pos: usize = 0;
            while pos < m && handle_before(&out[pos], &x)
                invariant
                    pos <= m,
                    m == out@.len(),
                    forall|q: int| 0 <= q < pos ==> handle_lt(#[trigger] out@[q], x),
                decreases m - pos,
            {
                pos = pos + 1;
            }
            proof {
                // everything at or after the found position orders after `x`
                assert forall|q: int| pos <= q < m implies handle_lt(x, #[trigger] out@[q]) by {
                    assert(!out@.to_set().contains(x));
                    assert(out@[q] != x) by {
                        if out@[q] == x {
                            assert(out@.to_set().contains(x));
                        }
                    }
                    if q == pos {
                        assert(!handle_lt(out@[q], x));
                    } else {
                        assert(handle_lt(out@[pos as int], out@[q]));
                        assert(!handle_lt(out@[pos as int], x));
                    }
                }
            }
            let ghost pre = out@;
            out.insert(pos, x);
            proof {
                let post = out@;
                assert forall|p: int, q: int|
                    0 <= p < q < post.len() implies handle_lt(
                    #[trigger] post[p],
                    #[trigger] post[q],
                ) by {
                    let p0: int = if p < pos {
                        p
                    } else {
                        p - 1
                    };
                    let q0: int = if q <= pos {
                        q
                    } else {
                        q - 1
                    };
                    if p < pos {
                        assert(post[p] == pre[p]);
                    } else if p == pos {
                        assert(post[p] == x);
                    } else {
                        assert(post[p] == pre[p - 1]);
                    }
                    if q < pos {
                        assert(post[q] == pre[q]);
                    } else if q == pos {
                        assert(post[q] == x);
                    } else {
                        assert(post[q] == pre[q - 1]);
                    }
                }
                assert forall|p: int, q: int|
                    0 <= p < post.len() && 0 <= q < post.len() && p != q implies post[p]
                    != post[q] by {
                    if post[p] == post[q] {
                        let pp: int = if p < pos {
                            p
                        } else {
                            p - 1
                        };
                        let qq: int = if q < pos {
                            q
                        } else {
                            q - 1
                        };
                        if p == pos {
                            assert(post[q] == pre[qq] && post[p] == x);
                            assert(pre.to_set().contains(pre[qq]));
                        } else if q == pos {
                            assert(post[p] == pre[pp] && post[q] == x);
                            assert(pre.to_set().contains(pre[pp]));
                        } else {
                            assert(post[p] == pre[pp] && post[q] == pre[qq]);
                        }
                    }
                }
                assert forall|y: NetIndex| #[trigger] post.to_set().contains(y) implies
                    self.seq().subrange(0, i + 1 as int).to_set().contains(y) by {
                    let q = choose|q: int| 0 <= q < post.len() && post[q] == y;
                    if y != x {
                        let q0: int = if q < pos {
                            q
                        } else {
                            q - 1
                        };
                        assert(post[q] == pre[q0]);
                        assert(pre.to_set().contains(y));
                        let w = choose|w: int|
                            0 <= w < i && #[trigger] self.seq().subrange(0, i as int)[w] == y;
                        assert(self.seq().subrange(0, i + 1 as int)[w] == y);
                    } else {
                        assert(self.seq().subrange(0, i + 1 as int)[i as int] == x);
                    }
                }
                assert forall|y: NetIndex|
                    self.seq().subrange(0, i + 1 as int).to_set().contains(y) implies
                    #[trigger] post.to_set().contains(y) by {
                    let w = choose|w: int|
                        0 <= w < i + 1 && #[trigger] self.seq().subrange(0, i + 1 as int)[w] == y;
                    if w < i {
                        assert(self.seq().subrange(0, i as int)[w] == y);
                        assert(pre.to_set().contains(y));
                        let q = choose|q: int| 0 <= q < pre.len() && pre[q] == y;
                        if q < pos {
                            assert(post[q] == y);
                        } else {
                            assert(post[q + 1] == y);
                        }
                    } else {
                        assert(y == x);
                        assert(post[pos as int] == x);
                    }
                }
                assert(post.to_set() =~= self.seq().subrange(0, i + 1 as int).to_set());
            }
            i = i + 1;
        }
        proof {
            assert(self.seq().subrange(0, n as int) =~= self.seq());
        }
        out
    }
}

/// A mapping from node handles to sets of node handles: one adjacency
/// relation of the graph, stored as an association list with unique keys in
/// insertion order.
pub struct AdjMap {
    entries: Vec<(NetIndex, IdSet)>,
}

impl AdjMap {
    pub closed spec fn entries_seq(&self) -> Seq<(NetIndex, IdSet)> {
        self.entries@
    }

    /// Unique keys, well-formed member sets.
    pub closed spec fn wf(&self) -> bool {
        &&& self.entries@.map_values(|e: (NetIndex, IdSet)| e.0).no_duplicates()
        &&& forall|i: int| 0 <= i < self.entries@.len() ==> (#[trigger] self.entries@[i].1).wf()
    }

    spec fn map_of(s: Seq<(NetIndex, IdSet)>) -> Map<NetIndex, Set<NetIndex>>
        decreases s.len(),
    {
        if s.len() == 0 {
            Map::empty()
        } else {
            Self::map_of(s.drop_last()).insert(s.last().0, s.last().1.set())
        }
    }

    /// The relation as a mathematical map.
    pub closed spec fn map(&self) -> Map<NetIndex, Set<NetIndex>> {
        Self::map_of(self.entries@)
    }

    proof fn lemma_map_of_dom(s: Seq<(NetIndex, IdSet)>)
        ensures
            Self::map_of(s).dom() == s.map_values(|e: (NetIndex, IdSet)| e.0).to_set(),
        decreases s.len(),
    {
        let keys = s.map_values(|e: (NetIndex, IdSet)| e.0);
        if s.len() == 0 {
            assert(Self::map_of(s).dom() =~= keys.to_set());
        } else {
            let s2 = s.drop_last();
            Self::lemma_map_of_dom(s2);
            let keys2 = s2.map_values(|e: (NetIndex, IdSet)| e.0);
            assert(keys2 =~= keys.drop_last());
            assert forall|x: NetIndex| #[trigger] keys.to_set().contains(x) implies
                Self::map_of(s).dom().contains(x) by {
                let i = choose|i: int| 0 <= i < keys.len() && keys[i] == x;
                if i < keys.len() - 1 {
                    assert(keys2[i] == x);
                }
            }
            assert forall|x: NetIndex| Self::map_of(s).dom().contains(x) implies
                #[trigger] keys.to_set().contains(x) by {
                if x == s.last().0 {
                    assert(keys[s.len() - 1] == x);
                } else {
                    let i = choose|i: int| 0 <= i < keys2.len() && keys2[i] == x;
                    assert(keys[i] == x);
                }
            }
            assert(Self::map_of(s).dom() =~= keys.to_set());
        }
    }

    proof fn lemma_map_of_entry(s: Seq<(NetIndex, IdSet)>, at: int)
        requires
            s.map_values(|e: (NetIndex, IdSet)| e.0).no_duplicates(),
            0 <= at < s.len(),
        ensures
            Self::map_of(s).dom().contains(s[at].0),
            Self::map_of(s)[s[at].0] == s[at].1.set(),
        decreases s.len(),
    {
        let keys = s.map_values(|e: (NetIndex, IdSet)| e.0);
        if at == s.len() - 1 {
        } else {
            let s2 = s.drop_last();
            let keys2 = s2.map_values(|e: (NetIndex, IdSet)| e.0);
            assert(keys2 =~= keys.drop_last());
            Self::lemma_map_of_entry(s2, at);
            assert(s2[at] == s[at]);
            assert(keys[at] == s[at].0 && keys[s.len() - 1] == s.last().0);
            assert(s.last().0 != s[at].0);
        }
    }

    /// The key at a live entry is in the map's domain and maps to that
    /// entry's member set.
    proof fn lemma_entry(&self, at: int)
        requires
            self.wf(),
            0 <= at < self.entries_seq().len(),
        ensures
            self.map().dom().contains(self.entries_seq()[at].0),
            self.map()[self.entries_seq()[at].0] == self.entries_seq()[at].1.set(),
    {
        Self::lemma_map_of_entry(self.entries@, at);
    }

    /// A key in the map's domain has an entry in the list.
    proof fn lemma_dom(&self, k: NetIndex)
        requires
            self.map().dom().contains(k),
        ensures
            exists|i: int|
                0 <= i < self.entries_seq().len() && #[trigger] self.entries_seq()[i].0 == k,
    {
        Self::lemma_map_of_dom(self.entries@);
        let keys = self.entries@.map_values(|e: (NetIndex, IdSet)| e.0);
        let i = choose|i: int| 0 <= i < keys.len() && keys[i] == k;
        assert(self.entries_seq()[i].0 == k);
    }

    pub fn new() -> (r: AdjMap)
        ensures
            r.wf(),
            r.map() == Map::<NetIndex, Set<NetIndex>>::empty(),
    {
        AdjMap { entries: Vec::new() }
    }

    fn find(&self, k: &NetIndex) -> (r: Option<usize>)
        ensures
            match r {
                Some(i) => i < self.entries_seq().len() && self.entries_seq()[i as int].0 == *k,
                None => forall|j: int|
                    0 <= j < self.entries_seq().len() ==> self.entries_seq()[j].0 != *k,
            },
    {
        let n = self.entries.len();
        let mut i: usize = 0;
        while i < n
            invariant
                i <= n,
                n == self.entries_seq().len(),
                forall|j: int| 0 <= j < i ==> self.entries_seq()[j].0 != *k,
            decreases n - i,
        {
            if self.entries[i].0 == *k {
                return Some(i);
            }
            i = i + 1;
        }
        None
    }

    pub fn contains_key(&self, k: &NetIndex) -> (r: bool)
        requires
            self.wf(),
        ensures
            r == self.map().dom().contains(*k),
    {
        match self.find(k) {
            Some(i) => {
                proof {
                    self.lemma_entry(i as int);
                }
                true
            },
            None => {
                proof {
                    if self.map().dom().contains(*k) {
                        self.lemma_dom(*k);
                    }
                }
                false
            },
        }
    }

    /// The member set under key `k`.
    pub fn get(&self, k: &NetIndex) -> (r: Option<&IdSet>)
        requires
            self.wf(),
        ensures
            r is Some <==> self.map().dom().contains(*k),
            r is Some ==> {
                &&& r->Some_0.wf()
                &&& r->Some_0.set() == self.map()[*k]
            },
    {
        match self.find(k) {
            Some(i) => {
                proof {
                    self.lemma_entry(i as int);
                }
                Some(&self.entries[i].1)
            },
            None => {
                proof {
                    if self.map().dom().contains(*k) {
                        self.lemma_dom(*k);
                    }
                }
                None
            },
        }
    }

    /// Register `k` with an empty member set.
    pub fn insert_empty(&mut self, k: NetIndex)
        requires
            old(self).wf(),
            !old(self).map().dom().contains(k),
        ensures
            final(self).wf(),
            final(self).map() == old(self).map().insert(k, Set::<NetIndex>::empty()),
    {
        proof {
            assert forall|j: int| 0 <= j < self.entries@.len() implies self.entries@[j].0 != k by {
                if self.entries@[j].0 == k {
                    self.lemma_entry(j);
                }
            }
        }
        self.entries.push((k, IdSet::new()));
        proof {
            let pre = old(self).entries_seq();
            let post = self.entries_seq();
            let prekeys = pre.map_values(|e: (NetIndex, IdSet)| e.0);
            let postkeys = post.map_values(|e: (NetIndex, IdSet)| e.0);
            assert(postkeys =~= prekeys.push(k));
            assert(post.drop_last() =~= pre);
            assert(post.last().1.set() =~= Set::<NetIndex>::empty());
        }
    }

    /// Drop key `k` and its member set.
    pub fn remove_key(&mut self, k: &NetIndex)
        requires
            old(self).wf(),
        ensures
            final(self).wf(),
            final(self).map() == old(self).map().remove(*k),
    {
        let r = self.find(k);
        match r {
            Some(i) => {
                proof {
                    old(self).lemma_entry(i as int);
                }
                self.entries.remove(i);
                proof {
                    let pre = old(self).entries_seq();
                    let post = self.entries_seq();
                    let prekeys = pre.map_values(|e: (NetIndex, IdSet)| e.0);
                    let postkeys = post.map_values(|e: (NetIndex, IdSet)| e.0);
                    assert forall|p: int, q: int|
                        0 <= p < postkeys.len() && 0 <= q < postkeys.len() && p != q implies
                        postkeys[p] != postkeys[q] by {
                        let p0: int = if p < i { p } else { p + 1 };
                        let q0: int = if q < i { q } else { q + 1 };
                        assert(post[p] == pre[p0] && post[q] == pre[q0]);
                        assert(postkeys[p] == prekeys[p0] && postkeys[q] == prekeys[q0]);
                    }
                    assert forall|p: int| 0 <= p < post.len() implies (#[trigger] post[p].1).wf()
                        && post[p].0 != *k by {
                        let p0: int = if p < i { p } else { p + 1 };
                        assert(post[p] == pre[p0]);
                        assert(prekeys[p0] == pre[p0].0 && prekeys[i as int] == pre[i as int].0);
                        assert(p0 != i);
                    }
                    assert forall|x: NetIndex| #[trigger] self.map().dom().contains(x) implies old(
                        self,
                    ).map().remove(*k).dom().contains(x) by {
                        self.lemma_dom(x);
                        let p = choose|p: int|
                            0 <= p < post.len() && #[trigger] post[p].0 == x;
                        let p0: int = if p < i { p } else { p + 1 };
                        assert(pre[p0] == post[p]);
                        old(self).lemma_entry(p0);
                        assert(x != *k);
                    }
                    assert forall|x: NetIndex|
                        old(self).map().remove(*k).dom().contains(x) implies #[trigger] self.map()
                        .dom().contains(x) by {
                        old(self).lemma_dom(x);
                        let p0 = choose|p0: int|
                            0 <= p0 < pre.len() && #[trigger] pre[p0].0 == x;
                        assert(prekeys[p0] == x && prekeys[i as int] == *k);
                        assert(p0 != i);
                        if p0 < i {
                            assert(post[p0] == pre[p0]);
                            self.lemma_entry(p0);
                        } else {
                            assert(post[p0 - 1] == pre[p0]);
                            self.lemma_entry(p0 - 1);
                        }
                    }
                    assert forall|x: NetIndex| self.map().dom().contains(x) implies
                        #[trigger] self.map()[x] == old(self).map().remove(*k)[x] by {
                        self.lemma_dom(x);
                        let p = choose|p: int|
                            0 <= p < post.len() && #[trigger] post[p].0 == x;
                        let p0: int = if p < i { p } else { p + 1 };
                        self.lemma_entry(p);
                        old(self).lemma_entry(p0);
                        assert(post[p] == pre[p0]);
                    }
                    assert(self.map() =~= old(self).map().remove(*k));
                }
            },
            None => {
                proof {
                    if old(self).map().dom().contains(*k) {
                        self.lemma_dom(*k);
                    }
                    assert(self.map() =~= old(self).map().remove(*k));
                }
            },
        }
    }

    /// Add `v` to the member set under key `k`.
    pub fn add_edge(&mut self, k: &NetIndex, v: NetIndex)
        requires
            old(self).wf(),
            old(self).map().dom().contains(*k),
        ensures
            final(self).wf(),
            final(self).map() == old(self).map().insert(*k, old(self).map()[*k].insert(v)),
    {
        let r = self.find(k);
        match r {
            Some(i) => {
                proof {
                    old(self).lemma_entry(i as int);
                }
                let entry = &mut self.entries[i];
                entry.1.insert(v);
                proof {
                    self.lemma_update_entry(*old(self), i as int);
                }
            },
            None => {
                proof {
                    self.lemma_dom(*k);
                }
            },
        }
    }

    /// Remove `v` from the member set under key `k`.
    pub fn remove_edge(&mut self, k: &NetIndex, v: &NetIndex)
        requires
            old(self).wf(),
            old(self).map().dom().contains(*k),
        ensures
            final(self).wf(),
            final(self).map() == old(self).map().insert(*k, old(self).map()[*k].remove(*v)),
    {
        let r = self.find(k);
        match r {
            Some(i) => {
                proof {
                    old(self).lemma_entry(i as int);
                }
                let entry = &mut self.entries[i];
                entry.1.remove(v);
                proof {
                    self.lemma_update_entry(*old(self), i as int);
                }
            },
            None => {
                proof {
                    self.lemma_dom(*k);
                }
            },
        }
    }

    /// After updating the member set at position `at` in place, the map is
    /// the old map with that key re-bound to the new member set.
    proof fn lemma_update_entry(&self, pre: Self, at: int)
        requires
            pre.wf(),
            0 <= at < pre.entries_seq().len(),
            self.entries_seq().len() == pre.entries_seq().len(),
            self.entries_seq()[at].0 == pre.entries_seq()[at].0,
            self.entries_seq()[at].1.wf(),
            forall|j: int|
                0 <= j < pre.entries_seq().len() && j != at ==> self.entries_seq()[j]
                    == pre.entries_seq()[j],
        ensures
            self.wf(),
            self.map() == pre.map().insert(
                pre.entries_seq()[at].0,
                self.entries_seq()[at].1.set(),
            ),
        decreases pre.entries_seq().len(),
    {
        let pres = pre.entries_seq();
        let posts = self.entries_seq();
        let k = pres[at].0;
        let prekeys = pres.map_values(|e: (NetIndex, IdSet)| e.0);
        let postkeys = posts.map_values(|e: (NetIndex, IdSet)| e.0);
        assert(postkeys =~= prekeys);
        assert forall|p: int| 0 <= p < posts.len() implies (#[trigger] posts[p].1).wf() by {
            if p != at {
                assert(posts[p] == pres[p]);
            }
        }
        Self::lemma_map_of_update(pres, posts, at);
    }

    /// Rebinding one entry of an association list rebinds exactly that key in
    /// the resulting map.
    proof fn lemma_map_of_update(
        pres: Seq<(NetIndex, IdSet)>,
        posts: Seq<(NetIndex, IdSet)>,
        at: int,
    )
        requires
            pres.map_values(|e: (NetIndex, IdSet)| e.0).no_duplicates(),
            0 <= at < pres.len(),
            posts.len() == pres.len(),
            posts[at].0 == pres[at].0,
            forall|j: int| 0 <= j < pres.len() && j != at ==> posts[j] == pres[j],
        ensures
            Self::map_of(posts) == Self::map_of(pres).insert(pres[at].0, posts[at].1.set()),
        decreases pres.len(),
    {
        let k = pres[at].0;
        let prekeys = pres.map_values(|e: (NetIndex, IdSet)| e.0);
        if at == pres.len() - 1 {
            assert(posts.drop_last() =~= pres.drop_last());
            assert(Self::map_of(posts) =~= Self::map_of(pres).insert(k, posts[at].1.set()));
        } else {
            assert(posts.last() == pres.last());
            let pres2 = pres.drop_last();
            let posts2 = posts.drop_last();
            assert(pres2.map_values(|e: (NetIndex, IdSet)| e.0) =~= prekeys.drop_last());
            assert(pres2[at] == pres[at] && posts2[at] == posts[at]);
            Self::lemma_map_of_update(pres2, posts2, at);
            assert(prekeys[at] == pres[at].0 && prekeys[pres.len() - 1] == pres.last().0);
            assert(pres.last().0 != k);
            assert(Self::map_of(posts) =~= Self::map_of(pres).insert(k, posts[at].1.set()));
        }
    }
}

/// The node sets and the four adjacency relations of a graph, as one
/// mathematical value: the abstraction every graph contract is stated over.
#[verifier::ext_equal]
pub ghost struct GraphShape {
    /// The registered data nodes.
    pub data: Set<NetIndex>,
    /// The registered operator nodes.
    pub ops: Set<NetIndex>,
    /// data node -> operators consuming it (forward direction).
    pub fdo: Map<NetIndex, Set<NetIndex>>,
    /// operator -> data nodes it produces (forward direction).
    pub fod: Map<NetIndex, Set<NetIndex>>,
    /// data node -> operators producing it.
    pub bdo: Map<NetIndex, Set<NetIndex>>,
    /// operator -> data nodes it consumes.
    pub bod: Map<NetIndex, Set<NetIndex>>,
}

impl GraphShape {
    /// Every registered node has an entry in both of its adjacency relations,
    /// all edges connect registered nodes, and the four relations are kept
    /// pairwise symmetric: an operator is recorded as consuming a data node
    /// exactly when that data node is recorded as feeding it, and likewise
    /// for produced data.
    pub open spec fn wf(self) -> bool {
        &&& self.fdo.dom() == self.data
        &&& self.bdo.dom() == self.data
        &&& self.fod.dom() == self.ops
        &&& self.bod.dom() == self.ops
        &&& forall|d: NetIndex, o: NetIndex|
            self.data.contains(d) && #[trigger] self.fdo[d].contains(o) ==> self.ops.contains(o)
                && self.bod[o].contains(d)
        &&& forall|o: NetIndex, d: NetIndex|
            self.ops.contains(o) && #[trigger] self.bod[o].contains(d) ==> self.data.contains(d)
                && self.fdo[d].contains(o)
        &&& forall|d: NetIndex, o: NetIndex|
            self.data.contains(d) && #[trigger] self.bdo[d].contains(o) ==> self.ops.contains(o)
                && self.fod[o].contains(d)
        &&& forall|o: NetIndex, d: NetIndex|
            self.ops.contains(o) && #[trigger] self.fod[o].contains(d) ==> self.data.contains(d)
                && self.bdo[d].contains(o)
    }

    /// The data nodes with no producing operator: the graph's required
    /// external inputs.
    pub open spec fn source_set(self) -> Set<NetIndex> {
        Set::new(|d: NetIndex| self.data.contains(d) && self.bdo[d] == Set::<NetIndex>::empty())
    }

    /// The data nodes with no consuming operator: the graph's observable
    /// outputs.
    pub open spec fn sink_set(self) -> Set<NetIndex> {
        Set::new(|d: NetIndex| self.data.contains(d) && self.fdo[d] == Set::<NetIndex>::empty())
    }
}

/// A bipartite dependency graph over handle-identified data nodes and
/// operator nodes. Its abstract value (`self@`) is a [`GraphShape`]; every
/// operation's contract describes exactly how the shape changes.
pub struct Graph {
    data: IdSet,
    op: IdSet,
    forward_dt_op: AdjMap,
    forward_op_dt: AdjMap,
    backward_dt_op: AdjMap,
    backward_op_dt: AdjMap,
}

impl View for Graph {
    type V = GraphShape;

    closed spec fn view(&self) -> GraphShape {
        GraphShape {
            data: self.data.set(),
            ops: self.op.set(),
            fdo: self.forward_dt_op.map(),
            fod: self.forward_op_dt.map(),
            bdo: self.backward_dt_op.map(),
            bod: self.backward_op_dt.map(),
        }
    }
}

impl Graph {
    /// The data nodes in registration order.
    pub closed spec fn data_seq(&self) -> Seq<NetIndex> {
        self.data.seq()
    }

    /// The operator nodes in registration order.
    pub closed spec fn op_seq(&self) -> Seq<NetIndex> {
        self.op.seq()
    }

    /// The containers behind the shape are internally consistent.
    pub closed spec fn swf(&self) -> bool {
        &&& self.data.wf()
        &&& self.op.wf()
        &&& self.forward_dt_op.wf()
        &&& self.forward_op_dt.wf()
        &&& self.backward_dt_op.wf()
        &&& self.backward_op_dt.wf()
    }

    /// Well-formed: consistent containers and a well-formed shape.
    pub open spec fn wf(&self) -> bool {
        &&& self.swf()
        &&& self@.wf()
        &&& self.data_seq().no_duplicates() && self.data_seq().to_set() == self@.data
        &&& self.op_seq().no_duplicates() && self.op_seq().to_set() == self@.ops
    }

    /// Shape of [`Graph::add_data`]: register `id` as a data node with empty
    /// adjacency entries.
    pub open spec fn add_data_shape(s: GraphShape, id: NetIndex) -> GraphShape {
        GraphShape {
            data: s.data.insert(id),
            fdo: s.fdo.insert(id, Set::empty()),
            bdo: s.bdo.insert(id, Set::empty()),
            ..s
        }
    }

    /// Shape of [`Graph::add_op`]: register `id` as an operator node with
    /// empty adjacency entries.
    pub open spec fn add_op_shape(s: GraphShape, id: NetIndex) -> GraphShape {
        GraphShape {
            ops: s.ops.insert(id),
            fod: s.fod.insert(id, Set::empty()),
            bod: s.bod.insert(id, Set::empty()),
            ..s
        }
    }

    /// Shape of [`Graph::del_data`]: drop the data node and prune it from
    /// every operator's adjacency sets; no other node or edge is touched.
    pub open spec fn del_data_shape(s: GraphShape, id: NetIndex) -> GraphShape {
        GraphShape {
            data: s.data.remove(id),
            fdo: s.fdo.remove(id),
            bdo: s.bdo.remove(id),
            fod: Map::new(|o: NetIndex| s.fod.dom().contains(o), |o: NetIndex| s.fod[o].remove(id)),
            bod: Map::new(|o: NetIndex| s.bod.dom().contains(o), |o: NetIndex| s.bod[o].remove(id)),
            ..s
        }
    }

    /// Shape of [`Graph::del_op`]: drop the operator node and prune it from
    /// every data node's adjacency sets; no other node or edge is touched.
    pub open spec fn del_op_shape(s: GraphShape, id: NetIndex) -> GraphShape {
        GraphShape {
            ops: s.ops.remove(id),
            fod: s.fod.remove(id),
            bod: s.bod.remove(id),
            fdo: Map::new(|d: NetIndex| s.fdo.dom().contains(d), |d: NetIndex| s.fdo[d].remove(id)),
            bdo: Map::new(|d: NetIndex| s.bdo.dom().contains(d), |d: NetIndex| s.bdo[d].remove(id)),
            ..s
        }
    }

    /// Shape of [`Graph::connect`]: record every input as feeding `op` and
    /// `op` as producing every output. Membership is a set relation, so
    /// reconnecting an existing pair changes nothing.
    pub open spec fn connect_shape(
        s: GraphShape,
        dti: Seq<NetIndex>,
        dto: Seq<NetIndex>,
        op: NetIndex,
    ) -> GraphShape {
        GraphShape {
            fdo: Map::new(
                |d: NetIndex| s.fdo.dom().contains(d),
                |d: NetIndex| if dti.contains(d) { s.fdo[d].insert(op) } else { s.fdo[d] },
            ),
            bod: s.bod.insert(op, s.bod[op].union(dti.to_set())),
            bdo: Map::new(
                |d: NetIndex| s.bdo.dom().contains(d),
                |d: NetIndex| if dto.contains(d) { s.bdo[d].insert(op) } else { s.bdo[d] },
            ),
            fod: s.fod.insert(op, s.fod[op].union(dto.to_set())),
            ..s
        }
    }

    /// Shape of [`Graph::decouple_data_func`]: remove the single edge "data
    /// `var` feeds operator `func`", from both relations that record it.
    pub open spec fn decouple_data_func_shape(
        s: GraphShape,
        var: NetIndex,
        func: NetIndex,
    ) -> GraphShape {
        GraphShape {
            fdo: s.fdo.insert(var, s.fdo[var].remove(func)),
            bod: s.bod.insert(func, s.bod[func].remove(var)),
            ..s
        }
    }

    /// Shape of [`Graph::decouple_func_data`]: remove the single edge
    /// "operator `func` produces data `var`", from both relations.
    pub open spec fn decouple_func_data_shape(
        s: GraphShape,
        func: NetIndex,
        var: NetIndex,
    ) -> GraphShape {
        GraphShape {
            fod: s.fod.insert(func, s.fod[func].remove(var)),
            bdo: s.bdo.insert(var, s.bdo[var].remove(func)),
            ..s
        }
    }

    /// Create an empty graph.
    pub fn new() -> (r: Graph)
        ensures
            r.wf(),
            r@.data == Set::<NetIndex>::empty(),
            r@.ops == Set::<NetIndex>::empty(),
    {
        let r = Graph {
            data: IdSet::new(),
            op: IdSet::new(),
            forward_dt_op: AdjMap::new(),
            forward_op_dt: AdjMap::new(),
            backward_dt_op: AdjMap::new(),
            backward_op_dt: AdjMap::new(),
        };
        proof {
            assert(r.data_seq().to_set() =~= r@.data);
            assert(r.op_seq().to_set() =~= r@.ops);
        }
        r
    }

    /// The data nodes, each exactly once, in ascending handle order.
    pub fn list_data(&self) -> (r: Vec<NetIndex>)
        requires
            self.wf(),
        ensures
            r@.to_set() == self@.data,
            r@.no_duplicates(),
            sorted_by_handle(r@),
    {
        self.data.to_sorted_vec()
    }

    /// The operator nodes, each exactly once, in ascending handle order.
    pub fn list_op(&self) -> (r: Vec<NetIndex>)
        requires
            self.wf(),
        ensures
            r@.to_set() == self@.ops,
            r@.no_duplicates(),
            sorted_by_handle(r@),
    {
        self.op.to_sorted_vec()
    }

    /// The operators that consume data node `var`, in ascending handle order;
    /// fails if `var` is not a registered data node.
    pub fn list_as_input(&self, var: &NetIndex) -> (r: Result<Vec<NetIndex>, AutoDiffError>)
        requires
            self.wf(),
        ensures
            r is Ok <==> self@.data.contains(*var),
            r is Ok ==> r->Ok_0@.to_set() == self@.fdo[*var] && r->Ok_0@.no_duplicates()
                && sorted_by_handle(r->Ok_0@),
            r is Err ==> r->Err_0 == AutoDiffError::UnknownNode,
    {
        if !self.data.contains(var) {
            Err(AutoDiffError::UnknownNode)
        } else {
            match self.forward_dt_op.get(var) {
                Some(s) => Ok(s.to_sorted_vec()),
                None => Err(AutoDiffError::UnknownNode),
            }
        }
    }

    /// The operators that produce data node `var`, in ascending handle order;
    /// fails if `var` is not a registered data node.
    pub fn list_as_output(&self, var: &NetIndex) -> (r: Result<Vec<NetIndex>, AutoDiffError>)
        requires
            self.wf(),
        ensures
            r is Ok <==> self@.data.contains(*var),
            r is Ok ==> r->Ok_0@.to_set() == self@.bdo[*var] && r->Ok_0@.no_duplicates()
                && sorted_by_handle(r->Ok_0@),
            r is Err ==> r->Err_0 == AutoDiffError::UnknownNode,
    {
        if !self.data.contains(var) {
            Err(AutoDiffError::UnknownNode)
        } else {
            match self.backward_dt_op.get(var) {
                Some(s) => Ok(s.to_sorted_vec()),
                None => Err(AutoDiffError::UnknownNode),
            }
        }
    }

    /// The data nodes consumed by operator `func`, in ascending handle order;
    /// fails if `func` is not a registered operator.
    pub fn list_input(&self, func: &NetIndex) -> (r: Result<Vec<NetIndex>, AutoDiffError>)
        requires
            self.wf(),
        ensures
            r is Ok <==> self@.ops.contains(*func),
            r is Ok ==> r->Ok_0@.to_set() == self@.bod[*func] && r->Ok_0@.no_duplicates()
                && sorted_by_handle(r->Ok_0@),
            r is Err ==> r->Err_0 == AutoDiffError::UnknownNode,
    {
        if !self.op.contains(func) {
            Err(AutoDiffError::UnknownNode)
        } else {
            match self.backward_op_dt.get(func) {
                Some(s) => Ok(s.to_sorted_vec()),
                None => Err(AutoDiffError::UnknownNode),
            }
        }
    }

    /// The data nodes produced by operator `func`, in ascending handle order;
    /// fails if `func` is not a registered operator.
    pub fn list_output(&self, func: &NetIndex) -> (r: Result<Vec<NetIndex>, AutoDiffError>)
        requires
            self.wf(),
        ensures
            r is Ok <==> self@.ops.contains(*func),
            r is Ok ==> r->Ok_0@.to_set() == self@.fod[*func] && r->Ok_0@.no_duplicates()
                && sorted_by_handle(r->Ok_0@),
            r is Err ==> r->Err_0 == AutoDiffError::UnknownNode,
    {
        if !self.op.contains(func) {
            Err(AutoDiffError::UnknownNode)
        } else {
            match self.forward_op_dt.get(func) {
                Some(s) => Ok(s.to_sorted_vec()),
                None => Err(AutoDiffError::UnknownNode),
            }
        }
    }

    /// Register a data node; fails if `id` is already a data node.
    pub fn add_data(&mut self, id: &NetIndex) -> (r: Result<NetIndex, AutoDiffError>)
        requires
            old(self).wf(),
        ensures
            final(self).wf(),
            r is Ok <==> !old(self)@.data.contains(*id),
            r is Ok ==> r->Ok_0 == *id && final(self)@ == Self::add_data_shape(old(self)@, *id),
            r is Err ==> *final(self) == *old(self) && r->Err_0 == AutoDiffError::DuplicateNode,
    {
        if !self.data.contains(id) {
            self.data.insert(*id);
            self.forward_dt_op.insert_empty(*id);
            self.backward_dt_op.insert_empty(*id);
            proof {
                assert(self@ =~= Self::add_data_shape(old(self)@, *id));
                assert(self.data_seq().to_set() =~= self@.data);
                assert(self@.wf());
            }
            Ok(*id)
        } else {
            Err(AutoDiffError::DuplicateNode)
        }
    }

    /// Register an operator node; fails if `id` is already an operator node.
    pub fn add_op(&mut self, id: &NetIndex) -> (r: Result<NetIndex, AutoDiffError>)
        requires
            old(self).wf(),
        ensures
            final(self).wf(),
            r is Ok <==> !old(self)@.ops.contains(*id),
            r is Ok ==> r->Ok_0 == *id && final(self)@ == Self::add_op_shape(old(self)@, *id),
            r is Err ==> *final(self) == *old(self) && r->Err_0 == AutoDiffError::DuplicateNode,
    {
        if !self.op.contains(id) {
            self.op.insert(*id);
            self.forward_op_dt.insert_empty(*id);
            self.backward_op_dt.insert_empty(*id);
            proof {
                assert(self@ =~= Self::add_op_shape(old(self)@, *id));
                assert(self.op_seq().to_set() =~= self@.ops);
                assert(self@.wf());
            }
            Ok(*id)
        } else {
            Err(AutoDiffError::DuplicateNode)
        }
    }
}

impl Graph {
    /// Deleting a data node keeps the shape well-formed.
    pub proof fn lemma_del_data_shape_wf(s: GraphShape, id: NetIndex)
        requires
            s.wf(),
        ensures
            Self::del_data_shape(s, id).wf(),
    {
        let t = Self::del_data_shape(s, id);
        assert(t.fdo.dom() =~= t.data);
        assert(t.bdo.dom() =~= t.data);
        assert(t.fod.dom() =~= t.ops);
        assert(t.bod.dom() =~= t.ops);
        assert forall|d: NetIndex, o: NetIndex|
            t.data.contains(d) && #[trigger] t.fdo[d].contains(o) implies t.ops.contains(o)
            && t.bod[o].contains(d) by {
            assert(s.fdo[d].contains(o));
        }
        assert forall|o: NetIndex, d: NetIndex|
            t.ops.contains(o) && #[trigger] t.bod[o].contains(d) implies t.data.contains(d)
            && t.fdo[d].contains(o) by {
            assert(s.bod[o].contains(d) && d != id);
        }
        assert forall|d: NetIndex, o: NetIndex|
            t.data.contains(d) && #[trigger] t.bdo[d].contains(o) implies t.ops.contains(o)
            && t.fod[o].contains(d) by {
            assert(s.bdo[d].contains(o));
        }
        assert forall|o: NetIndex, d: NetIndex|
            t.ops.contains(o) && #[trigger] t.fod[o].contains(d) implies t.data.contains(d)
            && t.bdo[d].contains(o) by {
            assert(s.fod[o].contains(d) && d != id);
        }
    }

    /// Deleting an operator node keeps the shape well-formed.
    pub proof fn lemma_del_op_shape_wf(s: GraphShape, id: NetIndex)
        requires
            s.wf(),
        ensures
            Self::del_op_shape(s, id).wf(),
    {
        let t = Self::del_op_shape(s, id);
        assert(t.fdo.dom() =~= t.data);
        assert(t.bdo.dom() =~= t.data);
        assert(t.fod.dom() =~= t.ops);
        assert(t.bod.dom() =~= t.ops);
        assert forall|d: NetIndex, o: NetIndex|
            t.data.contains(d) && #[trigger] t.fdo[d].contains(o) implies t.ops.contains(o)
            && t.bod[o].contains(d) by {
            assert(s.fdo[d].contains(o) && o != id);
        }
        assert forall|o: NetIndex, d: NetIndex|
            t.ops.contains(o) && #[trigger] t.bod[o].contains(d) implies t.data.contains(d)
            && t.fdo[d].contains(o) by {
            assert(s.bod[o].contains(d));
        }
        assert forall|d: NetIndex, o: NetIndex|
            t.data.contains(d) && #[trigger] t.bdo[d].contains(o) implies t.ops.contains(o)
            && t.fod[o].contains(d) by {
            assert(s.bdo[d].contains(o) && o != id);
        }
        assert forall|o: NetIndex, d: NetIndex|
            t.ops.contains(o) && #[trigger] t.fod[o].contains(d) implies t.data.contains(d)
            && t.bdo[d].contains(o) by {
            assert(s.fod[o].contains(d));
        }
    }

    /// Remove a data node; fails if `id` is not a registered data node. On
    /// success the node disappears from the node set and from every adjacency
    /// set it appeared in — the neighbouring operators survive, only the
    /// edges disappear.
    pub fn del_data(&mut self, id: &NetIndex) -> (r: Result<NetIndex, AutoDiffError>)
        requires
            old(self).wf(),
        ensures
            final(self).wf(),
            r is Ok <==> old(self)@.data.contains(*id),
            r is Ok ==> r->Ok_0 == *id && final(self)@ == Self::del_data_shape(old(self)@, *id),
            r is Err ==> *final(self) == *old(self) && r->Err_0 == AutoDiffError::UnknownNode,
    {
        if self.data.contains(id) {
            self.data.remove(id);
            let consumers: Vec<NetIndex> = match self.forward_dt_op.get(id) {
                Some(s) => s.to_vec(),
                None => {
                    proof {
                        assert(false);
                    }
                    Vec::new()
                },
            };
            let n = consumers.len();
            let mut k: usize = 0;
            while k < n
                invariant
                    k <= n,
                    n == consumers@.len(),
                    old(self).wf(),
                    old(self)@.data.contains(*id),
                    consumers@.to_set() == old(self)@.fdo[*id],
                    consumers@.no_duplicates(),
                    self.data.wf(),
                    self.data.set() == old(self)@.data.remove(*id),
                    self.data.seq().no_duplicates(),
                    self.op == old(self).op,
                    self.forward_dt_op == old(self).forward_dt_op,
                    self.backward_dt_op == old(self).backward_dt_op,
                    self.forward_op_dt == old(self).forward_op_dt,
                    self.backward_op_dt.wf(),
                    self.backward_op_dt.map().dom() == old(self)@.bod.dom(),
                    forall|o: NetIndex|
                        old(self)@.bod.dom().contains(o) ==> #[trigger] self.backward_op_dt.map()[o]
                            == if consumers@.subrange(0, k as int).contains(o) {
                            old(self)@.bod[o].remove(*id)
                        } else {
                            old(self)@.bod[o]
                        },
                decreases n - k,
            {
                let o = consumers[k];
                proof {
                    assert(consumers@.to_set().contains(consumers@[k as int]));
                    assert(old(self)@.fdo[*id].contains(o));
                    assert(old(self)@.ops.contains(o));
                }
                self.backward_op_dt.remove_edge(&o, id);
                proof {
                    let ghost pre = consumers@.subrange(0, k as int);
                    let ghost post = consumers@.subrange(0, k + 1 as int);
                    assert(post =~= pre.push(o));
                    assert forall|o2: NetIndex| old(self)@.bod.dom().contains(o2) implies
                        #[trigger] self.backward_op_dt.map()[o2] == if post.contains(o2) {
                        old(self)@.bod[o2].remove(*id)
                    } else {
                        old(self)@.bod[o2]
                    } by {
                        if o2 == o {
                            if pre.contains(o2) {
                                assert(self.backward_op_dt.map()[o2] =~= old(self)@.bod[o2].remove(
                                    *id,
                                ));
                            } else {
                                assert(post.contains(o2)) by {
                                    assert(post[k as int] == o2);
                                }
                            }
                        } else {
                            if post.contains(o2) {
                                let j = choose|j: int| 0 <= j < post.len() && post[j] == o2;
                                assert(pre.contains(o2)) by {
                                    assert(j < k as int);
                                    assert(pre[j] == o2);
                                }
                            } else if pre.contains(o2) {
                                let j = choose|j: int| 0 <= j < pre.len() && pre[j] == o2;
                                assert(post[j] == o2);
                            }
                        }
                    }
                }
                k = k + 1;
            }
            proof {
                assert(consumers@.subrange(0, consumers@.len() as int) =~= consumers@);
                assert forall|o: NetIndex| old(self)@.bod.dom().contains(o) implies
                    #[trigger] self.backward_op_dt.map()[o] == if old(self)@.fdo[*id].contains(o) {
                    old(self)@.bod[o].remove(*id)
                } else {
                    old(self)@.bod[o]
                } by {
                    assert(consumers@.contains(o) == old(self)@.fdo[*id].contains(o));
                }
            }
            let producers: Vec<NetIndex> = match self.backward_dt_op.get(id) {
                Some(s) => s.to_vec(),
                None => {
                    proof {
                        assert(false);
                    }
                    Vec::new()
                },
            };
            let n2 = producers.len();
            let mut k2: usize = 0;
            while k2 < n2
                invariant
                    k2 <= n2,
                    n2 == producers@.len(),
                    old(self).wf(),
                    old(self)@.data.contains(*id),
                    producers@.to_set() == old(self)@.bdo[*id],
                    producers@.no_duplicates(),
                    self.data.wf(),
                    self.data.set() == old(self)@.data.remove(*id),
                    self.data.seq().no_duplicates(),
                    self.op == old(self).op,
                    self.forward_dt_op == old(self).forward_dt_op,
                    self.backward_dt_op == old(self).backward_dt_op,
                    self.backward_op_dt.wf(),
                    self.backward_op_dt.map().dom() == old(self)@.bod.dom(),
                    forall|o: NetIndex|
                        old(self)@.bod.dom().contains(o) ==> #[trigger] self.backward_op_dt.map()[o]
                            == if old(self)@.fdo[*id].contains(o) {
                            old(self)@.bod[o].remove(*id)
                        } else {
                            old(self)@.bod[o]
                        },
                    self.forward_op_dt.wf(),
                    self.forward_op_dt.map().dom() == old(self)@.fod.dom(),
                    forall|o: NetIndex|
                        old(self)@.fod.dom().contains(o) ==> #[trigger] self.forward_op_dt.map()[o]
                            == if producers@.subrange(0, k2 as int).contains(o) {
                            old(self)@.fod[o].remove(*id)
                        } else {
                            old(self)@.fod[o]
                        },
                decreases n2 - k2,
            {
                let o = producers[k2];
                proof {
                    assert(producers@.to_set().contains(producers@[k2 as int]));
                    assert(old(self)@.bdo[*id].contains(o));
                    assert(old(self)@.ops.contains(o));
                }
                self.forward_op_dt.remove_edge(&o, id);
                proof {
                    let ghost pre = producers@.subrange(0, k2 as int);
                    let ghost post = producers@.subrange(0, k2 + 1 as int);
                    assert(post =~= pre.push(o));
                    assert forall|o2: NetIndex| old(self)@.fod.dom().contains(o2) implies
                        #[trigger] self.forward_op_dt.map()[o2] == if post.contains(o2) {
                        old(self)@.fod[o2].remove(*id)
                    } else {
                        old(self)@.fod[o2]
                    } by {
                        if o2 == o {
                            if pre.contains(o2) {
                                assert(self.forward_op_dt.map()[o2] =~= old(self)@.fod[o2].remove(
                                    *id,
                                ));
                            } else {
                                assert(post.contains(o2)) by {
                                    assert(post[k2 as int] == o2);
                                }
                            }
                        } else {
                            if post.contains(o2) {
                                let j = choose|j: int| 0 <= j < post.len() && post[j] == o2;
                                assert(pre.contains(o2)) by {
                                    assert(j < k2 as int);
                                    assert(pre[j] == o2);
                                }
                            } else if pre.contains(o2) {
                                let j = choose|j: int| 0 <= j < pre.len() && pre[j] == o2;
                                assert(post[j] == o2);
                            }
                        }
                    }
                }
                k2 = k2 + 1;
            }
            proof {
                assert(producers@.subrange(0, producers@.len() as int) =~= producers@);
                assert forall|o: NetIndex| old(self)@.fod.dom().contains(o) implies
                    #[trigger] self.forward_op_dt.map()[o] == if old(self)@.bdo[*id].contains(o) {
                    old(self)@.fod[o].remove(*id)
                } else {
                    old(self)@.fod[o]
                } by {
                    assert(producers@.contains(o) == old(self)@.bdo[*id].contains(o));
                }
            }
            self.forward_dt_op.remove_key(id);
            self.backward_dt_op.remove_key(id);
            proof {
                let ghost t = Self::del_data_shape(old(self)@, *id);
                assert forall|o: NetIndex| old(self)@.bod.dom().contains(o) implies
                    #[trigger] self.backward_op_dt.map()[o] == t.bod[o] by {
                    if !old(self)@.fdo[*id].contains(o) {
                        assert forall|d: NetIndex|
                            old(self)@.bod[o].contains(d) implies d != *id by {
                            if d == *id {
                                assert(old(self)@.fdo[*id].contains(o));
                            }
                        }
                        assert(old(self)@.bod[o] =~= old(self)@.bod[o].remove(*id));
                    }
                }
                assert forall|o: NetIndex| old(self)@.fod.dom().contains(o) implies
                    #[trigger] self.forward_op_dt.map()[o] == t.fod[o] by {
                    if !old(self)@.bdo[*id].contains(o) {
                        assert forall|d: NetIndex|
                            old(self)@.fod[o].contains(d) implies d != *id by {
                            if d == *id {
                                assert(old(self)@.bdo[*id].contains(o));
                            }
                        }
                        assert(old(self)@.fod[o] =~= old(self)@.fod[o].remove(*id));
                    }
                }
                assert(self.backward_op_dt.map() =~= t.bod);
                assert(self.forward_op_dt.map() =~= t.fod);
                assert(self@ =~= t);
                Self::lemma_del_data_shape_wf(old(self)@, *id);
                assert(self.data_seq().to_set() =~= self@.data);
            }
            Ok(*id)
        } else {
            Err(AutoDiffError::UnknownNode)
        }
    }

    /// Remove an operator node; fails if `id` is not a registered operator.
    /// On success the node disappears from the node set and from every
    /// adjacency set it appeared in; the neighbouring data nodes survive.
    pub fn del_op(&mut self, id: &NetIndex) -> (r: Result<NetIndex, AutoDiffError>)
        requires
            old(self).wf(),
        ensures
            final(self).wf(),
            r is Ok <==> old(self)@.ops.contains(*id),
            r is Ok ==> r->Ok_0 == *id && final(self)@ == Self::del_op_shape(old(self)@, *id),
            r is Err ==> *final(self) == *old(self) && r->Err_0 == AutoDiffError::UnknownNode,
    {
        if self.op.contains(id) {
            self.op.remove(id);
            let produced: Vec<NetIndex> = match self.forward_op_dt.get(id) {
                Some(s) => s.to_vec(),
                None => {
                    proof {
                        assert(false);
                    }
                    Vec::new()
                },
            };
            let n = produced.len();
            let mut k: usize = 0;
            while k < n
                invariant
                    k <= n,
                    n == produced@.len(),
                    old(self).wf(),
                    old(self)@.ops.contains(*id),
                    produced@.to_set() == old(self)@.fod[*id],
                    produced@.no_duplicates(),
                    self.op.wf(),
                    self.op.set() == old(self)@.ops.remove(*id),
                    self.op.seq().no_duplicates(),
                    self.data == old(self).data,
                    self.forward_op_dt == old(self).forward_op_dt,
                    self.backward_op_dt == old(self).backward_op_dt,
                    self.forward_dt_op == old(self).forward_dt_op,
                    self.backward_dt_op.wf(),
                    self.backward_dt_op.map().dom() == old(self)@.bdo.dom(),
                    forall|d: NetIndex|
                        old(self)@.bdo.dom().contains(d) ==> #[trigger] self.backward_dt_op.map()[d]
                            == if produced@.subrange(0, k as int).contains(d) {
                            old(self)@.bdo[d].remove(*id)
                        } else {
                            old(self)@.bdo[d]
                        },
                decreases n - k,
            {
                let d = produced[k];
                proof {
                    assert(produced@.to_set().contains(produced@[k as int]));
                    assert(old(self)@.fod[*id].contains(d));
                    assert(old(self)@.data.contains(d));
                }
                self.backward_dt_op.remove_edge(&d, id);
                proof {
                    let ghost pre = produced@.subrange(0, k as int);
                    let ghost post = produced@.subrange(0, k + 1 as int);
                    assert(post =~= pre.push(d));
                    assert forall|d2: NetIndex| old(self)@.bdo.dom().contains(d2) implies
                        #[trigger] self.backward_dt_op.map()[d2] == if post.contains(d2) {
                        old(self)@.bdo[d2].remove(*id)
                    } else {
                        old(self)@.bdo[d2]
                    } by {
                        if d2 == d {
                            if pre.contains(d2) {
                                assert(self.backward_dt_op.map()[d2] =~= old(self)@.bdo[d2].remove(
                                    *id,
                                ));
                            } else {
                                assert(post.contains(d2)) by {
                                    assert(post[k as int] == d2);
                                }
                            }
                        } else {
                            if post.contains(d2) {
                                let j = choose|j: int| 0 <= j < post.len() && post[j] == d2;
                                assert(pre.contains(d2)) by {
                                    assert(j < k as int);
                                    assert(pre[j] == d2);
                                }
                            } else if pre.contains(d2) {
                                let j = choose|j: int| 0 <= j < pre.len() && pre[j] == d2;
                                assert(post[j] == d2);
                            }
                        }
                    }
                }
                k = k + 1;
            }
            proof {
                assert(produced@.subrange(0, produced@.len() as int) =~= produced@);
                assert forall|d: NetIndex| old(self)@.bdo.dom().contains(d) implies
                    #[trigger] self.backward_dt_op.map()[d] == if old(self)@.fod[*id].contains(d) {
                    old(self)@.bdo[d].remove(*id)
                } else {
                    old(self)@.bdo[d]
                } by {
                    assert(produced@.contains(d) == old(self)@.fod[*id].contains(d));
                }
            }
            let consumed: Vec<NetIndex> = match self.backward_op_dt.get(id) {
                Some(s) => s.to_vec(),
                None => {
                    proof {
                        assert(false);
                    }
                    Vec::new()
                },
            };
            let n2 = consumed.len();
            let mut k2: usize = 0;
            while k2 < n2
                invariant
                    k2 <= n2,
                    n2 == consumed@.len(),
                    old(self).wf(),
                    old(self)@.ops.contains(*id),
                    consumed@.to_set() == old(self)@.bod[*id],
                    consumed@.no_duplicates(),
                    self.op.wf(),
                    self.op.set() == old(self)@.ops.remove(*id),
                    self.op.seq().no_duplicates(),
                    self.data == old(self).data,
                    self.forward_op_dt == old(self).forward_op_dt,
                    self.backward_op_dt == old(self).backward_op_dt,
                    self.backward_dt_op.wf(),
                    self.backward_dt_op.map().dom() == old(self)@.bdo.dom(),
                    forall|d: NetIndex|
                        old(self)@.bdo.dom().contains(d) ==> #[trigger] self.backward_dt_op.map()[d]
                            == if old(self)@.fod[*id].contains(d) {
                            old(self)@.bdo[d].remove(*id)
                        } else {
                            old(self)@.bdo[d]
                        },
                    self.forward_dt_op.wf(),
                    self.forward_dt_op.map().dom() == old(self)@.fdo.dom(),
                    forall|d: NetIndex|
                        old(self)@.fdo.dom().contains(d) ==> #[trigger] self.forward_dt_op.map()[d]
                            == if consumed@.subrange(0, k2 as int).contains(d) {
                            old(self)@.fdo[d].remove(*id)
                        } else {
                            old(self)@.fdo[d]
                        },
                decreases n2 - k2,
            {
                let d = consumed[k2];
                proof {
                    assert(consumed@.to_set().contains(consumed@[k2 as int]));
                    assert(old(self)@.bod[*id].contains(d));
                    assert(old(self)@.data.contains(d));
                }
                self.forward_dt_op.remove_edge(&d, id);
                proof {
                    let ghost pre = consumed@.subrange(0, k2 as int);
                    let ghost post = consumed@.subrange(0, k2 + 1 as int);
                    assert(post =~= pre.push(d));
                    assert forall|d2: NetIndex| old(self)@.fdo.dom().contains(d2) implies
                        #[trigger] self.forward_dt_op.map()[d2] == if post.contains(d2) {
                        old(self)@.fdo[d2].remove(*id)
                    } else {
                        old(self)@.fdo[d2]
                    } by {
                        if d2 == d {
                            if pre.contains(d2) {
                                assert(self.forward_dt_op.map()[d2] =~= old(self)@.fdo[d2].remove(
                                    *id,
                                ));
                            } else {
                                assert(post.contains(d2)) by {
                                    assert(post[k2 as int] == d2);
                                }
                            }
                        } else {
                            if post.contains(d2) {
                                let j = choose|j: int| 0 <= j < post.len() && post[j] == d2;
                                assert(pre.contains(d2)) by {
                                    assert(j < k2 as int);
                                    assert(pre[j] == d2);
                                }
                            } else if pre.contains(d2) {
                                let j = choose|j: int| 0 <= j < pre.len() && pre[j] == d2;
                                assert(post[j] == d2);
                            }
                        }
                    }
                }
                k2 = k2 + 1;
            }
            proof {
                assert(consumed@.subrange(0, consumed@.len() as int) =~= consumed@);
                assert forall|d: NetIndex| old(self)@.fdo.dom().contains(d) implies
                    #[trigger] self.forward_dt_op.map()[d] == if old(self)@.bod[*id].contains(d) {
                    old(self)@.fdo[d].remove(*id)
                } else {
                    old(self)@.fdo[d]
                } by {
                    assert(consumed@.contains(d) == old(self)@.bod[*id].contains(d));
                }
            }
            self.forward_op_dt.remove_key(id);
            self.backward_op_dt.remove_key(id);
            proof {
                let ghost t = Self::del_op_shape(old(self)@, *id);
                assert forall|d: NetIndex| old(self)@.bdo.dom().contains(d) implies
                    #[trigger] self.backward_dt_op.map()[d] == t.bdo[d] by {
                    if !old(self)@.fod[*id].contains(d) {
                        assert forall|o: NetIndex|
                            old(self)@.bdo[d].contains(o) implies o != *id by {
                            if o == *id {
                                assert(old(self)@.fod[*id].contains(d));
                            }
                        }
                        assert(old(self)@.bdo[d] =~= old(self)@.bdo[d].remove(*id));
                    }
                }
                assert forall|d: NetIndex| old(self)@.fdo.dom().contains(d) implies
                    #[trigger] self.forward_dt_op.map()[d] == t.fdo[d] by {
                    if !old(self)@.bod[*id].contains(d) {
                        assert forall|o: NetIndex|
                            old(self)@.fdo[d].contains(o) implies o != *id by {
                            if o == *id {
                                assert(old(self)@.bod[*id].contains(d));
                            }
                        }
                        assert(old(self)@.fdo[d] =~= old(self)@.fdo[d].remove(*id));
                    }
                }
                assert(self.backward_dt_op.map() =~= t.bdo);
                assert(self.forward_dt_op.map() =~= t.fdo);
                assert(self@ =~= t);
                Self::lemma_del_op_shape_wf(old(self)@, *id);
                assert(self.op_seq().to_set() =~= self@.ops);
            }
            Ok(*id)
        } else {
            Err(AutoDiffError::UnknownNode)
        }
    }
}

impl Graph {
    /// Removing the edge between a data node and a consuming operator keeps
    /// the shape well-formed.
    pub proof fn lemma_decouple_data_func_shape_wf(s: GraphShape, var: NetIndex, func: NetIndex)
        requires
            s.wf(),
            s.data.contains(var),
            s.ops.contains(func),
        ensures
            Self::decouple_data_func_shape(s, var, func).wf(),
    {
        let t = Self::decouple_data_func_shape(s, var, func);
        assert(t.fdo.dom() =~= t.data);
        assert(t.bod.dom() =~= t.ops);
        assert forall|d: NetIndex, o: NetIndex|
            t.data.contains(d) && #[trigger] t.fdo[d].contains(o) implies t.ops.contains(o)
            && t.bod[o].contains(d) by {
            assert(s.fdo[d].contains(o));
            assert(!(d == var && o == func));
        }
        assert forall|o: NetIndex, d: NetIndex|
            t.ops.contains(o) && #[trigger] t.bod[o].contains(d) implies t.data.contains(d)
            && t.fdo[d].contains(o) by {
            assert(s.bod[o].contains(d));
            assert(!(d == var && o == func));
        }
    }

    /// Removing the edge between an operator and a produced data node keeps
    /// the shape well-formed.
    pub proof fn lemma_decouple_func_data_shape_wf(s: GraphShape, func: NetIndex, var: NetIndex)
        requires
            s.wf(),
            s.data.contains(var),
            s.ops.contains(func),
        ensures
            Self::decouple_func_data_shape(s, func, var).wf(),
    {
        let t = Self::decouple_func_data_shape(s, func, var);
        assert(t.bdo.dom() =~= t.data);
        assert(t.fod.dom() =~= t.ops);
        assert forall|d: NetIndex, o: NetIndex|
            t.data.contains(d) && #[trigger] t.bdo[d].contains(o) implies t.ops.contains(o)
            && t.fod[o].contains(d) by {
            assert(s.bdo[d].contains(o));
            assert(!(d == var && o == func));
        }
        assert forall|o: NetIndex, d: NetIndex|
            t.ops.contains(o) && #[trigger] t.fod[o].contains(d) implies t.data.contains(d)
            && t.bdo[d].contains(o) by {
            assert(s.fod[o].contains(d));
            assert(!(d == var && o == func));
        }
    }

    /// Remove the edge "data `var` feeds operator `func`"; fails if either
    /// endpoint is unregistered, succeeds (as a no-op) if the edge does not
    /// exist.
    pub fn decouple_data_func(&mut self, var: &NetIndex, func: &NetIndex) -> (r: Result<(), AutoDiffError>)
        requires
            old(self).wf(),
        ensures
            final(self).wf(),
            r is Ok <==> old(self)@.data.contains(*var) && old(self)@.ops.contains(*func),
            r is Ok ==> final(self)@ == Self::decouple_data_func_shape(old(self)@, *var, *func),
            r is Err ==> *final(self) == *old(self) && r->Err_0 == AutoDiffError::UnknownNode,
    {
        if self.data.contains(var) && self.op.contains(func) {
            self.forward_dt_op.remove_edge(var, func);
            self.backward_op_dt.remove_edge(func, var);
            proof {
                assert(self@ =~= Self::decouple_data_func_shape(old(self)@, *var, *func));
                Self::lemma_decouple_data_func_shape_wf(old(self)@, *var, *func);
            }
            Ok(())
        } else {
            Err(AutoDiffError::UnknownNode)
        }
    }

    /// Remove the edge "operator `func` produces data `var`"; fails if either
    /// endpoint is unregistered, succeeds (as a no-op) if the edge does not
    /// exist.
    pub fn decouple_func_data(&mut self, func: &NetIndex, var: &NetIndex) -> (r: Result<(), AutoDiffError>)
        requires
            old(self).wf(),
        ensures
            final(self).wf(),
            r is Ok <==> old(self)@.data.contains(*var) && old(self)@.ops.contains(*func),
            r is Ok ==> final(self)@ == Self::decouple_func_data_shape(old(self)@, *func, *var),
            r is Err ==> *final(self) == *old(self) && r->Err_0 == AutoDiffError::UnknownNode,
    {
        if self.data.contains(var) && self.op.contains(func) {
            self.forward_op_dt.remove_edge(func, var);
            self.backward_dt_op.remove_edge(var, func);
            proof {
                assert(self@ =~= Self::decouple_func_data_shape(old(self)@, *func, *var));
                Self::lemma_decouple_func_data_shape_wf(old(self)@, *func, *var);
            }
            Ok(())
        } else {
            Err(AutoDiffError::UnknownNode)
        }
    }

    /// The data nodes with no producing operator: the graph's required
    /// external inputs.
    pub fn get_input_cache(&self) -> (r: IdSet)
        requires
            self.wf(),
        ensures
            r.set() == self@.source_set(),
            r.wf(),
    {
        let mut jobs = IdSet::new();
        let n = self.data.len();
        let mut i: usize = 0;
        while i < n
            invariant
                self.wf(),
                i <= n,
                n == self.data_seq().len(),
                jobs.wf(),
                forall|d: NetIndex|
                    #[trigger] jobs.set().contains(d) ==> self@.source_set().contains(d),
                forall|k: int|
                    0 <= k < i && self@.source_set().contains(#[trigger] self.data_seq()[k])
                        ==> jobs.set().contains(self.data_seq()[k]),
            decreases n - i,
        {
            let d = self.data.index(i);
            proof {
                assert(self.data_seq().to_set().contains(d));
            }
            match self.backward_dt_op.get(&d) {
                Some(s) => {
                    if s.is_empty() {
                        jobs.insert(d);
                    }
                },
                None => {
                    proof {
                        assert(false);
                    }
                },
            }
            i = i + 1;
        }
        proof {
            assert forall|d: NetIndex|
                self@.source_set().contains(d) implies #[trigger] jobs.set().contains(d) by {
                assert(self.data_seq().to_set().contains(d));
                let k = choose|k: int|
                    0 <= k < self.data_seq().len() && #[trigger] self.data_seq()[k] == d;
                assert(self@.source_set().contains(self.data_seq()[k]));
            }
            assert(jobs.set() =~= self@.source_set());
        }
        jobs
    }

    /// The data nodes with no consuming operator: the graph's observable
    /// outputs.
    pub fn get_output_cache(&self) -> (r: IdSet)
        requires
            self.wf(),
        ensures
            r.set() == self@.sink_set(),
            r.wf(),
    {
        let mut jobs = IdSet::new();
        let n = self.data.len();
        let mut i: usize = 0;
        while i < n
            invariant
                self.wf(),
                i <= n,
                n == self.data_seq().len(),
                jobs.wf(),
                forall|d: NetIndex|
                    #[trigger] jobs.set().contains(d) ==> self@.sink_set().contains(d),
                forall|k: int|
                    0 <= k < i && self@.sink_set().contains(#[trigger] self.data_seq()[k])
                        ==> jobs.set().contains(self.data_seq()[k]),
            decreases n - i,
        {
            let d = self.data.index(i);
            proof {
                assert(self.data_seq().to_set().contains(d));
            }
            match self.forward_dt_op.get(&d) {
                Some(s) => {
                    if s.is_empty() {
                        jobs.insert(d);
                    }
                },
                None => {
                    proof {
                        assert(false);
                    }
                },
            }
            i = i + 1;
        }
        proof {
            assert forall|d: NetIndex|
                self@.sink_set().contains(d) implies #[trigger] jobs.set().contains(d) by {
                assert(self.data_seq().to_set().contains(d));
                let k = choose|k: int|
                    0 <= k < self.data_seq().len() && #[trigger] self.data_seq()[k] == d;
                assert(self@.sink_set().contains(self.data_seq()[k]));
            }
            assert(jobs.set() =~= self@.sink_set());
        }
        jobs
    }

    /// Connecting registered nodes keeps the shape well-formed.
    pub proof fn lemma_connect_shape_wf(
        s: GraphShape,
        dti: Seq<NetIndex>,
        dto: Seq<NetIndex>,
        op: NetIndex,
    )
        requires
            s.wf(),
            s.ops.contains(op),
            forall|k: int| 0 <= k < dti.len() ==> s.data.contains(#[trigger] dti[k]),
            forall|k: int| 0 <= k < dto.len() ==> s.data.contains(#[trigger] dto[k]),
        ensures
            Self::connect_shape(s, dti, dto, op).wf(),
    {
        let t = Self::connect_shape(s, dti, dto, op);
        assert(t.fdo.dom() =~= t.data);
        assert(t.bdo.dom() =~= t.data);
        assert(t.fod.dom() =~= t.ops);
        assert(t.bod.dom() =~= t.ops);
        assert forall|d: NetIndex, o: NetIndex|
            t.data.contains(d) && #[trigger] t.fdo[d].contains(o) implies t.ops.contains(o)
            && t.bod[o].contains(d) by {
            if dti.contains(d) && o == op {
                assert(dti.to_set().contains(d));
                assert(t.bod[op].contains(d));
            } else {
                assert(s.fdo[d].contains(o));
            }
        }
        assert forall|o: NetIndex, d: NetIndex|
            t.ops.contains(o) && #[trigger] t.bod[o].contains(d) implies t.data.contains(d)
            && t.fdo[d].contains(o) by {
            if o == op && dti.to_set().contains(d) {
                let k = choose|k: int| 0 <= k < dti.len() && dti[k] == d;
                assert(s.data.contains(d));
                assert(t.fdo[d].contains(op));
            } else {
                assert(s.bod[o].contains(d));
            }
        }
        assert forall|d: NetIndex, o: NetIndex|
            t.data.contains(d) && #[trigger] t.bdo[d].contains(o) implies t.ops.contains(o)
            && t.fod[o].contains(d) by {
            if dto.contains(d) && o == op {
                assert(dto.to_set().contains(d));
                assert(t.fod[op].contains(d));
            } else {
                assert(s.bdo[d].contains(o));
            }
        }
        assert forall|o: NetIndex, d: NetIndex|
            t.ops.contains(o) && #[trigger] t.fod[o].contains(d) implies t.data.contains(d)
            && t.bdo[d].contains(o) by {
            if o == op && dto.to_set().contains(d) {
                let k = choose|k: int| 0 <= k < dto.len() && dto[k] == d;
                assert(s.data.contains(d));
                assert(t.bdo[d].contains(op));
            } else {
                assert(s.fod[o].contains(d));
            }
        }
    }

    /// Wire operator `op` to consume every data node of `dti` and produce
    /// every data node of `dto`. Fails — changing nothing — unless `op` and
    /// all listed data nodes are already registered. Edges are a set
    /// relation: reconnecting an existing pair is a no-op, not an error.
    pub fn connect(&mut self, dti: &[NetIndex], dto: &[NetIndex], op: &NetIndex) -> (r: Result<
        NetIndex,
        AutoDiffError,
    >)
        requires
            old(self).wf(),
        ensures
            final(self).wf(),
            r is Ok <==> ({
                &&& old(self)@.ops.contains(*op)
                &&& forall|k: int| 0 <= k < dti@.len() ==> old(self)@.data.contains(#[trigger] dti@[k])
                &&& forall|k: int| 0 <= k < dto@.len() ==> old(self)@.data.contains(#[trigger] dto@[k])
            }),
            r is Ok ==> r->Ok_0 == *op && final(self)@ == Self::connect_shape(
                old(self)@,
                dti@,
                dto@,
                *op,
            ),
            r is Err ==> *final(self) == *old(self) && r->Err_0 == AutoDiffError::UnknownNode,
    {
        let mut valid_ids = self.op.contains(op);
        let ni = dti.len();
        let mut i: usize = 0;
        while i < ni
            invariant
                self.wf(),
                *self == *old(self),
                i <= ni,
                ni == dti@.len(),
                valid_ids == (self@.ops.contains(*op) && (forall|k: int|
                    0 <= k < i ==> self@.data.contains(#[trigger] dti@[k]))),
            decreases ni - i,
        {
            if !self.data.contains(&dti[i]) {
                valid_ids = false;
            }
            i = i + 1;
        }
        let no = dto.len();
        let mut j: usize = 0;
        while j < no
            invariant
                self.wf(),
                *self == *old(self),
                j <= no,
                no == dto@.len(),
                ni == dti@.len(),
                valid_ids == (self@.ops.contains(*op) && (forall|k: int|
                    0 <= k < ni ==> self@.data.contains(#[trigger] dti@[k])) && (forall|k: int|
                    0 <= k < j ==> self@.data.contains(#[trigger] dto@[k]))),
            decreases no - j,
        {
            if !self.data.contains(&dto[j]) {
                valid_ids = false;
            }
            j = j + 1;
        }
        if valid_ids {
            proof {
                assert(old(self)@.bod[*op].union(dti@.subrange(0, 0).to_set()) =~= old(
                    self,
                )@.bod[*op]);
                assert(old(self)@.bod.insert(*op, old(self)@.bod[*op]) =~= old(self)@.bod);
                assert(old(self)@.fod[*op].union(dto@.subrange(0, 0).to_set()) =~= old(
                    self,
                )@.fod[*op]);
                assert(old(self)@.fod.insert(*op, old(self)@.fod[*op]) =~= old(self)@.fod);
            }
            let mut i: usize = 0;
            while i < ni
                invariant
                    old(self).wf(),
                    old(self)@.ops.contains(*op),
                    forall|k: int| 0 <= k < ni ==> old(self)@.data.contains(#[trigger] dti@[k]),
                    i <= ni,
                    ni == dti@.len(),
                    self.data == old(self).data,
                    self.op == old(self).op,
                    self.backward_dt_op == old(self).backward_dt_op,
                    self.forward_op_dt == old(self).forward_op_dt,
                    self.forward_dt_op.wf(),
                    self.forward_dt_op.map().dom() == old(self)@.fdo.dom(),
                    forall|d: NetIndex|
                        old(self)@.fdo.dom().contains(d) ==> #[trigger] self.forward_dt_op.map()[d]
                            == if dti@.subrange(0, i as int).contains(d) {
                            old(self)@.fdo[d].insert(*op)
                        } else {
                            old(self)@.fdo[d]
                        },
                    self.backward_op_dt.wf(),
                    self.backward_op_dt.map() == old(self)@.bod.insert(
                        *op,
                        old(self)@.bod[*op].union(dti@.subrange(0, i as int).to_set()),
                    ),
                decreases ni - i,
            {
                let d = dti[i];
                proof {
                    assert(old(self)@.data.contains(d));
                }
                self.forward_dt_op.add_edge(&d, *op);
                self.backward_op_dt.add_edge(op, d);
                proof {
                    let ghost pre = dti@.subrange(0, i as int);
                    let ghost post = dti@.subrange(0, i + 1 as int);
                    assert(post =~= pre.push(d));
                    assert forall|d2: NetIndex| old(self)@.fdo.dom().contains(d2) implies
                        #[trigger] self.forward_dt_op.map()[d2] == if post.contains(d2) {
                        old(self)@.fdo[d2].insert(*op)
                    } else {
                        old(self)@.fdo[d2]
                    } by {
                        if d2 == d {
                            if pre.contains(d2) {
                                assert(self.forward_dt_op.map()[d2] =~= old(self)@.fdo[d2].insert(
                                    *op,
                                ));
                            } else {
                                assert(post.contains(d2)) by {
                                    assert(post[i as int] == d2);
                                }
                            }
                        } else {
                            if post.contains(d2) {
                                let q = choose|q: int| 0 <= q < post.len() && post[q] == d2;
                                assert(pre.contains(d2)) by {
                                    assert(q < i as int);
                                    assert(pre[q] == d2);
                                }
                            } else if pre.contains(d2) {
                                let q = choose|q: int| 0 <= q < pre.len() && pre[q] == d2;
                                assert(post[q] == d2);
                            }
                        }
                    }
                    assert forall|x: NetIndex|
                        #[trigger] post.to_set().contains(x) implies pre.to_set().contains(x) || x
                        == d by {
                        let q = choose|q: int| 0 <= q < post.len() && post[q] == x;
                        if q < pre.len() {
                            assert(pre[q] == x);
                        }
                    }
                    assert forall|x: NetIndex|
                        pre.to_set().contains(x) implies #[trigger] post.to_set().contains(x) by {
                        let q = choose|q: int| 0 <= q < pre.len() && pre[q] == x;
                        assert(post[q] == x);
                    }
                    assert(post.to_set().contains(d)) by {
                        assert(post[pre.len() as int] == d);
                    }
                    assert(old(self)@.bod[*op].union(pre.to_set()).insert(d) =~= old(
                        self,
                    )@.bod[*op].union(post.to_set()));
                    assert(self.backward_op_dt.map() =~= old(self)@.bod.insert(
                        *op,
                        old(self)@.bod[*op].union(post.to_set()),
                    ));
                }
                i = i + 1;
            }
            proof {
                assert(dti@.subrange(0, dti@.len() as int) =~= dti@);
            }
            let mut j: usize = 0;
            while j < no
                invariant
                    old(self).wf(),
                    old(self)@.ops.contains(*op),
                    forall|k: int| 0 <= k < ni ==> old(self)@.data.contains(#[trigger] dti@[k]),
                    forall|k: int| 0 <= k < no ==> old(self)@.data.contains(#[trigger] dto@[k]),
                    j <= no,
                    no == dto@.len(),
                    ni == dti@.len(),
                    self.data == old(self).data,
                    self.op == old(self).op,
                    self.forward_dt_op.wf(),
                    self.forward_dt_op.map().dom() == old(self)@.fdo.dom(),
                    forall|d: NetIndex|
                        old(self)@.fdo.dom().contains(d) ==> #[trigger] self.forward_dt_op.map()[d]
                            == if dti@.contains(d) {
                            old(self)@.fdo[d].insert(*op)
                        } else {
                            old(self)@.fdo[d]
                        },
                    self.backward_op_dt.wf(),
                    self.backward_op_dt.map() == old(self)@.bod.insert(
                        *op,
                        old(self)@.bod[*op].union(dti@.to_set()),
                    ),
                    self.backward_dt_op.wf(),
                    self.backward_dt_op.map().dom() == old(self)@.bdo.dom(),
                    forall|d: NetIndex|
                        old(self)@.bdo.dom().contains(d) ==> #[trigger] self.backward_dt_op.map()[d]
                            == if dto@.subrange(0, j as int).contains(d) {
                            old(self)@.bdo[d].insert(*op)
                        } else {
                            old(self)@.bdo[d]
                        },
                    self.forward_op_dt.wf(),
                    self.forward_op_dt.map() == old(self)@.fod.insert(
                        *op,
                        old(self)@.fod[*op].union(dto@.subrange(0, j as int).to_set()),
                    ),
                decreases no - j,
            {
                let d = dto[j];
                proof {
                    assert(old(self)@.data.contains(d));
                }
                self.backward_dt_op.add_edge(&d, *op);
                self.forward_op_dt.add_edge(op, d);
                proof {
                    let ghost pre = dto@.subrange(0, j as int);
                    let ghost post = dto@.subrange(0, j + 1 as int);
                    assert(post =~= pre.push(d));
                    assert forall|d2: NetIndex| old(self)@.bdo.dom().contains(d2) implies
                        #[trigger] self.backward_dt_op.map()[d2] == if post.contains(d2) {
                        old(self)@.bdo[d2].insert(*op)
                    } else {
                        old(self)@.bdo[d2]
                    } by {
                        if d2 == d {
                            if pre.contains(d2) {
                                assert(self.backward_dt_op.map()[d2] =~= old(self)@.bdo[d2].insert(
                                    *op,
                                ));
                            } else {
                                assert(post.contains(d2)) by {
                                    assert(post[j as int] == d2);
                                }
                            }
                        } else {
                            if post.contains(d2) {
                                let q = choose|q: int| 0 <= q < post.len() && post[q] == d2;
                                assert(pre.contains(d2)) by {
                                    assert(q < j as int);
                                    assert(pre[q] == d2);
                                }
                            } else if pre.contains(d2) {
                                let q = choose|q: int| 0 <= q < pre.len() && pre[q] == d2;
                                assert(post[q] == d2);
                            }
                        }
                    }
                    assert forall|x: NetIndex|
                        #[trigger] post.to_set().contains(x) implies pre.to_set().contains(x) || x
                        == d by {
                        let q = choose|q: int| 0 <= q < post.len() && post[q] == x;
                        if q < pre.len() {
                            assert(pre[q] == x);
                        }
                    }
                    assert forall|x: NetIndex|
                        pre.to_set().contains(x) implies #[trigger] post.to_set().contains(x) by {
                        let q = choose|q: int| 0 <= q < pre.len() && pre[q] == x;
                        assert(post[q] == x);
                    }
                    assert(post.to_set().contains(d)) by {
                        assert(post[pre.len() as int] == d);
                    }
                    assert(old(self)@.fod[*op].union(pre.to_set()).insert(d) =~= old(
                        self,
                    )@.fod[*op].union(post.to_set()));
                    assert(self.forward_op_dt.map() =~= old(self)@.fod.insert(
                        *op,
                        old(self)@.fod[*op].union(post.to_set()),
                    ));
                }
                j = j + 1;
            }
            proof {
                assert(dto@.subrange(0, dto@.len() as int) =~= dto@);
                let ghost t = Self::connect_shape(old(self)@, dti@, dto@, *op);
                assert(self.forward_dt_op.map() =~= t.fdo);
                assert(self.backward_dt_op.map() =~= t.bdo);
                assert(self@ =~= t);
                Self::lemma_connect_shape_wf(old(self)@, dti@, dto@, *op);
            }
            Ok(*op)
        } else {
            Err(AutoDiffError::UnknownNode)
        }
    }
}

impl IdSet {
    /// A duplicate-free set of members drawn from a duplicate-free sequence
    /// has at most that sequence's length.
    pub proof fn lemma_card_within(&self, bound: Seq<NetIndex>)
        requires
            self.wf(),
            bound.no_duplicates(),
            self.set().subset_of(bound.to_set()),
        ensures
            self.seq().len() <= bound.len(),
    {
        broadcast use vstd::seq_lib::seq_to_set_is_finite;

        self.items@.unique_seq_to_set();
        bound.unique_seq_to_set();
        vstd::set_lib::lemma_len_subset(self.set(), bound.to_set());
    }
}

/// Graph symmetry invariant: in every well-formed graph — and every graph
/// operation both requires and re-establishes well-formedness — an operator
/// is recorded as consuming a data node exactly when that data node is
/// recorded as feeding it, and an operator is recorded as producing a data
/// node exactly when that data node is recorded as coming out of it.
pub proof fn lemma_graph_symmetry(s: GraphShape, d: NetIndex, o: NetIndex)
    requires
        s.wf(),
        s.data.contains(d),
        s.ops.contains(o),
    ensures
        s.fdo[d].contains(o) <==> s.bod[o].contains(d),
        s.bdo[d].contains(o) <==> s.fod[o].contains(d),
{
}

/// Idempotent connect: connecting the same inputs, outputs and operator a
/// second time leaves the graph exactly as the first call left it.
pub proof fn lemma_connect_idempotent(
    s: GraphShape,
    dti: Seq<NetIndex>,
    dto: Seq<NetIndex>,
    op: NetIndex,
)
    ensures
        Graph::connect_shape(Graph::connect_shape(s, dti, dto, op), dti, dto, op)
            == Graph::connect_shape(s, dti, dto, op),
{
    let t1 = Graph::connect_shape(s, dti, dto, op);
    let t2 = Graph::connect_shape(t1, dti, dto, op);
    assert forall|d: NetIndex| t2.fdo.dom().contains(d) implies #[trigger] t2.fdo[d] =~= t1.fdo[d]
        by {
        if dti.contains(d) {
            assert(t1.fdo[d] == s.fdo[d].insert(op));
            assert(t2.fdo[d] =~= s.fdo[d].insert(op));
        }
    }
    assert(t2.fdo =~~= t1.fdo);
    assert forall|d: NetIndex| t2.bdo.dom().contains(d) implies #[trigger] t2.bdo[d] =~= t1.bdo[d]
        by {
        if dto.contains(d) {
            assert(t1.bdo[d] == s.bdo[d].insert(op));
            assert(t2.bdo[d] =~= s.bdo[d].insert(op));
        }
    }
    assert(t2.bdo =~~= t1.bdo);
    assert(t1.bod[op].union(dti.to_set()) =~= s.bod[op].union(dti.to_set()).union(dti.to_set()));
    assert(s.bod[op].union(dti.to_set()).union(dti.to_set()) =~= s.bod[op].union(dti.to_set()));
    assert(t2.bod =~~= t1.bod);
    assert(t1.fod[op].union(dto.to_set()) =~= s.fod[op].union(dto.to_set()).union(dto.to_set()));
    assert(s.fod[op].union(dto.to_set()).union(dto.to_set()) =~= s.fod[op].union(dto.to_set()));
    assert(t2.fod =~~= t1.fod);
    assert(t2 =~~= t1);
}

/// Deletion cascade: removing a data node removes exactly the edges incident
/// to it — it disappears from every operator's input and output sets — while
/// every operator node and every other data node, with all its edges,
/// survives unchanged.
pub proof fn lemma_deletion_cascade(s: GraphShape, id: NetIndex)
    requires
        s.wf(),
    ensures
        Graph::del_data_shape(s, id).ops == s.ops,
        !Graph::del_data_shape(s, id).data.contains(id),
        forall|d: NetIndex|
            d != id ==> ((#[trigger] Graph::del_data_shape(s, id).data.contains(d))
                <==> s.data.contains(d)),
        forall|d: NetIndex|
            s.data.contains(d) && d != id ==> #[trigger] Graph::del_data_shape(s, id).fdo[d]
                == s.fdo[d] && Graph::del_data_shape(s, id).bdo[d] == s.bdo[d],
        forall|o: NetIndex|
            s.ops.contains(o) ==> #[trigger] Graph::del_data_shape(s, id).bod[o] == s.bod[o].remove(
                id,
            ) && Graph::del_data_shape(s, id).fod[o] == s.fod[o].remove(id),
{
}

/// One firing of the readiness-driven walk: an operator together with its
/// full input and output node lists, in traversal direction.
pub struct WalkStep {
    pub inputs: Vec<NetIndex>,
    pub outputs: Vec<NetIndex>,
    pub op: NetIndex,
}

impl GraphShape {
    /// The data-to-operator adjacency in traversal direction.
    pub open spec fn dir_fdo(self, forward: bool) -> Map<NetIndex, Set<NetIndex>> {
        if forward {
            self.fdo
        } else {
            self.bdo
        }
    }

    /// The operator-to-produced-data adjacency in traversal direction.
    pub open spec fn dir_fod(self, forward: bool) -> Map<NetIndex, Set<NetIndex>> {
        if forward {
            self.fod
        } else {
            self.bod
        }
    }

    /// The operator-to-required-inputs adjacency in traversal direction.
    pub open spec fn dir_bod(self, forward: bool) -> Map<NetIndex, Set<NetIndex>> {
        if forward {
            self.bod
        } else {
            self.fod
        }
    }

    /// The data-to-producing-operator adjacency in traversal direction.
    pub open spec fn dir_bdo(self, forward: bool) -> Map<NetIndex, Set<NetIndex>> {
        if forward {
            self.bdo
        } else {
            self.fdo
        }
    }
}

/// Some step before position `k` of the schedule produces data node `d`.
pub open spec fn walk_produced_before(sched: Seq<WalkStep>, k: int, d: NetIndex) -> bool {
    exists|j: int| 0 <= j < k && (#[trigger] sched[j].outputs@.to_set().contains(d))
}

/// Data node `d` holds a usable value by the time step `k` runs: it was in
/// the starting set or an earlier step produced it.
pub open spec fn walk_avail(start: Set<NetIndex>, sched: Seq<WalkStep>, k: int, d: NetIndex) -> bool {
    start.contains(d) || walk_produced_before(sched, k, d)
}

/// The operators the schedule fires.
pub open spec fn walk_done(sched: Seq<WalkStep>) -> Set<NetIndex> {
    Set::new(|o: NetIndex| exists|j: int| 0 <= j < sched.len() && (#[trigger] sched[j]).op == o)
}

/// A schedule entry agrees with the graph: its operator is registered and
/// its input and output lists are exactly that operator's adjacency sets in
/// traversal direction.
pub open spec fn walk_step_valid(s: GraphShape, forward: bool, step: WalkStep) -> bool {
    &&& s.ops.contains(step.op)
    &&& step.inputs@.to_set() == s.dir_bod(forward)[step.op]
    &&& step.inputs@.no_duplicates()
    &&& step.outputs@.to_set() == s.dir_fod(forward)[step.op]
    &&& step.outputs@.no_duplicates()
}

/// A valid walk schedule: every entry agrees with the graph, every operator
/// fires at most once, and an operator fires only when each of its inputs
/// was in the starting set or was produced by an earlier firing — so a
/// dependency always fires before its dependents.
pub open spec fn walk_sched_valid(
    s: GraphShape,
    forward: bool,
    start: Set<NetIndex>,
    sched: Seq<WalkStep>,
) -> bool {
    &&& forall|k: int| 0 <= k < sched.len() ==> walk_step_valid(s, forward, #[trigger] sched[k])
    &&& forall|k: int, l: int| 0 <= k < l < sched.len() ==> sched[k].op != sched[l].op
    &&& forall|k: int, d: NetIndex|
        0 <= k < sched.len() && (#[trigger] sched[k].inputs@.to_set().contains(d)) ==> walk_avail(
            start,
            sched,
            k,
            d,
        )
}

/// At the end of a walk no further operator can fire: every not-yet-fired
/// operator adjacent to a leftover ready node is missing at least one input.
/// Operator `o` is adjacent (in traversal direction) to some ready node.
pub open spec fn walk_candidate(
    s: GraphShape,
    forward: bool,
    jobs: Set<NetIndex>,
    o: NetIndex,
) -> bool {
    exists|d: NetIndex| jobs.contains(d) && (#[trigger] s.dir_fdo(forward)[d]).contains(o)
}

/// Some consumer of `d` (in traversal direction) has not fired yet.
pub open spec fn walk_has_pending_consumer(
    s: GraphShape,
    forward: bool,
    done: Set<NetIndex>,
    d: NetIndex,
) -> bool {
    exists|o: NetIndex| (#[trigger] s.dir_fdo(forward)[d].contains(o)) && !done.contains(o)
}

/// The starting set is producer-free and every data node has at most one
/// producer in traversal direction: the conditions under which a produced
/// node can never find all of its consumers already fired.
pub open spec fn walk_safe_start(s: GraphShape, forward: bool, start: Set<NetIndex>) -> bool {
    &&& forall|d: NetIndex| #[trigger] start.contains(d) ==> s.data.contains(d) && s.dir_bdo(
        forward,
    )[d] == Set::<NetIndex>::empty()
    &&& forall|d: NetIndex, o1: NetIndex, o2: NetIndex|
        s.data.contains(d) && (#[trigger] s.dir_bdo(forward)[d].contains(o1)) && (
        #[trigger] s.dir_bdo(forward)[d].contains(o2)) ==> o1 == o2
}

/// The graph's symmetry clauses, read through the traversal direction.
pub proof fn lemma_dir_symmetry(s: GraphShape, forward: bool, d: NetIndex, o: NetIndex)
    requires
        s.wf(),
    ensures
        s.data.contains(d) && s.dir_fdo(forward)[d].contains(o) ==> s.ops.contains(o) && s.dir_bod(
            forward,
        )[o].contains(d),
        s.ops.contains(o) && s.dir_bod(forward)[o].contains(d) ==> s.data.contains(d) && s.dir_fdo(
            forward,
        )[d].contains(o),
        s.data.contains(d) && s.dir_bdo(forward)[d].contains(o) ==> s.ops.contains(o) && s.dir_fod(
            forward,
        )[o].contains(d),
        s.ops.contains(o) && s.dir_fod(forward)[o].contains(d) ==> s.data.contains(d) && s.dir_bdo(
            forward,
        )[d].contains(o),
{
    if forward {
    } else {
    }
}

/// Operator `o` is missing at least one ready input.
pub open spec fn walk_blocked(
    s: GraphShape,
    forward: bool,
    jobs: Set<NetIndex>,
    o: NetIndex,
) -> bool {
    exists|d: NetIndex| (#[trigger] s.dir_bod(forward)[o].contains(d)) && !jobs.contains(d)
}

/// At the end of a walk no further operator can fire: every not-yet-fired
/// operator adjacent to a leftover ready node is missing at least one input.
pub open spec fn walk_fixpoint(
    s: GraphShape,
    forward: bool,
    jobs: Set<NetIndex>,
    done: Set<NetIndex>,
) -> bool {
    forall|o: NetIndex|
        s.ops.contains(o) && !done.contains(o) && walk_candidate(s, forward, jobs, o)
            ==> walk_blocked(s, forward, jobs, o)
}

/// Everything one readiness walk guarantees about its schedule and its
/// leftover ready set: the schedule is valid for the graph, no further
/// operator can fire, an available node still needed by an unfired consumer
/// is among the leftovers, each leftover node is a registered data node that
/// became ready and was started with or has a consumer, a leftover node keeps
/// an unfired consumer when starts are producer-free with unique producers,
/// and an unfired operator with inputs has an input that never became ready.
pub open spec fn walk_outcome(
    s: GraphShape,
    forward: bool,
    start: Set<NetIndex>,
    sched: Seq<WalkStep>,
    left: Set<NetIndex>,
) -> bool {
    &&& walk_sched_valid(s, forward, start, sched)
    &&& walk_fixpoint(s, forward, left, walk_done(sched))
    &&& forall|d: NetIndex|
        s.data.contains(d) && walk_avail(start, sched, sched.len() as int, d)
            && walk_has_pending_consumer(s, forward, walk_done(sched), d) ==> #[trigger] left.contains(
            d,
        )
    &&& forall|d: NetIndex|
        #[trigger] left.contains(d) ==> s.data.contains(d) && walk_avail(
            start,
            sched,
            sched.len() as int,
            d,
        )
    &&& forall|d: NetIndex|
        #[trigger] left.contains(d) ==> start.contains(d) || s.dir_fdo(forward)[d] != Set::<
            NetIndex,
        >::empty()
    &&& (walk_safe_start(s, forward, start) ==> forall|d: NetIndex|
        #[trigger] left.contains(d) ==> (s.dir_fdo(forward)[d] == Set::<NetIndex>::empty()
            || walk_has_pending_consumer(s, forward, walk_done(sched), d)))
    &&& forall|o: NetIndex|
        s.ops.contains(o) && s.dir_bod(forward)[o] != Set::<NetIndex>::empty() && !(
        #[trigger] walk_done(sched).contains(o)) ==> exists|d: NetIndex|
            (#[trigger] s.dir_bod(forward)[o].contains(d)) && !walk_avail(
                start,
                sched,
                sched.len() as int,
                d,
            )
}

/// Some schedule exists whose walk outcome leaves exactly `left` ready.
pub open spec fn walk_outcome_exists(
    s: GraphShape,
    forward: bool,
    start: Set<NetIndex>,
    left: Set<NetIndex>,
) -> bool {
    exists|sched: Seq<WalkStep>| #[trigger] walk_outcome(s, forward, start, sched, left)
}

/// The member list under key `k`, sorted ascending by handle.
fn adj_vec(m: &AdjMap, k: &NetIndex) -> (r: Vec<NetIndex>)
    requires
        m.wf(),
        m.map().dom().contains(*k),
    ensures
        r@.to_set() == m.map()[*k],
        r@.no_duplicates(),
        sorted_by_handle(r@),
{
    match m.get(k) {
        Some(s) => s.to_sorted_vec(),
        None => {
            proof {
                assert(false);
            }
            Vec::new()
        },
    }
}

impl Graph {
    /// Compute the firing order of the readiness-driven walk.
    ///
    /// Starting from `start_set` (handles of data nodes that already hold a
    /// value), repeatedly fire every not-yet-fired operator all of whose
    /// inputs (in traversal direction) are ready; firing an operator retires
    /// each input that no remaining operator needs and makes each produced
    /// node ready unless it is a terminal sink. The result is the schedule
    /// and the set of ready nodes left over when no further progress is
    /// possible — empty exactly when the walk drained fully.
    pub fn walk_plan(&self, start_set: &[NetIndex], forward: bool) -> (r: (Vec<WalkStep>, IdSet))
        requires
            self.wf(),
            forall|k: int|
                0 <= k < start_set@.len() ==> self@.data.contains(#[trigger] start_set@[k]),
        ensures
            walk_outcome(self@, forward, start_set@.to_set(), r.0@, r.1.set()),
            r.1.wf(),
    {
        let fdo: &AdjMap = if forward {
            &self.forward_dt_op
        } else {
            &self.backward_dt_op
        };
        let fod: &AdjMap = if forward {
            &self.forward_op_dt
        } else {
            &self.backward_op_dt
        };
        let bod: &AdjMap = if forward {
            &self.backward_op_dt
        } else {
            &self.forward_op_dt
        };
        proof {
            assert(fdo.map() == self@.dir_fdo(forward));
            assert(fod.map() == self@.dir_fod(forward));
            assert(bod.map() == self@.dir_bod(forward));
        }
        let ghost start = start_set@.to_set();

        let mut jobs = IdSet::new();
        let ns = start_set.len();
        let mut si: usize = 0;
        while si < ns
            invariant
                si <= ns,
                ns == start_set@.len(),
                forall|k: int|
                    0 <= k < start_set@.len() ==> self@.data.contains(#[trigger] start_set@[k]),
                jobs.wf(),
                forall|d: NetIndex| #[trigger] jobs.set().contains(d) ==> start_set@.contains(d),
                forall|k: int| 0 <= k < si ==> jobs.set().contains(#[trigger] start_set@[k]),
            decreases ns - si,
        {
            jobs.insert(start_set[si]);
            si = si + 1;
        }
        proof {
            assert forall|d: NetIndex| #[trigger] jobs.set().contains(d) implies start.contains(d)
                && self@.data.contains(d) by {
                let k = choose|k: int|
                    0 <= k < start_set@.len() && #[trigger] start_set@[k] == d;
            }
            assert forall|d: NetIndex| start.contains(d) implies jobs.set().contains(d) by {
                let k = choose|k: int|
                    0 <= k < start_set@.len() && #[trigger] start_set@[k] == d;
            }
        }

        let mut done = IdSet::new();
        let mut sched: Vec<WalkStep> = Vec::new();
        let mut progress = true;
        proof {
            assert forall|d: NetIndex| #[trigger] jobs.set().contains(d) implies (self@.dir_fdo(
                forward,
            )[d] == Set::<NetIndex>::empty() || walk_has_pending_consumer(
                self@,
                forward,
                done.set(),
                d,
            )) by {
                if self@.dir_fdo(forward)[d] != Set::<NetIndex>::empty() {
                    assert(exists|oc: NetIndex| self@.dir_fdo(forward)[d].contains(oc)) by {
                        if forall|oc: NetIndex| !self@.dir_fdo(forward)[d].contains(oc) {
                            assert(self@.dir_fdo(forward)[d] =~= Set::<NetIndex>::empty());
                        }
                    }
                    let oc = choose|oc: NetIndex| self@.dir_fdo(forward)[d].contains(oc);
                    assert(!done.set().contains(oc));
                }
            }
        }

        while progress
            invariant
                self.wf(),
                fdo.map() == self@.dir_fdo(forward),
                fod.map() == self@.dir_fod(forward),
                bod.map() == self@.dir_bod(forward),
                fdo.wf() && fod.wf() && bod.wf(),
                forall|d: NetIndex| start.contains(d) ==> self@.data.contains(d),
                jobs.wf(),
                done.wf(),
                done.set() == walk_done(sched@),
                done.seq().len() <= self.op_seq().len(),
                done.set().subset_of(self@.ops),
                walk_sched_valid(self@, forward, start, sched@),
                // every ready node is a data node that became available
                forall|d: NetIndex|
                    #[trigger] jobs.set().contains(d) ==> self@.data.contains(d) && walk_avail(
                        start,
                        sched@,
                        sched@.len() as int,
                        d,
                    ),
                // an available node still needed by a pending consumer stays ready
                forall|d: NetIndex|
                    self@.data.contains(d) && walk_avail(start, sched@, sched@.len() as int, d)
                        && (exists|o: NetIndex|
                        (#[trigger] self@.dir_fdo(forward)[d]).contains(o) && !done.set().contains(
                            o,
                        )) ==> jobs.set().contains(d),
                // a ready node was started with or has a consumer
                forall|d: NetIndex|
                    #[trigger] jobs.set().contains(d) ==> start.contains(d) || self@.dir_fdo(
                        forward,
                    )[d] != Set::<NetIndex>::empty(),
                walk_safe_start(self@, forward, start) ==> forall|d: NetIndex|
                    #[trigger] jobs.set().contains(d) ==> (self@.dir_fdo(forward)[d] == Set::<
                    NetIndex,
                >::empty() || walk_has_pending_consumer(self@, forward, done.set(), d)),
                !progress ==> walk_fixpoint(self@, forward, jobs.set(), done.set()),
            decreases
                    self.op_seq().len() - done.seq().len(),
                    (if progress {
                        1int
                    } else {
                        0int
                    }),
        {
            progress = false;
            let ghost jobs_pass = jobs.set();
            let ghost done_pass = done.set();
            let ghost done_len_pass = done.seq().len() as int;
            let ghost sched_pass = sched@;

            // collect the operators adjacent to any ready node
            let mut edge_op = IdSet::new();
            let nj = jobs.len();
            let mut t: usize = 0;
            while t < nj
                invariant
                    self.wf(),
                    fdo.map() == self@.dir_fdo(forward),
                    fdo.wf(),
                    t <= nj,
                    nj == jobs.seq().len(),
                    jobs.wf(),
                    forall|d: NetIndex| #[trigger] jobs.set().contains(d) ==> self@.data.contains(d),
                    edge_op.wf(),
                    edge_op.set().subset_of(self@.ops),
                    forall|k: int, o: NetIndex|
                        0 <= k < t && (#[trigger] self@.dir_fdo(forward)[jobs.seq()[k]].contains(o))
                            ==> edge_op.set().contains(o),
                decreases nj - t,
            {
                let d = jobs.index(t);
                proof {
                    assert(jobs.set().contains(d));
                    assert(self.swf());
                    assert(fdo.wf());
                    assert(self@.dir_fdo(forward).dom() == self@.data);
                }
                let adj = adj_vec(fdo, &d);
                let na = adj.len();
                let mut u: usize = 0;
                while u < na
                    invariant
                        self.wf(),
                        t < nj,
                        nj == jobs.seq().len(),
                        jobs.wf(),
                        d == jobs.seq()[t as int],
                        self@.data.contains(d),
                        u <= na,
                        na == adj@.len(),
                        adj@.to_set() == self@.dir_fdo(forward)[d],
                        forall|d2: NetIndex|
                            #[trigger] jobs.set().contains(d2) ==> self@.data.contains(d2),
                        edge_op.wf(),
                        edge_op.set().subset_of(self@.ops),
                        forall|k: int, o: NetIndex|
                            0 <= k < t && (#[trigger] self@.dir_fdo(forward)[jobs.seq()[k]].contains(
                                o,
                            )) ==> edge_op.set().contains(o),
                        forall|k: int| 0 <= k < u ==> edge_op.set().contains(#[trigger] adj@[k]),
                    decreases na - u,
                {
                    let o = adj[u];
                    proof {
                        assert(adj@.to_set().contains(o));
                        assert(self@.dir_fdo(forward)[d].contains(o));
                        assert(self@.ops.contains(o));
                    }
                    edge_op.insert(o);
                    u = u + 1;
                }
                proof {
                    assert forall|o: NetIndex|
                        #[trigger] self@.dir_fdo(forward)[d].contains(o) implies edge_op.set()
                        .contains(o) by {
                        let k = choose|k: int| 0 <= k < adj@.len() && #[trigger] adj@[k] == o;
                    }
                }
                t = t + 1;
            }

            // fire every candidate whose full input set is ready
            let ne = edge_op.len();
            let mut m: usize = 0;
            while m < ne
                invariant
                    self.wf(),
                    fdo.map() == self@.dir_fdo(forward),
                    fod.map() == self@.dir_fod(forward),
                    bod.map() == self@.dir_bod(forward),
                    fdo.wf() && fod.wf() && bod.wf(),
                    forall|d: NetIndex| start.contains(d) ==> self@.data.contains(d),
                    m <= ne,
                    ne == edge_op.seq().len(),
                    edge_op.wf(),
                    edge_op.set().subset_of(self@.ops),
                    jobs.wf(),
                    done.wf(),
                    done.set() == walk_done(sched@),
                    done.seq().len() <= self.op_seq().len(),
                    done.set().subset_of(self@.ops),
                    walk_sched_valid(self@, forward, start, sched@),
                    forall|d: NetIndex|
                        #[trigger] jobs.set().contains(d) ==> self@.data.contains(d) && walk_avail(
                            start,
                            sched@,
                            sched@.len() as int,
                            d,
                        ),
                    forall|d: NetIndex|
                        self@.data.contains(d) && walk_avail(start, sched@, sched@.len() as int, d)
                            && (exists|o: NetIndex|
                            (#[trigger] self@.dir_fdo(forward)[d]).contains(o)
                                && !done.set().contains(o)) ==> jobs.set().contains(d),
                    forall|d: NetIndex|
                        #[trigger] jobs.set().contains(d) ==> start.contains(d) || self@.dir_fdo(
                            forward,
                        )[d] != Set::<NetIndex>::empty(),
                    walk_safe_start(self@, forward, start) ==> forall|d: NetIndex|
                        #[trigger] jobs.set().contains(d) ==> (self@.dir_fdo(forward)[d] == Set::<
                        NetIndex,
                    >::empty() || walk_has_pending_consumer(self@, forward, done.set(), d)),
                    !progress ==> jobs.set() == jobs_pass && done.set() == done_pass && sched@
                        == sched_pass,
                    !progress ==> forall|k: int|
                        0 <= k < m ==> done.set().contains(#[trigger] edge_op.seq()[k]) || (exists|
                            d: NetIndex,
                        |
                            (#[trigger] self@.dir_bod(forward)[edge_op.seq()[k]].contains(d))
                                && !jobs.set().contains(d)),
                    progress ==> done.seq().len() > done_len_pass,
                    done.seq().len() >= done_len_pass,
                    done_pass.subset_of(done.set()),
                decreases ne - m,
            {
                let o = edge_op.index(m);
                proof {
                    assert(edge_op.set().contains(o));
                    assert(self@.ops.contains(o));
                }
                if !done.contains(&o) {
                    proof {
                        assert(self.swf());
                        assert(bod.wf());
                        assert(self@.dir_bod(forward).dom() == self@.ops);
                    }
                    let binputs = adj_vec(bod, &o);
                    let nb = binputs.len();
                    let mut all_in = true;
                    let mut w: usize = 0;
                    while w < nb
                        invariant
                            w <= nb,
                            nb == binputs@.len(),
                            jobs.wf(),
                            all_in == (forall|k: int|
                                0 <= k < w ==> jobs.set().contains(#[trigger] binputs@[k])),
                        decreases nb - w,
                    {
                        if !jobs.contains(&binputs[w]) {
                            all_in = false;
                        }
                        w = w + 1;
                    }
                    if all_in {
                        // fire the operator
                        proof {
                            assert(self.swf());
                            assert(fod.wf());
                            assert(self@.dir_fod(forward).dom() == self@.ops);
                        }
                        let outputs = adj_vec(fod, &o);
                        let ghost jobs0 = jobs.set();
                        let ghost done0 = done.set();
                        let ghost sched0 = sched@;
                        done.insert(o);
                        proof {
                            done.lemma_card_within(self.op_seq());
                            assert forall|d: NetIndex|
                                #[trigger] binputs@.to_set().contains(d) implies jobs0.contains(d)
                                && self@.data.contains(d) by {
                                let k = choose|k: int|
                                    0 <= k < binputs@.len() && #[trigger] binputs@[k] == d;
                            }
                            assert forall|d: NetIndex|
                                #[trigger] outputs@.to_set().contains(d) implies self@.data.contains(
                                d,
                            ) by {
                                assert(self@.dir_fod(forward)[o].contains(d));
                            }
                            if walk_safe_start(self@, forward, start) {
                                assert forall|d2: NetIndex|
                                    #[trigger] jobs.set().contains(d2) implies (self@.dir_fdo(
                                        forward,
                                    )[d2] == Set::<NetIndex>::empty()
                                        || walk_has_pending_consumer(self@, forward, done.set(), d2)
                                        || (exists|w: int|
                                        0 <= w < binputs@.len() && #[trigger] binputs@[w]
                                            == d2)) by {
                                    if self@.dir_fdo(forward)[d2] != Set::<NetIndex>::empty() {
                                        assert(jobs0.contains(d2));
                                        assert(walk_has_pending_consumer(self@, forward, done0, d2));
                                        let oc = choose|oc: NetIndex|
                                            (#[trigger] self@.dir_fdo(forward)[d2].contains(oc))
                                                && !done0.contains(oc);
                                        if oc == o {
                                            lemma_dir_symmetry(self@, forward, d2, o);
                                            assert(self@.data.contains(d2));
                                            assert(self@.dir_bod(forward)[o].contains(d2));
                                            assert(binputs@.to_set().contains(d2));
                                            let w = choose|w: int|
                                                0 <= w < binputs@.len() && binputs@[w] == d2;
                                            assert(binputs@[w] == d2);
                                        } else {
                                            assert(!done.set().contains(oc));
                                        }
                                    }
                                }
                            }
                        }
                        // retire inputs no pending operator needs
                        let mut w2: usize = 0;
                        while w2 < nb
                            invariant
                                self.wf(),
                                fdo.map() == self@.dir_fdo(forward),
                                fdo.wf(),
                                self@.ops.contains(o),
                                nb == binputs@.len(),
                                w2 <= nb,
                                binputs@.to_set() == self@.dir_bod(forward)[o],
                                binputs@.no_duplicates(),
                                forall|d: NetIndex|
                                    #[trigger] binputs@.to_set().contains(d) ==> jobs0.contains(d)
                                        && self@.data.contains(d),
                                jobs.wf(),
                                done.wf(),
                                done.set() == done0.insert(o),
                                forall|d: NetIndex|
                                    #[trigger] jobs.set().contains(d) ==> jobs0.contains(d),
                                forall|d: NetIndex|
                                    #[trigger] jobs0.contains(d) && !jobs.set().contains(d)
                                        ==> self@.data.contains(d) && self@.dir_fdo(forward)[
                                        d].subset_of(done.set()),
                                walk_safe_start(self@, forward, start) ==> forall|d2: NetIndex|
                                    #[trigger] jobs.set().contains(d2) ==> (self@.dir_fdo(
                                        forward,
                                    )[d2] == Set::<NetIndex>::empty()
                                        || walk_has_pending_consumer(self@, forward, done.set(), d2)
                                        || (exists|w: int|
                                        w2 <= w < binputs@.len() && #[trigger] binputs@[w] == d2)),
                                forall|d: NetIndex|
                                    #[trigger] jobs0.contains(d) && !(binputs@.subrange(
                                        0,
                                        w2 as int,
                                    ).contains(d) && self@.dir_fdo(forward)[d].subset_of(
                                        done.set(),
                                    )) ==> jobs.set().contains(d),
                            decreases nb - w2,
                        {
                            let d = binputs[w2];
                            let ghost jobs_it = jobs.set();
                            proof {
                                assert(binputs@.to_set().contains(d));
                                assert(self.swf());
                                assert(fdo.wf());
                                assert(self@.dir_fdo(forward).dom() == self@.data);
                            }
                            let cons = adj_vec(fdo, &d);
                            let nc = cons.len();
                            let mut alldone = true;
                            let mut w3: usize = 0;
                            while w3 < nc
                                invariant
                                    w3 <= nc,
                                    nc == cons@.len(),
                                    done.wf(),
                                    alldone == (forall|k: int|
                                        0 <= k < w3 ==> done.set().contains(#[trigger] cons@[k])),
                                decreases nc - w3,
                            {
                                if !done.contains(&cons[w3]) {
                                    alldone = false;
                                }
                                w3 = w3 + 1;
                            }
                            proof {
                                if alldone {
                                    assert forall|oc: NetIndex|
                                        #[trigger] self@.dir_fdo(forward)[d].contains(oc) implies
                                        done.set().contains(oc) by {
                                        let k = choose|k: int|
                                            0 <= k < cons@.len() && #[trigger] cons@[k] == oc;
                                    }
                                } else {
                                    let k = choose|k: int|
                                        0 <= k < cons@.len() && !done.set().contains(
                                            #[trigger] cons@[k],
                                        );
                                    assert(cons@.to_set().contains(cons@[k]));
                                    assert(!self@.dir_fdo(forward)[d].subset_of(done.set()));
                                }
                            }
                            if alldone {
                                jobs.remove(&d);
                            }
                            proof {
                                let ghost pre = binputs@.subrange(0, w2 as int);
                                let ghost post = binputs@.subrange(0, w2 + 1 as int);
                                assert(post =~= pre.push(d));
                                assert(post[w2 as int] == d);
                                assert(post.contains(d));
                                assert forall|d2: NetIndex|
                                    #[trigger] jobs0.contains(d2) && !(post.contains(d2)
                                        && self@.dir_fdo(forward)[d2].subset_of(
                                        done.set(),
                                    )) implies jobs.set().contains(d2) by {
                                    if post.contains(d2) {
                                        let q = choose|q: int|
                                            0 <= q < post.len() && post[q] == d2;
                                        if q < pre.len() {
                                            assert(pre[q] == d2);
                                            assert(pre.contains(d2));
                                        } else {
                                            assert(d2 == d);
                                        }
                                        // not retired: some consumer is still pending
                                        if d2 == d {
                                            assert(jobs.set().contains(d2));
                                        } else {
                                            assert(jobs_it.contains(d2));
                                            assert(jobs.set().contains(d2));
                                        }
                                    } else {
                                        if pre.contains(d2) {
                                            let q = choose|q: int|
                                                0 <= q < pre.len() && pre[q] == d2;
                                            assert(post[q] == d2);
                                        }
                                        assert(!pre.contains(d2));
                                        assert(d2 != d);
                                        assert(jobs_it.contains(d2));
                                        assert(jobs.set().contains(d2));
                                    }
                                }
                                if walk_safe_start(self@, forward, start) {
                                    assert forall|d2: NetIndex|
                                        #[trigger] jobs.set().contains(d2) implies (self@.dir_fdo(
                                            forward,
                                        )[d2] == Set::<NetIndex>::empty()
                                            || walk_has_pending_consumer(
                                            self@,
                                            forward,
                                            done.set(),
                                            d2,
                                        ) || (exists|w: int|
                                            w2 + 1 <= w < binputs@.len() && #[trigger] binputs@[w]
                                                == d2)) by {
                                        assert(jobs_it.contains(d2));
                                        if self@.dir_fdo(forward)[d2] != Set::<NetIndex>::empty()
                                            && !walk_has_pending_consumer(
                                            self@,
                                            forward,
                                            done.set(),
                                            d2,
                                        ) {
                                            let w = choose|w: int|
                                                w2 <= w < binputs@.len() && #[trigger] binputs@[w]
                                                    == d2;
                                            if w == w2 {
                                                assert(d2 == d);
                                                if alldone {
                                                    assert(!jobs.set().contains(d2));
                                                } else {
                                                    let oc = choose|oc: NetIndex|
                                                        (#[trigger] self@.dir_fdo(forward)[
                                                        d].contains(oc)) && !done.set().contains(
                                                            oc,
                                                        );
                                                    assert(walk_has_pending_consumer(
                                                        self@,
                                                        forward,
                                                        done.set(),
                                                        d2,
                                                    ));
                                                }
                                            } else {
                                                assert(w2 + 1 <= w);
                                            }
                                        }
                                    }
                                }
                            }
                            w2 = w2 + 1;
                        }
                        proof {
                            assert(binputs@.subrange(0, binputs@.len() as int) =~= binputs@);
                            if walk_safe_start(self@, forward, start) {
                                assert forall|d2: NetIndex|
                                    #[trigger] jobs.set().contains(d2) implies (self@.dir_fdo(
                                        forward,
                                    )[d2] == Set::<NetIndex>::empty()
                                        || walk_has_pending_consumer(
                                        self@,
                                        forward,
                                        done.set(),
                                        d2,
                                    )) by {
                                    if self@.dir_fdo(forward)[d2] != Set::<NetIndex>::empty()
                                        && !walk_has_pending_consumer(
                                        self@,
                                        forward,
                                        done.set(),
                                        d2,
                                    ) {
                                        let w = choose|w: int|
                                            binputs@.len() <= w < binputs@.len()
                                                && #[trigger] binputs@[w] == d2;
                                        assert(false);
                                    }
                                }
                            }
                        }
                        // make produced nodes ready unless they are terminal
                        let ghost jobs1 = jobs.set();
                        let no2 = outputs.len();
                        let mut w4: usize = 0;
                        while w4 < no2
                            invariant
                                self.wf(),
                                fdo.map() == self@.dir_fdo(forward),
                                fdo.wf(),
                                self@.ops.contains(o),
                                no2 == outputs@.len(),
                                w4 <= no2,
                                outputs@.to_set() == self@.dir_fod(forward)[o],
                                outputs@.no_duplicates(),
                                forall|d: NetIndex|
                                    #[trigger] outputs@.to_set().contains(d) ==> self@.data.contains(
                                    d),
                                jobs.wf(),
                                forall|d: NetIndex|
                                    #[trigger] jobs.set().contains(d) ==> jobs1.contains(d) || (
                                    outputs@.subrange(0, w4 as int).contains(d) && self@.dir_fdo(
                                        forward,
                                    )[d] != Set::<NetIndex>::empty()),
                                forall|d: NetIndex|
                                    #[trigger] jobs1.contains(d) ==> jobs.set().contains(d),
                                forall|k: int|
                                    0 <= k < w4 && self@.dir_fdo(forward)[#[trigger] outputs@[k]]
                                        != Set::<NetIndex>::empty() ==> jobs.set().contains(
                                        outputs@[k]),
                                walk_sched_valid(self@, forward, start, sched0),
                                done0 == walk_done(sched0),
                                !done0.contains(o),
                                done.set() == done0.insert(o),
                                forall|d: NetIndex|
                                    #[trigger] jobs0.contains(d) ==> self@.data.contains(d)
                                        && walk_avail(start, sched0, sched0.len() as int, d),
                                forall|d: NetIndex|
                                    (#[trigger] self@.dir_bod(forward)[o].contains(d))
                                        ==> jobs0.contains(d),
                                forall|d: NetIndex| #[trigger] start.contains(d) ==> self@.data.contains(d),
                                walk_safe_start(self@, forward, start) ==> forall|d2: NetIndex|
                                    #[trigger] jobs.set().contains(d2) ==> (self@.dir_fdo(
                                        forward,
                                    )[d2] == Set::<NetIndex>::empty()
                                        || walk_has_pending_consumer(
                                        self@,
                                        forward,
                                        done.set(),
                                        d2,
                                    )),
                            decreases no2 - w4,
                        {
                            let d = outputs[w4];
                            let ghost jobs_w4 = jobs.set();
                            proof {
                                assert(outputs@.to_set().contains(d));
                                assert(self.swf());
                                assert(fdo.wf());
                                assert(self@.dir_fdo(forward).dom() == self@.data);
                            }
                            let cs = adj_vec(fdo, &d);
                            if cs.len() > 0 {
                                proof {
                                    assert(cs@.to_set().contains(cs@[0]));
                                    assert(self@.dir_fdo(forward)[d] != Set::<NetIndex>::empty());
                                }
                                jobs.insert(d);
                            } else {
                                proof {
                                    assert(cs@.to_set() =~= Set::<NetIndex>::empty());
                                }
                            }
                            proof {
                                let ghost pre = outputs@.subrange(0, w4 as int);
                                let ghost post = outputs@.subrange(0, w4 + 1 as int);
                                assert(post =~= pre.push(d));
                                assert forall|d2: NetIndex|
                                    #[trigger] jobs.set().contains(d2) implies jobs1.contains(d2)
                                    || (post.contains(d2) && self@.dir_fdo(forward)[d2] != Set::<
                                    NetIndex,
                                >::empty()) by {
                                    if !jobs1.contains(d2) && pre.contains(d2) {
                                        let q = choose|q: int|
                                            0 <= q < pre.len() && pre[q] == d2;
                                        assert(post[q] == d2);
                                    }
                                    if !jobs1.contains(d2) && d2 == d {
                                        assert(post[w4 as int] == d2);
                                    }
                                }
                                if walk_safe_start(self@, forward, start) {
                                    assert forall|d2: NetIndex|
                                        #[trigger] jobs.set().contains(d2) implies (self@.dir_fdo(
                                            forward,
                                        )[d2] == Set::<NetIndex>::empty()
                                            || walk_has_pending_consumer(
                                            self@,
                                            forward,
                                            done.set(),
                                            d2,
                                        )) by {
                                        if !jobs_w4.contains(d2) {
                                            assert(d2 == d);
                                            assert(self@.data.contains(d));
                                            assert(self@.dir_fod(forward)[o].contains(d));
                                            lemma_dir_symmetry(self@, forward, d, o);
                                            assert(self@.dir_bdo(forward)[d].contains(o));
                                            assert(!start.contains(d));
                                            // no consumer of `d` can have fired: each firing
                                            // would need `d` available earlier, which only its
                                            // unique producer — firing right now — could supply
                                            assert forall|c: NetIndex|
                                                (#[trigger] self@.dir_fdo(forward)[d].contains(
                                                    c,
                                                )) implies !done.set().contains(c) by {
                                                lemma_dir_symmetry(self@, forward, d, c);
                                                assert(self@.ops.contains(c));
                                                assert(self@.dir_bod(forward)[c].contains(d));
                                                if done.set().contains(c) {
                                                    if c == o {
                                                        assert(jobs0.contains(d));
                                                        assert(walk_avail(
                                                            start,
                                                            sched0,
                                                            sched0.len() as int,
                                                            d,
                                                        ));
                                                        let j = choose|j: int|
                                                            0 <= j < sched0.len() && (
                                                            #[trigger] sched0[j]).outputs@.to_set().contains(
                                                                d,
                                                            );
                                                        assert(walk_step_valid(
                                                            self@,
                                                            forward,
                                                            sched0[j],
                                                        ));
                                                        lemma_dir_symmetry(
                                                            self@,
                                                            forward,
                                                            d,
                                                            sched0[j].op,
                                                        );
                                                        assert(self@.dir_bdo(forward)[d].contains(
                                                            sched0[j].op,
                                                        ));
                                                        assert(sched0[j].op == o);
                                                        assert(done0.contains(o)) by {
                                                            assert((#[trigger] sched0[j]).op == o);
                                                        }
                                                        assert(false);
                                                    } else {
                                                        assert(done0.contains(c));
                                                        let jc = choose|jc: int|
                                                            0 <= jc < sched0.len() && (
                                                            #[trigger] sched0[jc]).op == c;
                                                        assert(walk_step_valid(
                                                            self@,
                                                            forward,
                                                            sched0[jc],
                                                        ));
                                                        assert(sched0[jc].inputs@.to_set().contains(
                                                            d,
                                                        ));
                                                        assert(walk_avail(start, sched0, jc, d));
                                                        let j = choose|j: int|
                                                            0 <= j < jc && (
                                                            #[trigger] sched0[j]).outputs@.to_set().contains(
                                                                d,
                                                            );
                                                        assert(walk_step_valid(
                                                            self@,
                                                            forward,
                                                            sched0[j],
                                                        ));
                                                        lemma_dir_symmetry(
                                                            self@,
                                                            forward,
                                                            d,
                                                            sched0[j].op,
                                                        );
                                                        assert(self@.dir_bdo(forward)[d].contains(
                                                            sched0[j].op,
                                                        ));
                                                        assert(sched0[j].op == o);
                                                        assert(done0.contains(o)) by {
                                                            assert((#[trigger] sched0[j]).op == o);
                                                        }
                                                        assert(false);
                                                    }
                                                }
                                            }
                                            assert(self@.dir_fdo(forward)[d] != Set::<
                                                NetIndex,
                                            >::empty());
                                            assert(exists|c: NetIndex|
                                                self@.dir_fdo(forward)[d].contains(c)) by {
                                                if forall|c: NetIndex|
                                                    !self@.dir_fdo(forward)[d].contains(c) {
                                                    assert(self@.dir_fdo(forward)[d] =~= Set::<
                                                        NetIndex,
                                                    >::empty());
                                                }
                                            }
                                            let c0 = choose|c0: NetIndex|
                                                self@.dir_fdo(forward)[d].contains(c0);
                                            assert(!done.set().contains(c0));
                                        }
                                    }
                                }
                            }
                            w4 = w4 + 1;
                        }
                        proof {
                            assert(outputs@.subrange(0, outputs@.len() as int) =~= outputs@);
                        }
                        // record the firing
                        let step = WalkStep { inputs: binputs, outputs, op: o };
                        sched.push(step);
                        progress = true;
                        proof {
                            let ghost sch = sched@;
                            let ghost len0 = sched0.len() as int;
                            assert(sch =~= sched0.push(step));
                            assert(sch[len0] == step);
                            // the new done set matches the new schedule
                            assert forall|o2: NetIndex| #[trigger] done.set().contains(o2) implies
                                walk_done(sch).contains(o2) by {
                                if o2 == o {
                                    assert(sch[len0].op == o2);
                                } else {
                                    assert(walk_done(sched0).contains(o2));
                                    let j = choose|j: int|
                                        0 <= j < sched0.len() && (#[trigger] sched0[j]).op == o2;
                                    assert(sch[j].op == o2);
                                }
                            }
                            assert forall|o2: NetIndex|
                                walk_done(sch).contains(o2) implies #[trigger] done.set().contains(
                                o2,
                            ) by {
                                let j = choose|j: int|
                                    0 <= j < sch.len() && (#[trigger] sch[j]).op == o2;
                                if j < len0 {
                                    assert(sched0[j].op == o2);
                                    assert(walk_done(sched0).contains(o2));
                                }
                            }
                            assert(done.set() =~= walk_done(sch));
                            // the extended schedule is valid
                            assert forall|k: int|
                                0 <= k < sch.len() implies walk_step_valid(
                                self@,
                                forward,
                                #[trigger] sch[k],
                            ) by {
                                if k < len0 {
                                    assert(sch[k] == sched0[k]);
                                }
                            }
                            assert forall|k: int, l: int|
                                0 <= k < l < sch.len() implies sch[k].op != sch[l].op by {
                                if l < len0 {
                                    assert(sch[k] == sched0[k] && sch[l] == sched0[l]);
                                } else {
                                    assert(sch[l].op == o);
                                    assert(sch[k] == sched0[k]);
                                    assert(!done0.contains(o));
                                    assert(walk_done(sched0).contains(sched0[k].op)) by {
                                        assert((#[trigger] sched0[k]).op == sched0[k].op);
                                    }
                                }
                            }
                            assert forall|k: int, d: NetIndex|
                                0 <= k < sch.len() && (#[trigger] sch[k].inputs@.to_set().contains(
                                    d,
                                )) implies walk_avail(start, sch, k, d) by {
                                if k < len0 {
                                    assert(sch[k] == sched0[k]);
                                    assert(sched0[k].inputs@.to_set().contains(d));
                                    assert(walk_avail(start, sched0, k, d));
                                    if walk_produced_before(sched0, k, d) {
                                        let j = choose|j: int|
                                            0 <= j < k && (#[trigger] sched0[j]).outputs@.to_set().contains(
                                                d,
                                            );
                                        assert(sch[j] == sched0[j]);
                                        assert(sch[j].outputs@.to_set().contains(d));
                                    }
                                } else {
                                    // the step fired because every input was ready
                                    assert(binputs@.to_set().contains(d));
                                    assert(jobs0.contains(d));
                                    assert(walk_avail(start, sched0, sched0.len() as int, d));
                                    if walk_produced_before(sched0, len0, d) {
                                        let j = choose|j: int|
                                            0 <= j < len0 && (#[trigger] sched0[j]).outputs@.to_set().contains(
                                                d,
                                            );
                                        assert(sch[j] == sched0[j]);
                                        assert(sch[j].outputs@.to_set().contains(d));
                                    }
                                }
                            }
                            // every ready node is available under the longer schedule
                            assert forall|d: NetIndex| #[trigger] jobs.set().contains(d) implies
                                self@.data.contains(d) && walk_avail(
                                start,
                                sch,
                                sch.len() as int,
                                d,
                            ) by {
                                if jobs1.contains(d) {
                                    assert(jobs0.contains(d));
                                    assert(walk_avail(start, sched0, sched0.len() as int, d));
                                    if walk_produced_before(sched0, len0, d) {
                                        let j = choose|j: int|
                                            0 <= j < len0 && (#[trigger] sched0[j]).outputs@.to_set().contains(
                                                d,
                                            );
                                        assert(sch[j] == sched0[j]);
                                        assert(sch[j].outputs@.to_set().contains(d));
                                        assert(walk_produced_before(sch, sch.len() as int, d));
                                    }
                                } else {
                                    assert(outputs@.to_set().contains(d));
                                    assert(sch[len0].outputs@.to_set().contains(d));
                                    assert(walk_produced_before(sch, sch.len() as int, d));
                                }
                            }
                            // pending consumers keep their ready inputs
                            assert forall|d: NetIndex|
                                self@.data.contains(d) && walk_avail(
                                    start,
                                    sch,
                                    sch.len() as int,
                                    d,
                                ) && (exists|o2: NetIndex|
                                    (#[trigger] self@.dir_fdo(forward)[d]).contains(o2)
                                        && !done.set().contains(o2)) implies jobs.set().contains(
                                d,
                            ) by {
                                let o2 = choose|o2: NetIndex|
                                    (#[trigger] self@.dir_fdo(forward)[d]).contains(o2)
                                        && !done.set().contains(o2);
                                if walk_avail(start, sched0, sched0.len() as int, d) {
                                    // it was ready before this firing and was not retired
                                    assert(jobs0.contains(d)) by {
                                        assert(!done0.contains(o2));
                                    }
                                    assert(jobs1.contains(d)) by {
                                        assert(!self@.dir_fdo(forward)[d].subset_of(done.set()));
                                    }
                                } else {
                                    // it must have been produced by this very step
                                    let j = choose|j: int|
                                        0 <= j < sch.len() && (#[trigger] sch[j]).outputs@.to_set().contains(
                                            d,
                                        );
                                    if j < len0 {
                                        assert(sch[j] == sched0[j]);
                                        assert(walk_produced_before(
                                            sched0,
                                            sched0.len() as int,
                                            d,
                                        ));
                                    } else {
                                        assert(outputs@.to_set().contains(d));
                                        assert(self@.dir_fdo(forward)[d].contains(o2));
                                        assert(self@.dir_fdo(forward)[d] != Set::<
                                            NetIndex,
                                        >::empty());
                                        let q = choose|q: int|
                                            0 <= q < outputs@.len() && #[trigger] outputs@[q] == d;
                                    }
                                }
                            }
                        }
                    } else {
                        proof {
                            let k = choose|k: int|
                                0 <= k < binputs@.len() && !jobs.set().contains(
                                    #[trigger] binputs@[k],
                                );
                            assert(binputs@.to_set().contains(binputs@[k]));
                        }
                    }
                }
                m = m + 1;
            }
            proof {
                if !progress {
                    assert forall|o: NetIndex|
                        self@.ops.contains(o) && !done.set().contains(o) && walk_candidate(
                            self@,
                            forward,
                            jobs.set(),
                            o,
                        ) implies walk_blocked(self@, forward, jobs.set(), o) by {
                        let d = choose|d: NetIndex|
                            jobs.set().contains(d) && (#[trigger] self@.dir_fdo(forward)[d]).contains(
                                o,
                            );
                        let k = choose|k: int|
                            0 <= k < jobs.seq().len() && #[trigger] jobs.seq()[k] == d;
                        assert(edge_op.set().contains(o));
                        let km = choose|km: int|
                            0 <= km < edge_op.seq().len() && #[trigger] edge_op.seq()[km] == o;
                    }
                }
            }
        }
        proof {
            assert forall|o: NetIndex|
                self@.ops.contains(o) && self@.dir_bod(forward)[o] != Set::<NetIndex>::empty()
                    && !(#[trigger] walk_done(sched@).contains(o)) implies exists|d: NetIndex|
                (#[trigger] self@.dir_bod(forward)[o].contains(d)) && !walk_avail(
                    start,
                    sched@,
                    sched@.len() as int,
                    d,
                ) by {
                if forall|d: NetIndex|
                    (#[trigger] self@.dir_bod(forward)[o].contains(d)) ==> walk_avail(
                        start,
                        sched@,
                        sched@.len() as int,
                        d,
                    ) {
                    // every input of `o` is available, hence still ready: `o` is an
                    // unblocked candidate, contradicting the fixpoint
                    assert forall|d: NetIndex|
                        #[trigger] self@.dir_bod(forward)[o].contains(d) implies jobs.set()
                        .contains(d) by {
                        if forward {
                            assert(self@.data.contains(d) && self@.fdo[d].contains(o));
                        } else {
                            assert(self@.data.contains(d) && self@.bdo[d].contains(o));
                        }
                        assert(self@.dir_fdo(forward)[d].contains(o));
                        assert(!done.set().contains(o));
                    }
                    assert(exists|d: NetIndex| self@.dir_bod(forward)[o].contains(d)) by {
                        if forall|d: NetIndex| !self@.dir_bod(forward)[o].contains(d) {
                            assert(self@.dir_bod(forward)[o] =~= Set::<NetIndex>::empty());
                        }
                    }
                    let d0 = choose|d0: NetIndex| self@.dir_bod(forward)[o].contains(d0);
                    if forward {
                        assert(self@.data.contains(d0) && self@.fdo[d0].contains(o));
                    } else {
                        assert(self@.data.contains(d0) && self@.bdo[d0].contains(o));
                    }
                    assert(jobs.set().contains(d0) && self@.dir_fdo(forward)[d0].contains(o));
                    assert(walk_candidate(self@, forward, jobs.set(), o));
                    assert(walk_blocked(self@, forward, jobs.set(), o));
                    let db = choose|db: NetIndex|
                        (#[trigger] self@.dir_bod(forward)[o].contains(db)) && !jobs.set().contains(
                            db,
                        );
                    assert(false);
                }
            }
        }
        (sched, jobs)
    }
}


/// Walk dependency ordering: in any valid schedule, if data node `d` was not
/// part of the starting set, step `i` is the only step that produces `d`, and
/// step `j` consumes `d`, then the producer fired strictly before the
/// consumer.
pub proof fn lemma_walk_dependency_order(
    s: GraphShape,
    forward: bool,
    start: Set<NetIndex>,
    sched: Seq<WalkStep>,
    i: int,
    j: int,
    d: NetIndex,
)
    requires
        walk_sched_valid(s, forward, start, sched),
        !start.contains(d),
        0 <= i < sched.len(),
        0 <= j < sched.len(),
        sched[i].outputs@.to_set().contains(d),
        forall|k: int|
            0 <= k < sched.len() && (#[trigger] sched[k].outputs@.to_set().contains(d)) ==> k == i,
        sched[j].inputs@.to_set().contains(d),
    ensures
        i < j,
{
    assert(walk_avail(start, sched, j, d));
    let k = choose|k: int| 0 <= k < j && (#[trigger] sched[k].outputs@.to_set().contains(d));
    assert(k == i);
}

/// Data ranks witnessing acyclicity: along every operator, each consumed node
/// ranks strictly below each produced node. Such a ranking exists exactly
/// when the dependency graph is a DAG.
pub open spec fn walk_ranked(
    s: GraphShape,
    forward: bool,
    rank: Map<NetIndex, nat>,
) -> bool {
    forall|o: NetIndex, din: NetIndex, dout: NetIndex|
        s.ops.contains(o) && (#[trigger] s.dir_bod(forward)[o].contains(din))
            && (#[trigger] s.dir_fod(forward)[o].contains(dout)) ==> rank[din] < rank[dout]
}

/// The starting set is exactly the true sources of the traversal direction:
/// the data nodes no operator produces.
pub open spec fn walk_start_is_sources(s: GraphShape, forward: bool, start: Set<NetIndex>) -> bool {
    forall|d: NetIndex|
        s.data.contains(d) ==> ((#[trigger] start.contains(d)) <==> s.dir_bdo(forward)[d] == Set::<
            NetIndex,
        >::empty())
}

proof fn lemma_walk_consumed_avail(
    s: GraphShape,
    forward: bool,
    start: Set<NetIndex>,
    sched: Seq<WalkStep>,
    rank: Map<NetIndex, nat>,
    n: nat,
)
    requires
        s.wf(),
        walk_sched_valid(s, forward, start, sched),
        walk_start_is_sources(s, forward, start),
        walk_ranked(s, forward, rank),
        forall|o2: NetIndex| s.ops.contains(o2) ==> s.dir_bod(forward)[o2] != Set::<
            NetIndex,
        >::empty(),
        forall|o2: NetIndex|
            s.ops.contains(o2) && s.dir_bod(forward)[o2] != Set::<NetIndex>::empty() && !(
            #[trigger] walk_done(sched).contains(o2)) ==> exists|d2: NetIndex|
                (#[trigger] s.dir_bod(forward)[o2].contains(d2)) && !walk_avail(
                    start,
                    sched,
                    sched.len() as int,
                    d2,
                ),
    ensures
        forall|o: NetIndex, d: NetIndex|
            s.ops.contains(o) && (#[trigger] s.dir_bod(forward)[o].contains(d)) && rank[d] <= n
                ==> walk_avail(start, sched, sched.len() as int, d),
    decreases n,
{
    assert forall|o: NetIndex, d: NetIndex|
        s.ops.contains(o) && (#[trigger] s.dir_bod(forward)[o].contains(d)) && rank[d]
            <= n implies walk_avail(start, sched, sched.len() as int, d) by {
        if !walk_avail(start, sched, sched.len() as int, d) {
            // `d` is a registered non-source data node, so some operator produces it
            if forward {
                assert(s.data.contains(d) && s.fdo[d].contains(o));
            } else {
                assert(s.data.contains(d) && s.bdo[d].contains(o));
            }
            assert(!start.contains(d));
            assert(s.dir_bdo(forward)[d] != Set::<NetIndex>::empty());
            assert(exists|o2: NetIndex| s.dir_bdo(forward)[d].contains(o2)) by {
                if forall|o2: NetIndex| !s.dir_bdo(forward)[d].contains(o2) {
                    assert(s.dir_bdo(forward)[d] =~= Set::<NetIndex>::empty());
                }
            }
            let o2 = choose|o2: NetIndex| s.dir_bdo(forward)[d].contains(o2);
            if forward {
                assert(s.ops.contains(o2) && s.fod[o2].contains(d));
            } else {
                assert(s.ops.contains(o2) && s.bod[o2].contains(d));
            }
            assert(s.dir_fod(forward)[o2].contains(d));
            // `o2` never fired, otherwise `d` would have become available
            assert(!walk_done(sched).contains(o2)) by {
                if walk_done(sched).contains(o2) {
                    let k = choose|k: int| 0 <= k < sched.len() && (#[trigger] sched[k]).op == o2;
                    assert(walk_step_valid(s, forward, sched[k]));
                    assert(sched[k].outputs@.to_set().contains(d));
                    assert(walk_produced_before(sched, sched.len() as int, d));
                }
            }
            // so `o2` itself has an input that never became available, of
            // strictly smaller rank — impossible below rank `n` by induction
            let d2 = choose|d2: NetIndex|
                (#[trigger] s.dir_bod(forward)[o2].contains(d2)) && !walk_avail(
                    start,
                    sched,
                    sched.len() as int,
                    d2,
                );
            assert(rank[d2] < rank[d]);
            lemma_walk_consumed_avail(s, forward, start, sched, rank, (n - 1) as nat);
            assert(walk_avail(start, sched, sched.len() as int, d2));
        }
    }
}

/// Walk completeness over the operators: walking a fully-connected DAG from
/// its true sources fires every operator. `rank` witnesses acyclicity; every
/// operator must consume at least one data node (an operator with no inputs
/// in the traversal direction is never adjacent to a ready node, so the walk
/// cannot see it).
pub proof fn lemma_walk_fires_all(
    s: GraphShape,
    forward: bool,
    start: Set<NetIndex>,
    sched: Seq<WalkStep>,
    rank: Map<NetIndex, nat>,
)
    requires
        s.wf(),
        walk_sched_valid(s, forward, start, sched),
        walk_start_is_sources(s, forward, start),
        walk_ranked(s, forward, rank),
        forall|o: NetIndex| s.ops.contains(o) ==> s.dir_bod(forward)[o] != Set::<
            NetIndex,
        >::empty(),
        forall|o: NetIndex|
            s.ops.contains(o) && s.dir_bod(forward)[o] != Set::<NetIndex>::empty() && !(
            #[trigger] walk_done(sched).contains(o)) ==> exists|d: NetIndex|
                (#[trigger] s.dir_bod(forward)[o].contains(d)) && !walk_avail(
                    start,
                    sched,
                    sched.len() as int,
                    d,
                ),
    ensures
        forall|o: NetIndex| s.ops.contains(o) ==> walk_done(sched).contains(o),
{
    assert forall|o: NetIndex| s.ops.contains(o) implies walk_done(sched).contains(o) by {
        if !walk_done(sched).contains(o) {
            let d = choose|d: NetIndex|
                (#[trigger] s.dir_bod(forward)[o].contains(d)) && !walk_avail(
                    start,
                    sched,
                    sched.len() as int,
                    d,
                );
            lemma_walk_consumed_avail(s, forward, start, sched, rank, rank[d]);
        }
    }
}

/// Walk completeness: walking a fully-connected DAG from its true sources
/// fires every operator and drains every ready node, so the walk returns
/// without leftovers. `rank` witnesses acyclicity; "fully connected" means
/// every operator consumes at least one data node and no data node is
/// isolated; the walk-outcome premise is exactly what [`Graph::walk_plan`]
/// ensures about its schedule and leftover set.
pub proof fn lemma_walk_completeness(
    s: GraphShape,
    forward: bool,
    start: Set<NetIndex>,
    sched: Seq<WalkStep>,
    leftover: Set<NetIndex>,
    rank: Map<NetIndex, nat>,
)
    requires
        s.wf(),
        walk_start_is_sources(s, forward, start),
        walk_safe_start(s, forward, start),
        walk_ranked(s, forward, rank),
        forall|o: NetIndex| s.ops.contains(o) ==> s.dir_bod(forward)[o] != Set::<
            NetIndex,
        >::empty(),
        forall|d: NetIndex|
            s.data.contains(d) ==> s.dir_fdo(forward)[d] != Set::<NetIndex>::empty() || s.dir_bdo(
                forward,
            )[d] != Set::<NetIndex>::empty(),
        walk_outcome(s, forward, start, sched, leftover),
    ensures
        forall|o: NetIndex| s.ops.contains(o) ==> walk_done(sched).contains(o),
        leftover == Set::<NetIndex>::empty(),
{
    lemma_walk_fires_all(s, forward, start, sched, rank);
    assert forall|d: NetIndex| !(#[trigger] leftover.contains(d)) by {
        if leftover.contains(d) {
            if s.dir_fdo(forward)[d] != Set::<NetIndex>::empty() {
                // some consumer never fired — but every operator fired
                assert(walk_has_pending_consumer(s, forward, walk_done(sched), d));
                let oc = choose|oc: NetIndex|
                    (#[trigger] s.dir_fdo(forward)[d].contains(oc)) && !walk_done(sched).contains(
                        oc,
                    );
                lemma_dir_symmetry(s, forward, d, oc);
                assert(s.ops.contains(oc));
                assert(walk_done(sched).contains(oc));
            } else {
                // a started node with no consumers would be isolated
                assert(start.contains(d));
                assert(s.dir_bdo(forward)[d] == Set::<NetIndex>::empty());
            }
        }
    }
    assert(leftover =~= Set::<NetIndex>::empty());
}

impl Graph {
    /// Walk the graph from `start_set`, forward or backward, calling
    /// `closure` once per fired operator with its input and output node
    /// lists. Returns `Ok(())` when every ready node was drained, otherwise
    /// the non-empty set of data nodes that could never be consumed.
    pub fn walk<F: Fn(&Vec<NetIndex>, &Vec<NetIndex>, &NetIndex) -> ()>(
        &self,
        start_set: &[NetIndex],
        forward: bool,
        closure: F,
    ) -> (r: Result<(), IdSet>)
        requires
            self.wf(),
            forall|k: int|
                0 <= k < start_set@.len() ==> self@.data.contains(#[trigger] start_set@[k]),
            forall|i: &Vec<NetIndex>, o: &Vec<NetIndex>, op: &NetIndex|
                #[trigger] closure.requires((i, o, op)),
        ensures
            r is Ok ==> walk_outcome_exists(
                self@,
                forward,
                start_set@.to_set(),
                Set::<NetIndex>::empty(),
            ),
            r is Err ==> walk_outcome_exists(self@, forward, start_set@.to_set(), r->Err_0.set()),
            r is Err ==> r->Err_0.set() != Set::<NetIndex>::empty() && r->Err_0.wf(),
    {
        let (plan, jobs) = self.walk_plan(start_set, forward);
        let np = plan.len();
        let mut k: usize = 0;
        while k < np
            invariant
                k <= np,
                np == plan@.len(),
                forall|i: &Vec<NetIndex>, o: &Vec<NetIndex>, op: &NetIndex|
                    #[trigger] closure.requires((i, o, op)),
            decreases np - k,
        {
            let step = &plan[k];
            closure(&step.inputs, &step.outputs, &step.op);
            k = k + 1;
        }
        if jobs.is_empty() {
            proof {
                assert(jobs.set() =~= Set::<NetIndex>::empty());
                assert(walk_outcome(
                    self@,
                    forward,
                    start_set@.to_set(),
                    plan@,
                    Set::<NetIndex>::empty(),
                ));
            }
            Ok(())
        } else {
            proof {
                assert(walk_outcome(self@, forward, start_set@.to_set(), plan@, jobs.set()));
            }
            Err(jobs)
        }
    }
}

impl Default for Graph {
    /// An empty graph.
    fn default() -> (r: Graph)
        ensures
            r.wf(),
            r@.data == Set::<NetIndex>::empty(),
            r@.ops == Set::<NetIndex>::empty(),
    {
        Graph::new()
    }
}

} // verus!
