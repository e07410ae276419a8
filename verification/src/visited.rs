//! The visited map: for every page discovered so far, the page that first
//! discovered it (its back-pointer).  Entries are kept in discovery order and a
//! node is inserted at most once, so the map forms a forest rooted at the
//! start node and the back-pointers can be walked to reconstruct a path.

use vstd::prelude::*;

verus! {

/// Mapping from a discovered node to the node that first discovered it.
/// The first entry is the start node, whose recorded parent is the empty
/// sentinel.  Every later entry's parent occurs earlier in the list, so the
/// entries form a forest rooted at the start node.
pub struct VisitedMap {
    entries: Vec<(String, String)>,
}

impl VisitedMap {
    /// The keys in discovery order.
    pub closed spec fn key_at(self, i: int) -> Seq<char> {
        self.entries@[i].0@
    }

    /// The recorded parent of the key at position `i`.
    pub closed spec fn parent_at(self, i: int) -> Seq<char> {
        self.entries@[i].1@
    }

    pub closed spec fn len(self) -> int {
        self.entries@.len() as int
    }

    /// The start node the map was created with.
    pub open spec fn start(self) -> Seq<char> {
        self.key_at(0)
    }

    pub open spec fn contains(self, key: Seq<char>) -> bool {
        exists|i: int| 0 <= i < self.len() && self.key_at(i) == key
    }

    /// The position of a key; keys are unique, so there is at most one.
    pub open spec fn index_of(self, key: Seq<char>) -> int {
        choose|i: int| 0 <= i < self.len() && self.key_at(i) == key
    }

    /// The parent recorded for a key when it was first discovered.
    pub open spec fn parent_of(self, key: Seq<char>) -> Seq<char> {
        self.parent_at(self.index_of(key))
    }

    /// Well-formedness: at least the start entry, no key twice, and every
    /// entry after the first names a parent discovered strictly earlier.
    pub open spec fn wf(self) -> bool {
        &&& self.len() >= 1
        &&& forall|i: int, j: int|
            0 <= i < j < self.len() ==> self.key_at(i) != self.key_at(j)
        &&& forall|k: int|
            1 <= k < self.len() ==> exists|j: int| 0 <= j < #[trigger] self.parent_index_bound(k) && self.key_at(j) == self.parent_at(k)
    }

    /// Helper for triggering: the bound below which an entry's parent occurs.
    pub open spec fn parent_index_bound(self, k: int) -> int {
        k
    }

    pub proof fn lemma_index_unique(self, i: int)
        requires
            self.wf(),
            0 <= i < self.len(),
        ensures
            self.contains(self.key_at(i)),
            self.index_of(self.key_at(i)) == i,
    {
        assert(self.contains(self.key_at(i)));
        let j = self.index_of(self.key_at(i));
        if j != i {
            assert(self.key_at(i) != self.key_at(j));
        }
    }

    /// Every entry after the first has a parent that is itself a key at a
    /// strictly smaller position: walking back-pointers terminates.
    pub proof fn lemma_parent_earlier(self, k: int)
        requires
            self.wf(),
            1 <= k < self.len(),
        ensures
            self.contains(self.parent_at(k)),
            0 <= self.index_of(self.parent_at(k)) < k,
    {
        let j = choose|j: int| 0 <= j < self.parent_index_bound(k) && self.key_at(j) == self.parent_at(k);
        self.lemma_index_unique(j);
    }

    /// A fresh map holding only the start node, with an empty sentinel parent.
    pub fn new(start: String) -> (r: Self)
        ensures
            r.wf(),
            r.len() == 1,
            r.start() == start@,
            r.contains(start@),
            forall|key: Seq<char>| r.contains(key) ==> key == start@,
    {
        let mut entries: Vec<(String, String)> = Vec::new();
        entries.push((start, String::new()));
        let r = VisitedMap { entries };
        proof {
            assert(r.len() == 1);
            assert(r.key_at(0) == start@);
            assert(r.contains(start@));
            assert forall|key: Seq<char>| r.contains(key) implies key == r.key_at(0) by {
                let i = choose|i: int| 0 <= i < r.len() && r.key_at(i) == key;
            }
        }
        r
    }

    /// The position of a node, if the node has been discovered.
    pub fn find_index(&self, key: &String) -> (r: Option<usize>)
        requires
            self.wf(),
        ensures
            r is Some <==> self.contains(key@),
            r is Some ==> 0 <= r->0 < self.len() && self.key_at(r->0 as int) == key@
                && r->0 == self.index_of(key@),
    {
        let n = self.entries.len();
        let mut i: usize = 0;
        while i < n
            invariant
                self.wf(),
                n == self.len(),
                0 <= i <= n,
                forall|j: int| 0 <= j < i ==> self.key_at(j) != key@,
            decreases n - i,
        {
            if self.entries[i].0 == *key {
                proof {
                    self.lemma_index_unique(i as int);
                }
                return Some(i);
            }
            i = i + 1;
        }
        proof {
            if self.contains(key@) {
                let j = choose|j: int| 0 <= j < self.len() && self.key_at(j) == key@;
            }
        }
        None
    }

    /// Whether a node has been discovered already.
    pub fn contains_key(&self, key: &String) -> (r: bool)
        requires
            self.wf(),
        ensures
            r == self.contains(key@),
    {
        self.find_index(key).is_some()
    }

    /// Record a newly discovered node with its discovering parent.  A node is
    /// inserted at most once, so the first writer wins and the recorded parent
    /// of every node already present is unchanged.
    pub fn insert(&mut self, node: String, parent: String)
        requires
            old(self).wf(),
            !old(self).contains(node@),
            old(self).contains(parent@),
        ensures
            final(self).wf(),
            final(self).len() == old(self).len() + 1,
            final(self).start() == old(self).start(),
            final(self).contains(node@),
            final(self).parent_of(node@) == parent@,
            forall|key: Seq<char>| old(self).contains(key) ==> final(self).contains(key),
            forall|key: Seq<char>|
                old(self).contains(key) ==> #[trigger] final(self).parent_of(key) == old(self).parent_of(key),
            forall|key: Seq<char>| final(self).contains(key) <==> old(self).contains(key) || key == node@,
            forall|key: Seq<char>|
                old(self).contains(key) ==> #[trigger] final(self).depth_of(key) == old(self).depth_of(key),
            final(self).depth_of(node@) == old(self).depth_of(parent@) + 1,
    {
        let ghost oldm = *old(self);
        let ghost pidx = self.index_of(parent@);
        let ghost n = self.len();
        self.entries.push((node, parent));
        proof {
            assert forall|i: int, j: int| 0 <= i < j < self.len() implies self.key_at(i) != self.key_at(j) by {
                if j < n {
                    assert(oldm.key_at(i) != oldm.key_at(j));
                } else {
                    if oldm.key_at(i) == self.key_at(j) {
                        assert(oldm.contains(self.key_at(j)));
                    }
                }
            }
            assert forall|k: int| 1 <= k < self.len() implies exists|j: int|
                0 <= j < #[trigger] self.parent_index_bound(k) && self.key_at(j) == self.parent_at(k) by {
                if k < n {
                    let j = choose|j: int| 0 <= j < oldm.parent_index_bound(k) && oldm.key_at(j) == oldm.parent_at(k);
                    assert(0 <= j < self.parent_index_bound(k) && self.key_at(j) == self.parent_at(k));
                } else {
                    assert(0 <= pidx < n && oldm.key_at(pidx) == parent@);
                    assert(self.key_at(pidx) == self.parent_at(k));
                }
            }
            assert forall|key: Seq<char>| oldm.contains(key) implies self.contains(key) by {
                let i = choose|i: int| 0 <= i < oldm.len() && oldm.key_at(i) == key;
                assert(self.key_at(i) == key);
            }
            assert forall|key: Seq<char>| oldm.contains(key) implies #[trigger] self.parent_of(key) == oldm.parent_of(key) by {
                let i = choose|i: int| 0 <= i < oldm.len() && oldm.key_at(i) == key;
                oldm.lemma_index_unique(i);
                self.lemma_index_unique(i);
            }
            assert forall|key: Seq<char>| self.contains(key) implies oldm.contains(key) || key == node@ by {
                let i = choose|i: int| 0 <= i < self.len() && self.key_at(i) == key;
                if i < n {
                    assert(oldm.key_at(i) == key);
                }
            }
            self.lemma_index_unique(n);
            assert forall|key: Seq<char>|
                oldm.contains(key) implies #[trigger] self.depth_of(key) == oldm.depth_of(key) by {
                let i = choose|i: int| 0 <= i < oldm.len() && oldm.key_at(i) == key;
                oldm.lemma_index_unique(i);
                self.lemma_index_unique(i);
                Self::lemma_chain_depth_preserved(oldm, *self, i);
            }
            assert(self.depth_of(node@) == oldm.depth_of(parent@) + 1) by {
                assert(self.index_of(node@) == n);
                assert(self.parent_at(n) == parent@);
                self.lemma_index_unique(pidx);
                assert(self.index_of(parent@) == pidx);
                Self::lemma_chain_depth_preserved(oldm, *self, pidx);
                assert(self.chain_depth(n) == 1 + self.chain_depth(pidx));
            }
        }
    }
}

impl VisitedMap {
    /// How many back-pointer steps separate the entry at position `i` from
    /// the start node: the discovery level of that node.
    pub open spec fn chain_depth(self, i: int) -> int
        decreases i when self.wf() && 0 <= i < self.len() via Self::chain_depth_dec
    {
        if !self.wf() || i <= 0 || i >= self.len() {
            0
        } else {
            1 + self.chain_depth(self.index_of(self.parent_at(i)))
        }
    }

    #[via_fn]
    proof fn chain_depth_dec(self, i: int) {
        if self.wf() && 0 < i < self.len() {
            self.lemma_parent_earlier(i);
        }
    }

    /// The discovery level of a node: zero for the start node, one more than
    /// its parent's for every other.
    pub open spec fn depth_of(self, key: Seq<char>) -> int {
        self.chain_depth(self.index_of(key))
    }

    /// Adding an entry does not change the level of any entry already there.
    proof fn lemma_chain_depth_preserved(pre: VisitedMap, post: VisitedMap, i: int)
        requires
            pre.wf(),
            post.wf(),
            pre.len() < post.len(),
            forall|j: int|
                #![trigger post.key_at(j)]
                #![trigger post.parent_at(j)]
                0 <= j < pre.len() ==> post.key_at(j) == pre.key_at(j)
                    && post.parent_at(j) == pre.parent_at(j),
            0 <= i < pre.len(),
        ensures
            post.chain_depth(i) == pre.chain_depth(i),
        decreases i,
    {
        if i > 0 {
            pre.lemma_parent_earlier(i);
            let pi = pre.index_of(pre.parent_at(i));
            assert(post.key_at(i) == pre.key_at(i) && post.parent_at(i) == pre.parent_at(i));
            assert(post.key_at(pi) == pre.key_at(pi));
            post.lemma_index_unique(pi);
            assert(post.index_of(post.parent_at(i)) == pi);
            Self::lemma_chain_depth_preserved(pre, post, pi);
        }
    }

    /// Discovery is idempotent: a node reachable from two different parents is
    /// recorded once, with one parent — the one whose expansion got there
    /// first.  A well-formed map cannot hold a node twice, so the entry the
    /// first writer made is the only one.
    pub proof fn lemma_one_parent(self, i: int, j: int)
        requires
            self.wf(),
            0 <= i < self.len(),
            0 <= j < self.len(),
            self.key_at(i) == self.key_at(j),
        ensures
            i == j,
            self.parent_at(i) == self.parent_at(j),
    {
    }
}

/// A discovery path from the start node to the target: it begins at the start
/// node, ends at the target, and every interior step goes from a node's
/// recorded parent to that node.
pub open spec fn is_discovery_path(m: VisitedMap, path: Seq<Seq<char>>, target: Seq<char>) -> bool {
    &&& path.len() >= 2
    &&& path[0] == m.start()
    &&& path[path.len() - 1] == target
    &&& forall|i: int|
        1 <= i < path.len() - 1 ==> m.contains(#[trigger] path[i]) && m.parent_of(path[i]) == path[i - 1]
}

impl VisitedMap {
    /// Walk back-pointers from the node whose expansion revealed the target,
    /// collect the chain up to the start node, then append the target: the
    /// reconstructed path runs from the start node to the target.
    pub fn reconstruct(&self, last: &String, target: &String) -> (r: Vec<String>)
        requires
            self.wf(),
            self.contains(last@),
        ensures
            is_discovery_path(*self, r@.map_values(|s: String| s@), target@),
            r@.len() >= 2,
            r@[r@.len() - 2]@ == last@,
            r@[r@.len() - 1]@ == target@,
            r@.len() == self.depth_of(last@) + 2,
    {
        let mut rev: Vec<String> = Vec::new();
        rev.push(target.clone());
        let k0 = self.find_index(last);
        let mut k: usize = k0.unwrap();
        let ghost kstart = k as int;
        rev.push(self.entries[k].0.clone());
        while k != 0
            invariant
                self.wf(),
                0 <= k < self.len(),
                0 <= kstart < self.len(),
                rev@.len() >= 2,
                rev@[0]@ == target@,
                rev@[1]@ == last@,
                rev@.len() == 2 + self.chain_depth(kstart) - self.chain_depth(k as int),
                rev@[rev@.len() - 1]@ == self.key_at(k as int),
                forall|j: int|
                    1 <= j < rev@.len() - 1 ==> self.contains(#[trigger] rev@[j]@)
                        && self.parent_of(rev@[j]@) == rev@[j + 1]@,
            decreases k,
        {
            proof {
                self.lemma_parent_earlier(k as int);
                self.lemma_index_unique(k as int);
            }
            let ghost prev = rev@;
            let parent = self.entries[k].1.clone();
            let kn = self.find_index(&parent);
            k = kn.unwrap();
            rev.push(self.entries[k].0.clone());
            proof {
                assert forall|j: int|
                    1 <= j < rev@.len() - 1 implies self.contains(#[trigger] rev@[j]@)
                        && self.parent_of(rev@[j]@) == rev@[j + 1]@ by {
                    if j < prev.len() - 1 {
                        assert(rev@[j]@ == prev[j]@ && rev@[j + 1]@ == prev[j + 1]@);
                    } else {
                        assert(rev@[j]@ == prev[prev.len() - 1]@);
                    }
                }
            }
        }
        let ghost revs = rev@;
        let n = rev.len();
        let mut path: Vec<String> = Vec::new();
        let mut i: usize = n;
        while i > 0
            invariant
                n == revs.len(),
                rev@ == revs,
                0 <= i <= n,
                path@.len() == n - i,
                forall|j: int| 0 <= j < path@.len() ==> #[trigger] path@[j]@ == revs[n - 1 - j]@,
            decreases i,
        {
            i = i - 1;
            path.push(rev[i].clone());
        }
        proof {
            let m = *self;
            let p = path@.map_values(|s: String| s@);
            assert(p.len() == revs.len());
            assert(p[0] == revs[revs.len() - 1]@);
            assert(p[p.len() - 1] == revs[0]@);
            assert(p[p.len() - 2] == revs[1]@);
            assert forall|j: int|
                1 <= j < p.len() - 1 implies m.contains(#[trigger] p[j]) && m.parent_of(p[j]) == p[j - 1] by {
                let rj = revs.len() - 1 - j;
                assert(p[j] == revs[rj]@);
                assert(m.contains(revs[rj]@) && m.parent_of(revs[rj]@) == revs[rj + 1]@);
                assert(p[j - 1] == revs[rj + 1]@);
            }
        }
        path
    }
}

} // verus!
