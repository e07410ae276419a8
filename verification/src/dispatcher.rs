//! The dispatcher: the single owner of the search state.  It hands nodes of
//! the current breadth-first level to idle workers, folds returned neighbor
//! sets into the visited map and the next level, detects the target, recovers
//! the node of a dead worker, enforces the queue capacity, and advances the
//! level when the current one is exhausted.  The caller runs the outer loop:
//! it performs the channel and network work and feeds every observed event
//! back in as a call on this state machine.

use vstd::prelude::*;

use crate::frontier::Frontier;
use crate::visited::VisitedMap;
use crate::visited::is_discovery_path;

verus! {

/// The views of a sequence of nodes.
pub open spec fn node_views(v: Seq<String>) -> Seq<Seq<char>> {
    v.map_values(|s: String| s@)
}

/// The liveness state of one worker slot.  `Dead` is terminal: a dead slot is
/// never assigned work again.
#[derive(PartialEq, Eq, Structural, Clone, Copy, Debug)]
pub enum SlotState {
    Idle,
    Processing,
    Dead,
}

/// The dispatcher's record of one worker: its liveness and the node currently
/// in flight, if any.  Workers never touch this record; it changes only in
/// response to channel events the caller reports.
pub struct WorkerSlot {
    state: SlotState,
    assigned: Option<String>,
}

/// Why a search ended without an answer about the graph.
pub enum AbortReason {
    /// The combined frontier grew past the configured capacity.
    CapacityExceeded,
    /// The progress consumer went away: the caller gave up.
    ConsumerGone,
}

/// The one terminal outcome of a search.
pub enum SearchResult {
    /// A discovery path from the start node to the target, inclusive.
    Found(Vec<String>),
    /// The component reachable from the start was explored without finding
    /// the target, or every worker died with work still queued.
    NoPath,
    Aborted(AbortReason),
}

pub struct Dispatcher {
    visited: VisitedMap,
    frontier: Frontier,
    slots: Vec<WorkerSlot>,
    target: String,
    processed: usize,
    depth: usize,
    max_queue: usize,
    changed: bool,
}

impl Dispatcher {
    pub closed spec fn visited_map(self) -> VisitedMap {
        self.visited
    }

    pub closed spec fn current(self) -> Seq<Seq<char>> {
        self.frontier.current_seq()
    }

    pub closed spec fn next(self) -> Seq<Seq<char>> {
        self.frontier.next_seq()
    }

    pub closed spec fn num_slots(self) -> int {
        self.slots@.len() as int
    }

    pub closed spec fn slot_state(self, i: int) -> SlotState {
        self.slots@[i].state
    }

    /// The node in flight at slot `i`, if any.
    pub closed spec fn slot_assigned(self, i: int) -> Option<Seq<char>> {
        match self.slots@[i].assigned {
            Some(s) => Some(s@),
            None => None,
        }
    }

    pub closed spec fn target_node(self) -> Seq<char> {
        self.target@
    }

    pub open spec fn start_node(self) -> Seq<char> {
        self.visited_map().start()
    }

    pub closed spec fn processed_count_spec(self) -> int {
        self.processed as int
    }

    pub closed spec fn depth_spec(self) -> int {
        self.depth as int
    }

    pub closed spec fn max_queue_spec(self) -> int {
        self.max_queue as int
    }

    /// Whether the frontier state changed since the last progress snapshot.
    pub closed spec fn changed_spec(self) -> bool {
        self.changed
    }

    /// The dispatcher invariant.
    ///
    /// - the visited map is a well-formed discovery forest;
    /// - a slot is `Processing` exactly when a node is in flight on it;
    /// - every queued or in-flight node has been discovered, so its
    ///   back-pointer chain reaches the start node;
    /// - no node sits in the next level twice: a node is enqueued only on
    ///   first discovery.
    pub open spec fn wf(self) -> bool {
        &&& self.visited_map().wf()
        &&& self.num_slots() >= 1
        &&& forall|i: int|
            #![trigger self.slot_state(i)]
            0 <= i < self.num_slots() ==> (self.slot_state(i) is Processing
                <==> self.slot_assigned(i) is Some)
        &&& forall|i: int|
            #![trigger self.slot_assigned(i)]
            0 <= i < self.num_slots() ==> (self.slot_assigned(i) matches Some(n)
                ==> self.visited_map().contains(n))
        &&& forall|j: int|
            0 <= j < self.current().len() ==> self.visited_map().contains(#[trigger] self.current()[j])
        &&& forall|j: int|
            0 <= j < self.next().len() ==> self.visited_map().contains(#[trigger] self.next()[j])
        &&& forall|j: int, k: int| 0 <= j < k < self.next().len() ==> self.next()[j] != self.next()[k]
    }

    /// The level labeling of the breadth-first search: while level `depth` is
    /// being expanded, every node queued on the current level or in flight
    /// was discovered at level `depth - 1`, and every node queued for the
    /// next level at `depth`.  Together with the rule that a level may only
    /// end once nothing of it is queued or in flight, this is what makes the
    /// first path found a shortest one: the target is reached from a node of
    /// the shallowest level that can reach it.
    pub open spec fn levels_ok(self) -> bool {
        &&& forall|j: int|
            0 <= j < self.current().len() ==> self.visited_map().depth_of(
                #[trigger] self.current()[j],
            ) == self.depth_spec() - 1
        &&& forall|i: int|
            #![trigger self.slot_assigned(i)]
            0 <= i < self.num_slots() ==> (self.slot_assigned(i) matches Some(n)
                ==> self.visited_map().depth_of(n) == self.depth_spec() - 1)
        &&& forall|j: int|
            0 <= j < self.next().len() ==> self.visited_map().depth_of(#[trigger] self.next()[j])
                == self.depth_spec()
    }

    /// The level labeling carries over to a state with the same map and level
    /// whose queues are still labeled and whose slots changed at most at
    /// position `i`, in a way that itself respects the labeling.
    proof fn lemma_levels_update(a: Dispatcher, b: Dispatcher, i: int)
        requires
            a.levels_ok(),
            b.visited_map() == a.visited_map(),
            b.depth_spec() == a.depth_spec(),
            b.num_slots() == a.num_slots(),
            forall|j: int|
                0 <= j < b.current().len() ==> a.visited_map().depth_of(#[trigger] b.current()[j])
                    == a.depth_spec() - 1,
            forall|j: int|
                0 <= j < b.next().len() ==> a.visited_map().depth_of(#[trigger] b.next()[j])
                    == a.depth_spec(),
            forall|k: int|
                #![trigger b.slot_state(k)]
                #![trigger b.slot_assigned(k)]
                0 <= k < b.num_slots() && k != i ==> b.slot_state(k) == a.slot_state(k)
                    && b.slot_assigned(k) == a.slot_assigned(k),
            0 <= i < b.num_slots() ==> (b.slot_assigned(i) matches Some(n)
                ==> a.visited_map().depth_of(n) == a.depth_spec() - 1),
        ensures
            b.levels_ok(),
    {
        assert forall|k: int|
            #![trigger b.slot_assigned(k)]
            0 <= k < b.num_slots() implies (b.slot_assigned(k) matches Some(n)
                ==> b.visited_map().depth_of(n) == b.depth_spec() - 1) by {
            if k != i {
                assert(b.slot_state(k) == a.slot_state(k));
                assert(b.slot_assigned(k) == a.slot_assigned(k));
            }
        }
    }

    /// The slots of two dispatcher states agree.
    pub open spec fn slots_unchanged(self, other: Dispatcher) -> bool {
        &&& self.num_slots() == other.num_slots()
        &&& forall|i: int|
            #![trigger self.slot_state(i)]
            #![trigger self.slot_assigned(i)]
            0 <= i < self.num_slots() ==> self.slot_state(i) == other.slot_state(i)
                && self.slot_assigned(i) == other.slot_assigned(i)
    }

    /// The invariant carries over to a state whose queues still hold only
    /// discovered nodes and whose slots changed at most at position `i`, in a
    /// way that itself respects the invariant.
    proof fn lemma_wf_update(a: Dispatcher, b: Dispatcher, i: int)
        requires
            a.wf(),
            b.visited_map() == a.visited_map(),
            b.num_slots() == a.num_slots(),
            forall|j: int|
                0 <= j < b.current().len() ==> a.visited_map().contains(#[trigger] b.current()[j]),
            forall|j: int|
                0 <= j < b.next().len() ==> a.visited_map().contains(#[trigger] b.next()[j]),
            forall|j: int, k: int| 0 <= j < k < b.next().len() ==> b.next()[j] != b.next()[k],
            forall|k: int|
                #![trigger b.slot_state(k)]
                #![trigger b.slot_assigned(k)]
                0 <= k < b.num_slots() && k != i ==> b.slot_state(k) == a.slot_state(k)
                    && b.slot_assigned(k) == a.slot_assigned(k),
            0 <= i < b.num_slots() ==> (b.slot_state(i) is Processing
                <==> b.slot_assigned(i) is Some),
            0 <= i < b.num_slots() ==> (b.slot_assigned(i) matches Some(n)
                ==> a.visited_map().contains(n)),
        ensures
            b.wf(),
    {
        assert forall|k: int|
            #![trigger b.slot_state(k)]
            0 <= k < b.num_slots() implies (b.slot_state(k) is Processing
                <==> b.slot_assigned(k) is Some) by {
            if k != i {
                assert(b.slot_state(k) == a.slot_state(k));
                assert(b.slot_assigned(k) == a.slot_assigned(k));
            }
        }
        assert forall|k: int|
            #![trigger b.slot_assigned(k)]
            0 <= k < b.num_slots() implies (b.slot_assigned(k) matches Some(n)
                ==> b.visited_map().contains(n)) by {
            if k != i {
                assert(b.slot_state(k) == a.slot_state(k));
                assert(b.slot_assigned(k) == a.slot_assigned(k));
            }
        }
    }

    /// A fresh search: the start node is seeded as visited and as the whole
    /// current level, every worker slot is idle, nothing is processed yet and
    /// the level counter begins at one.
    pub fn new(start: String, target: String, worker_count: usize, max_queue: usize) -> (r: Self)
        requires
            1 <= worker_count <= 100,
        ensures
            r.wf(),
            r.num_slots() == worker_count,
            forall|i: int| 0 <= i < r.num_slots() ==> (#[trigger] r.slot_state(i)) is Idle,
            r.start_node() == start@,
            r.target_node() == target@,
            r.visited_map().len() == 1,
            r.current() =~= seq![start@],
            r.next().len() == 0,
            r.processed_count_spec() == 0,
            r.depth_spec() == 1,
            r.max_queue_spec() == max_queue,
            r.changed_spec(),
            r.levels_ok(),
    {
        let visited = VisitedMap::new(start.clone());
        let frontier = Frontier::new(start);
        let mut slots: Vec<WorkerSlot> = Vec::new();
        let mut i: usize = 0;
        while i < worker_count
            invariant
                0 <= i <= worker_count,
                slots@.len() == i,
                forall|k: int|
                    #![trigger slots@[k].state]
                    #![trigger slots@[k].assigned]
                    0 <= k < i ==> slots@[k].state is Idle && slots@[k].assigned is None,
            decreases worker_count - i,
        {
            slots.push(WorkerSlot { state: SlotState::Idle, assigned: None });
            i = i + 1;
        }
        let r = Dispatcher {
            visited,
            frontier,
            slots,
            target,
            processed: 0,
            depth: 1,
            max_queue,
            changed: true,
        };
        proof {
            assert forall|k: int|
                0 <= k < r.num_slots() implies (#[trigger] r.slot_state(k)) is Idle
                    && r.slot_assigned(k) is None by {
                assert(r.slots@[k].state is Idle);
                assert(r.slots@[k].assigned is None);
            }
            assert forall|j: int|
                0 <= j < r.current().len() implies r.visited_map().contains(
                    #[trigger] r.current()[j],
                ) by {
                assert(r.current()[j] == start@);
            }
            r.visited_map().lemma_index_unique(0);
            assert(r.visited_map().depth_of(start@) == 0);
            assert forall|j: int|
                0 <= j < r.current().len() implies r.visited_map().depth_of(
                    #[trigger] r.current()[j],
                ) == r.depth_spec() - 1 by {
                assert(r.current()[j] == start@);
            }
        }
        r
    }

    /// Take the pending progress snapshot `(processed, queued, depth)`, if the
    /// state changed since the last one.  The queued count saturates at the
    /// machine limit.
    pub fn take_progress(&mut self) -> (r: Option<(usize, usize, usize)>)
        ensures
            final(self).changed_spec() == false,
            r is Some <==> old(self).changed_spec(),
            r matches Some(t) ==> t.0 == old(self).processed_count_spec()
                && (t.1 == old(self).current().len() + old(self).next().len()
                    || (t.1 == usize::MAX
                        && old(self).current().len() + old(self).next().len() > usize::MAX))
                && t.2 == old(self).depth_spec(),
            final(self).visited_map() == old(self).visited_map(),
            final(self).current() == old(self).current(),
            final(self).next() == old(self).next(),
            final(self).slots_unchanged(*old(self)),
            final(self).processed_count_spec() == old(self).processed_count_spec(),
            final(self).depth_spec() == old(self).depth_spec(),
            final(self).max_queue_spec() == old(self).max_queue_spec(),
            final(self).target_node() == old(self).target_node(),
            old(self).wf() ==> final(self).wf(),
            old(self).levels_ok() ==> final(self).levels_ok(),
    {
        let ghost o = *self;
        let r = if self.changed {
            self.changed = false;
            Some((self.processed, self.frontier.queued_len(), self.depth))
        } else {
            None
        };
        proof {
            assert forall|k: int|
                #![trigger self.slot_state(k)]
                #![trigger self.slot_assigned(k)]
                0 <= k < self.num_slots() implies self.slot_state(k) == o.slot_state(k)
                    && self.slot_assigned(k) == o.slot_assigned(k) by {}
            if o.wf() {
                Self::lemma_wf_update(o, *self, -1);
            }
            if o.levels_ok() {
                Self::lemma_levels_update(o, *self, -1);
            }
        }
        r
    }

    /// Whether the configured capacity is nonzero and reached by the combined
    /// levels; if so the search is aborted with `CapacityExceeded`.
    pub fn over_capacity(&self) -> (r: bool)
        ensures
            r == (self.max_queue_spec() > 0
                && self.current().len() + self.next().len() >= self.max_queue_spec()),
    {
        self.frontier.over_capacity(self.max_queue)
    }

    /// Whether the current level still has work: a node queued or in flight.
    pub fn level_active(&self) -> (r: bool)
        ensures
            r == (self.current().len() > 0 || exists|i: int|
                0 <= i < self.num_slots() && (#[trigger] self.slot_state(i)) is Processing),
    {
        if !self.frontier.current_is_empty() {
            return true;
        }
        let n = self.slots.len();
        let mut i: usize = 0;
        while i < n
            invariant
                n == self.num_slots(),
                0 <= i <= n,
                forall|k: int| 0 <= k < i ==> !((#[trigger] self.slot_state(k)) is Processing),
            decreases n - i,
        {
            if self.slots[i].state == SlotState::Processing {
                proof {
                    assert(self.slot_state(i as int) is Processing);
                }
                return true;
            }
            proof {
                assert(!(self.slot_state(i as int) is Processing));
            }
            i = i + 1;
        }
        false
    }

    /// Whether every worker has died.  With work still queued the search can
    /// then make no progress and must end as `NoPath` under current resources
    /// rather than wait forever.
    pub fn all_workers_dead(&self) -> (r: bool)
        ensures
            r == (forall|i: int| 0 <= i < self.num_slots() ==> (#[trigger] self.slot_state(i)) is Dead),
    {
        let n = self.slots.len();
        let mut i: usize = 0;
        while i < n
            invariant
                n == self.num_slots(),
                0 <= i <= n,
                forall|k: int| 0 <= k < i ==> (#[trigger] self.slot_state(k)) is Dead,
            decreases n - i,
        {
            if !(self.slots[i].state == SlotState::Dead) {
                proof {
                    assert(!(self.slot_state(i as int) is Dead));
                }
                return false;
            }
            proof {
                assert(self.slot_state(i as int) is Dead);
            }
            i = i + 1;
        }
        true
    }

    /// The state of one worker slot, for the caller's liveness display.
    pub fn worker_state(&self, i: usize) -> (r: SlotState)
        requires
            0 <= i < self.num_slots(),
        ensures
            r == self.slot_state(i as int),
    {
        self.slots[i].state
    }

    /// How many expansions have been folded in so far.
    pub fn processed_count(&self) -> (r: usize)
        ensures
            r == self.processed_count_spec(),
    {
        self.processed
    }

    /// The level the search is expanding.
    pub fn depth_level(&self) -> (r: usize)
        ensures
            r == self.depth_spec(),
    {
        self.depth
    }

    /// Assign the front of the current level to the idle slot `i`.  Returns
    /// the node the caller must send to that worker, or nothing when the
    /// current level has no queued node.
    pub fn assign_next(&mut self, i: usize) -> (r: Option<String>)
        requires
            old(self).wf(),
            old(self).levels_ok(),
            0 <= i < old(self).num_slots(),
            old(self).slot_state(i as int) is Idle,
        ensures
            final(self).wf(),
            final(self).levels_ok(),
            final(self).visited_map() == old(self).visited_map(),
            final(self).next() == old(self).next(),
            final(self).processed_count_spec() == old(self).processed_count_spec(),
            final(self).depth_spec() == old(self).depth_spec(),
            final(self).max_queue_spec() == old(self).max_queue_spec(),
            final(self).target_node() == old(self).target_node(),
            final(self).num_slots() == old(self).num_slots(),
            forall|k: int|
                #![trigger final(self).slot_state(k)]
                #![trigger final(self).slot_assigned(k)]
                0 <= k < final(self).num_slots() && k != i ==> final(self).slot_state(k)
                    == old(self).slot_state(k) && final(self).slot_assigned(k) == old(self).slot_assigned(k),
            old(self).current().len() == 0 ==> r is None && *final(self) == *old(self),
            old(self).current().len() > 0 ==> r is Some && r->0@ == old(self).current()[0]
                && final(self).current() =~= old(self).current().drop_first()
                && final(self).slot_state(i as int) is Processing
                && final(self).slot_assigned(i as int) == Some(r->0@)
                && final(self).changed_spec(),
    {
        let ghost o = *self;
        let popped = self.frontier.pop_front();
        match popped {
            None => None,
            Some(node) => {
                self.changed = true;
                self.slots.set(
                    i,
                    WorkerSlot { state: SlotState::Processing, assigned: Some(node.clone()) },
                );
                proof {
                    assert forall|k: int|
                        #![trigger self.slot_state(k)]
                        #![trigger self.slot_assigned(k)]
                        0 <= k < self.num_slots() && k != i implies self.slot_state(k)
                            == o.slot_state(k) && self.slot_assigned(k) == o.slot_assigned(k) by {}
                    assert(self.slot_state(i as int) is Processing);
                    assert(self.slot_assigned(i as int) == Some(node@));
                    assert forall|j: int|
                        0 <= j < self.current().len() implies o.visited_map().contains(
                            #[trigger] self.current()[j],
                        ) by {
                        assert(self.current()[j] == o.current()[j + 1]);
                    }
                    assert(o.visited_map().contains(o.current()[0]));
                    assert(self.next() == o.next());
                    Self::lemma_wf_update(o, *self, i as int);
                    assert(o.visited_map().depth_of(o.current()[0]) == o.depth_spec() - 1);
                    assert forall|j: int|
                        0 <= j < self.current().len() implies o.visited_map().depth_of(
                            #[trigger] self.current()[j],
                        ) == o.depth_spec() - 1 by {
                        assert(self.current()[j] == o.current()[j + 1]);
                    }
                    Self::lemma_levels_update(o, *self, i as int);
                }
                Some(node)
            },
        }
    }

    /// Record that the worker at slot `i` died (its channel disconnected).
    /// The slot becomes permanently dead and the node it was expanding goes
    /// back to the front of the current level, to be retried by another
    /// worker with its level priority kept.
    pub fn collect_disconnect(&mut self, i: usize)
        requires
            old(self).wf(),
            old(self).levels_ok(),
            0 <= i < old(self).num_slots(),
            old(self).slot_state(i as int) is Processing,
        ensures
            final(self).wf(),
            final(self).levels_ok(),
            final(self).visited_map() == old(self).visited_map(),
            final(self).current() =~= seq![old(self).slot_assigned(i as int)->0]
                + old(self).current(),
            final(self).next() == old(self).next(),
            final(self).processed_count_spec() == old(self).processed_count_spec(),
            final(self).depth_spec() == old(self).depth_spec(),
            final(self).max_queue_spec() == old(self).max_queue_spec(),
            final(self).target_node() == old(self).target_node(),
            final(self).num_slots() == old(self).num_slots(),
            final(self).slot_state(i as int) is Dead,
            final(self).slot_assigned(i as int) is None,
            final(self).changed_spec(),
            forall|k: int|
                #![trigger final(self).slot_state(k)]
                #![trigger final(self).slot_assigned(k)]
                0 <= k < final(self).num_slots() && k != i ==> final(self).slot_state(k)
                    == old(self).slot_state(k) && final(self).slot_assigned(k) == old(self).slot_assigned(k),
    {
        let ghost o = *self;
        let node = self.slots[i].assigned.as_ref().unwrap().clone();
        proof {
            assert(o.slot_assigned(i as int) == Some(node@));
        }
        self.frontier.push_front(node);
        self.slots.set(i, WorkerSlot { state: SlotState::Dead, assigned: None });
        self.changed = true;
        proof {
            assert forall|k: int|
                #![trigger self.slot_state(k)]
                #![trigger self.slot_assigned(k)]
                0 <= k < self.num_slots() && k != i implies self.slot_state(k)
                    == o.slot_state(k) && self.slot_assigned(k) == o.slot_assigned(k) by {}
            assert(self.slot_state(i as int) is Dead);
            assert(self.slot_assigned(i as int) is None);
            assert forall|j: int|
                0 <= j < self.current().len() implies o.visited_map().contains(
                    #[trigger] self.current()[j],
                ) by {
                if j == 0 {
                    assert(self.current()[0] == o.slot_assigned(i as int)->0);
                } else {
                    assert(self.current()[j] == o.current()[j - 1]);
                }
            }
            assert(self.next() == o.next());
            Self::lemma_wf_update(o, *self, i as int);
            assert forall|j: int|
                0 <= j < self.current().len() implies o.visited_map().depth_of(
                    #[trigger] self.current()[j],
                ) == o.depth_spec() - 1 by {
                if j == 0 {
                    assert(self.current()[0] == o.slot_assigned(i as int)->0);
                } else {
                    assert(self.current()[j] == o.current()[j - 1]);
                }
            }
            Self::lemma_levels_update(o, *self, i as int);
        }
    }

    /// Fold the neighbor set returned for the node in flight at slot `i` into
    /// the search state.  Every neighbor is examined in order: the target ends
    /// the search with the reconstructed path; a neighbor seen for the first
    /// time is recorded in the visited map with the expanded node as its
    /// parent and queued on the next level; a neighbor seen before is ignored,
    /// so its first recorded parent stands.  Without a find, the slot returns
    /// to idle and the count of processed nodes grows by one.
    #[verifier::loop_isolation(false)]
    #[verifier::rlimit(100)]
    pub fn collect_result(&mut self, i: usize, neighbors: &Vec<String>) -> (r: Option<Vec<String>>)
        requires
            old(self).wf(),
            old(self).levels_ok(),
            0 <= i < old(self).num_slots(),
            old(self).slot_state(i as int) is Processing,
            old(self).processed_count_spec() < usize::MAX,
        ensures
            final(self).wf(),
            final(self).levels_ok(),
            final(self).processed_count_spec() == old(self).processed_count_spec() + 1,
            final(self).depth_spec() == old(self).depth_spec(),
            final(self).max_queue_spec() == old(self).max_queue_spec(),
            final(self).target_node() == old(self).target_node(),
            final(self).num_slots() == old(self).num_slots(),
            final(self).changed_spec(),
            final(self).start_node() == old(self).start_node(),
            // Discovery is monotone, and the first recorded parent of a node
            // is never overwritten.
            forall|key: Seq<char>|
                old(self).visited_map().contains(key) ==> final(self).visited_map().contains(key),
            forall|key: Seq<char>|
                old(self).visited_map().contains(key)
                    ==> #[trigger] final(self).visited_map().parent_of(key)
                        == old(self).visited_map().parent_of(key),
            // Every newly recorded node is one of the delivered neighbors and
            // carries the expanded node as its parent.
            forall|key: Seq<char>|
                #![trigger final(self).visited_map().contains(key)]
                final(self).visited_map().contains(key) && !old(self).visited_map().contains(key)
                    ==> node_views(neighbors@).contains(key)
                        && final(self).visited_map().parent_of(key)
                            == old(self).slot_assigned(i as int)->0,
            // The target is found exactly when it is among the neighbors.
            (r is Some) <==> node_views(neighbors@).contains(old(self).target_node()),
            r is Some ==> is_discovery_path(
                final(self).visited_map(),
                r->0@.map_values(|s: String| s@),
                old(self).target_node(),
            ) && r->0@.len() >= 2
                && r->0@[r->0@.len() - 2]@ == old(self).slot_assigned(i as int)->0
                && r->0@[r->0@.len() - 1]@ == old(self).target_node(),
            // One node per level: a path found while level `depth` is being
            // expanded runs through exactly `depth + 1` nodes.
            r matches Some(p) ==> p@.len() == old(self).depth_spec() + 1,
            // Without a find: every neighbor is now discovered, the slot is
            // idle again, and the current level is untouched.
            r is None ==> forall|j: int|
                0 <= j < neighbors@.len()
                    ==> final(self).visited_map().contains(#[trigger] node_views(neighbors@)[j]),
            r is None ==> final(self).slot_state(i as int) is Idle
                && final(self).slot_assigned(i as int) is None,
            r is None ==> final(self).current() == old(self).current(),
            r is None ==> forall|k: int|
                #![trigger final(self).slot_state(k)]
                #![trigger final(self).slot_assigned(k)]
                0 <= k < final(self).num_slots() && k != i ==> final(self).slot_state(k)
                    == old(self).slot_state(k) && final(self).slot_assigned(k) == old(self).slot_assigned(k),
            // The next level only grows, by fresh discoveries.
            old(self).next().len() <= final(self).next().len(),
            forall|j: int|
                0 <= j < old(self).next().len() ==> #[trigger] final(self).next()[j] == old(self).next()[j],
            forall|j: int|
                old(self).next().len() <= j < final(self).next().len()
                    ==> node_views(neighbors@).contains(#[trigger] final(self).next()[j])
                        && !old(self).visited_map().contains(final(self).next()[j]),
    {
        let ghost o = *self;
        let parent: String = self.slots[i].assigned.as_ref().unwrap().clone();
        proof {
            assert(o.slot_assigned(i as int) == Some(parent@));
        }
        self.processed = self.processed + 1;
        self.changed = true;
        proof {
            assert(self.next() == o.next());
            assert(self.current() == o.current());
            assert(self.visited_map() == o.visited_map());
            assert forall|k: int|
                #![trigger self.slot_state(k)]
                #![trigger self.slot_assigned(k)]
                0 <= k < self.num_slots() implies self.slot_state(k) == o.slot_state(k)
                    && self.slot_assigned(k) == o.slot_assigned(k) by {}
            Self::lemma_wf_update(o, *self, -1);
        }
        let n = neighbors.len();
        let mut j: usize = 0;
        while j < n
            invariant
                0 <= j <= n,
                self.wf(),
                self.slots == o.slots,
                self.frontier.current_seq() == o.current(),
                self.target == o.target,
                self.processed == o.processed + 1,
                self.depth == o.depth,
                self.max_queue == o.max_queue,
                self.changed,
                self.visited_map().start() == o.start_node(),
                self.visited_map().contains(parent@),
                self.visited_map().depth_of(parent@) == o.depth_spec() - 1,
                forall|q: int|
                    0 <= q < o.current().len() ==> self.visited_map().depth_of(
                        #[trigger] o.current()[q],
                    ) == o.depth_spec() - 1,
                forall|q: int|
                    0 <= q < self.next().len() ==> self.visited_map().depth_of(
                        #[trigger] self.next()[q],
                    ) == o.depth_spec(),
                forall|k: int|
                    #![trigger o.slot_assigned(k)]
                    0 <= k < o.num_slots() ==> (o.slot_assigned(k) matches Some(nd)
                        ==> self.visited_map().depth_of(nd) == o.depth_spec() - 1),
                forall|key: Seq<char>|
                    o.visited_map().contains(key) ==> self.visited_map().contains(key),
                forall|key: Seq<char>|
                    o.visited_map().contains(key) ==> #[trigger] self.visited_map().parent_of(key)
                        == o.visited_map().parent_of(key),
                forall|key: Seq<char>|
                    #![trigger self.visited_map().contains(key)]
                    self.visited_map().contains(key) && !o.visited_map().contains(key)
                        ==> node_views(neighbors@).contains(key)
                            && self.visited_map().parent_of(key) == parent@,
                forall|q: int|
                    0 <= q < j ==> #[trigger] node_views(neighbors@)[q] != o.target_node(),
                forall|q: int|
                    0 <= q < j ==> self.visited_map().contains(#[trigger] node_views(neighbors@)[q]),
                o.next().len() <= self.next().len(),
                forall|q: int|
                    0 <= q < o.next().len() ==> #[trigger] self.next()[q] == o.next()[q],
                forall|q: int|
                    o.next().len() <= q < self.next().len()
                        ==> node_views(neighbors@).contains(#[trigger] self.next()[q])
                            && !o.visited_map().contains(self.next()[q]),
            decreases n - j,
        {
            let ghost v0 = self.visited_map();
            let c = &neighbors[j];
            if *c == self.target {
                let path = self.visited.reconstruct(&parent, &self.target);
                proof {
                    assert(node_views(neighbors@)[j as int] == c@);
                    assert(node_views(neighbors@).contains(o.target_node()));
                    assert(path@.len() == self.visited_map().depth_of(parent@) + 2);
                    assert(path@.len() == o.depth_spec() + 1);
                    assert forall|q: int|
                        0 <= q < self.current().len() implies self.visited_map().depth_of(
                            #[trigger] self.current()[q],
                        ) == self.depth_spec() - 1 by {
                        assert(self.current()[q] == o.current()[q]);
                    }
                    assert forall|k: int|
                        #![trigger self.slot_assigned(k)]
                        0 <= k < self.num_slots() implies (self.slot_assigned(k) matches Some(nd)
                            ==> self.visited_map().depth_of(nd) == self.depth_spec() - 1) by {
                        assert(self.slot_assigned(k) == o.slot_assigned(k));
                    }
                }
                return Some(path);
            }
            if !self.visited.contains_key(c) {
                self.visited.insert(c.clone(), parent.clone());
                self.frontier.push_next(c.clone());
                proof {
                    assert(node_views(neighbors@)[j as int] == c@);
                    let nv = self.next();
                    assert forall|q: int, k: int| 0 <= q < k < nv.len() implies nv[q] != nv[k] by {
                        if k == nv.len() - 1 {
                            assert(v0.contains(nv[q]));
                        }
                    }
                    assert forall|key: Seq<char>|
                        o.visited_map().contains(key) implies self.visited_map().contains(key)
                            && #[trigger] self.visited_map().parent_of(key)
                                == o.visited_map().parent_of(key) by {
                        assert(v0.contains(key));
                        assert(self.visited_map().contains(key));
                        assert(self.visited_map().parent_of(key) == v0.parent_of(key));
                    }
                    assert forall|q: int|
                        0 <= q < self.current().len() implies self.visited_map().contains(
                            #[trigger] self.current()[q],
                        ) by {
                        assert(v0.contains(self.current()[q]));
                    }
                    assert forall|q: int|
                        0 <= q < self.next().len() implies self.visited_map().contains(
                            #[trigger] self.next()[q],
                        ) by {
                        if q < self.next().len() - 1 {
                            assert(v0.contains(self.next()[q]));
                        }
                    }
                    assert forall|k: int|
                        #![trigger self.slot_assigned(k)]
                        0 <= k < self.num_slots() implies (self.slot_assigned(k) matches Some(nd)
                            ==> self.visited_map().contains(nd)) by {
                        assert(self.slot_assigned(k) == o.slot_assigned(k));
                        if self.slot_assigned(k) is Some {
                            assert(v0.contains(o.slot_assigned(k)->0));
                        }
                    }
                    assert forall|k: int|
                        #![trigger self.slot_state(k)]
                        0 <= k < self.num_slots() implies (self.slot_state(k) is Processing
                            <==> self.slot_assigned(k) is Some) by {
                        assert(self.slot_state(k) == o.slot_state(k));
                        assert(self.slot_assigned(k) == o.slot_assigned(k));
                    }
                    assert(self.visited_map().depth_of(parent@) == v0.depth_of(parent@));
                    assert(self.visited_map().depth_of(c@) == v0.depth_of(parent@) + 1);
                    assert forall|q: int|
                        0 <= q < o.current().len() implies self.visited_map().depth_of(
                            #[trigger] o.current()[q],
                        ) == o.depth_spec() - 1 by {
                        assert(v0.depth_of(o.current()[q]) == o.depth_spec() - 1);
                        assert(o.visited_map().contains(o.current()[q]));
                        assert(v0.contains(o.current()[q]));
                        assert(self.visited_map().depth_of(o.current()[q]) == v0.depth_of(
                            o.current()[q],
                        ));
                    }
                    assert forall|q: int|
                        0 <= q < self.next().len() implies self.visited_map().depth_of(
                            #[trigger] self.next()[q],
                        ) == o.depth_spec() by {
                        if q < self.next().len() - 1 {
                            assert(v0.depth_of(self.next()[q]) == o.depth_spec());
                            assert(v0.contains(self.next()[q]));
                            assert(self.visited_map().depth_of(self.next()[q]) == v0.depth_of(
                                self.next()[q],
                            ));
                        } else {
                            assert(self.next()[q] == c@);
                        }
                    }
                    assert forall|k: int|
                        #![trigger o.slot_assigned(k)]
                        0 <= k < o.num_slots() implies (o.slot_assigned(k) matches Some(nd)
                            ==> self.visited_map().depth_of(nd) == o.depth_spec() - 1) by {
                        if o.slot_assigned(k) is Some {
                            assert(v0.depth_of(o.slot_assigned(k)->0) == o.depth_spec() - 1);
                            assert(o.visited_map().contains(o.slot_assigned(k)->0));
                            assert(v0.contains(o.slot_assigned(k)->0));
                            assert(self.visited_map().depth_of(o.slot_assigned(k)->0)
                                == v0.depth_of(o.slot_assigned(k)->0));
                        }
                    }
                }
            }
            proof {
                assert(node_views(neighbors@)[j as int] == neighbors@[j as int]@);
                assert(self.visited_map().contains(c@));
                assert forall|key: Seq<char>|
                    #![trigger self.visited_map().contains(key)]
                    self.visited_map().contains(key) && !o.visited_map().contains(key)
                        implies node_views(neighbors@).contains(key)
                            && self.visited_map().parent_of(key) == parent@ by {
                    if v0.contains(key) {
                        assert(v0.parent_of(key) == parent@);
                        assert(node_views(neighbors@).contains(key));
                        assert(self.visited_map().parent_of(key) == v0.parent_of(key));
                    } else {
                        assert(key == c@);
                        assert(node_views(neighbors@).contains(key));
                        assert(self.visited_map().parent_of(key) == parent@);
                    }
                }
            }
            j = j + 1;
        }
        let ghost before = *self;
        self.slots.set(i, WorkerSlot { state: SlotState::Idle, assigned: None });
        proof {
            if node_views(neighbors@).contains(o.target_node()) {
                let q = choose|q: int|
                    0 <= q < node_views(neighbors@).len()
                        && node_views(neighbors@)[q] == o.target_node();
                assert(false);
            }
            assert forall|k: int|
                #![trigger self.slot_state(k)]
                #![trigger self.slot_assigned(k)]
                0 <= k < self.num_slots() && k != i implies self.slot_state(k)
                    == before.slot_state(k) && self.slot_assigned(k) == before.slot_assigned(k) by {}
            assert forall|k: int|
                #![trigger self.slot_state(k)]
                #![trigger self.slot_assigned(k)]
                0 <= k < self.num_slots() && k != i implies self.slot_state(k)
                    == o.slot_state(k) && self.slot_assigned(k) == o.slot_assigned(k) by {
                assert(before.slot_state(k) == o.slot_state(k));
                assert(before.slot_assigned(k) == o.slot_assigned(k));
            }
            assert(self.slot_state(i as int) is Idle);
            assert(self.slot_assigned(i as int) is None);
            assert(self.next() == before.next());
            assert(self.current() == before.current());
            assert(self.visited_map() == before.visited_map());
            Self::lemma_wf_update(before, *self, i as int);
            assert forall|q: int|
                0 <= q < before.current().len() implies before.visited_map().depth_of(
                    #[trigger] before.current()[q],
                ) == before.depth_spec() - 1 by {
                assert(before.current()[q] == o.current()[q]);
            }
            assert forall|k: int|
                #![trigger before.slot_assigned(k)]
                0 <= k < before.num_slots() implies (before.slot_assigned(k) matches Some(nd)
                    ==> before.visited_map().depth_of(nd) == before.depth_spec() - 1) by {
                assert(before.slot_assigned(k) == o.slot_assigned(k));
            }
            assert(before.levels_ok());
            Self::lemma_levels_update(before, *self, i as int);
        }
        None
    }

    /// A node is never queued for the next level twice: every dispatcher
    /// state that the methods of this type produce keeps the next level free
    /// of duplicates, however many expansions of the current level reach the
    /// same fresh node.
    pub proof fn lemma_no_duplicate_enqueue(self, j: int, k: int)
        requires
            self.wf(),
            0 <= j < self.next().len(),
            0 <= k < self.next().len(),
            self.next()[j] == self.next()[k],
        ensures
            j == k,
    {
    }

    /// End the level: when nothing was discovered for the next level the
    /// reachable component is exhausted and the search must stop with no
    /// path; otherwise the next level becomes current and the depth counter
    /// advances.  A level may only end once no node of it is queued or in
    /// flight: every node of one level is fully expanded, or reassigned and
    /// expanded, before any node of the next level is dispatched, which is
    /// what makes the first found path a shortest one.
    pub fn advance_level(&mut self) -> (r: bool)
        requires
            old(self).wf(),
            old(self).levels_ok(),
            old(self).current().len() == 0,
            forall|i: int|
                0 <= i < old(self).num_slots()
                    ==> !((#[trigger] old(self).slot_state(i)) is Processing),
            old(self).depth_spec() < usize::MAX,
        ensures
            final(self).wf(),
            final(self).levels_ok(),
            r == (old(self).next().len() > 0),
            !r ==> *final(self) == *old(self),
            r ==> final(self).current() =~= old(self).next() && final(self).next().len() == 0
                && final(self).depth_spec() == old(self).depth_spec() + 1
                && final(self).changed_spec(),
            final(self).visited_map() == old(self).visited_map(),
            final(self).processed_count_spec() == old(self).processed_count_spec(),
            final(self).depth_spec() >= old(self).depth_spec(),
            final(self).max_queue_spec() == old(self).max_queue_spec(),
            final(self).target_node() == old(self).target_node(),
            final(self).slots_unchanged(*old(self)),
    {
        let ghost o = *self;
        if self.frontier.queued_len() == 0 {
            proof {
                assert(self.next().len() == 0);
            }
            false
        } else {
            self.frontier.swap_levels();
            self.depth = self.depth + 1;
            self.changed = true;
            proof {
                assert forall|k: int|
                    #![trigger self.slot_state(k)]
                    #![trigger self.slot_assigned(k)]
                    0 <= k < self.num_slots() implies self.slot_state(k) == o.slot_state(k)
                        && self.slot_assigned(k) == o.slot_assigned(k) by {}
                assert forall|j: int|
                    0 <= j < self.current().len() implies o.visited_map().contains(
                        #[trigger] self.current()[j],
                    ) by {
                    assert(self.current()[j] == o.next()[j]);
                }
                Self::lemma_wf_update(o, *self, -1);
                assert forall|j: int|
                    0 <= j < self.current().len() implies self.visited_map().depth_of(
                        #[trigger] self.current()[j],
                    ) == self.depth_spec() - 1 by {
                    assert(self.current()[j] == o.next()[j]);
                }
                assert forall|k: int|
                    #![trigger self.slot_assigned(k)]
                    0 <= k < self.num_slots() implies (self.slot_assigned(k) matches Some(n)
                        ==> self.visited_map().depth_of(n) == self.depth_spec() - 1) by {
                    assert(self.slot_state(k) == o.slot_state(k));
                    assert(self.slot_assigned(k) == o.slot_assigned(k));
                }
            }
            true
        }
    }
}

} // verus!
