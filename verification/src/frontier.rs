//! The breadth-first frontier: the queue of nodes being expanded on the
//! current level and the queue of nodes discovered for the next level.

use vstd::prelude::*;

verus! {

/// The two level queues of the breadth-first search.  Nodes are taken from the
/// front of `current`; fresh discoveries are appended to `next`; a node whose
/// worker died is put back at the front of `current`.
pub struct Frontier {
    current: Vec<String>,
    next: Vec<String>,
}

impl Frontier {
    pub closed spec fn current_seq(self) -> Seq<Seq<char>> {
        self.current@.map_values(|s: String| s@)
    }

    pub closed spec fn next_seq(self) -> Seq<Seq<char>> {
        self.next@.map_values(|s: String| s@)
    }

    /// How many nodes are queued over both levels.
    pub open spec fn total(self) -> int {
        self.current_seq().len() + self.next_seq().len() as int
    }

    /// A frontier holding only the start node on the current level.
    pub fn new(start: String) -> (r: Self)
        ensures
            r.current_seq() =~= seq![start@],
            r.next_seq() =~= Seq::<Seq<char>>::empty(),
    {
        let mut current: Vec<String> = Vec::new();
        current.push(start);
        Frontier { current, next: Vec::new() }
    }

    pub fn current_is_empty(&self) -> (r: bool)
        ensures
            r == (self.current_seq().len() == 0),
    {
        self.current.is_empty()
    }

    /// Take the node at the front of the current level.
    pub fn pop_front(&mut self) -> (r: Option<String>)
        ensures
            old(self).current_seq().len() == 0 ==> r is None && *final(self) == *old(self),
            old(self).current_seq().len() > 0 ==> r is Some && r->0@ == old(self).current_seq()[0]
                && final(self).current_seq() =~= old(self).current_seq().drop_first()
                && final(self).next_seq() == old(self).next_seq(),
    {
        if self.current.is_empty() {
            None
        } else {
            let r = self.current.remove(0);
            Some(r)
        }
    }

    /// Put a node back at the front of the current level, so that it is
    /// retried before anything else on this level.
    pub fn push_front(&mut self, node: String)
        ensures
            final(self).current_seq() =~= seq![node@] + old(self).current_seq(),
            final(self).next_seq() == old(self).next_seq(),
    {
        self.current.insert(0, node);
    }

    /// Append a freshly discovered node to the next level.
    pub fn push_next(&mut self, node: String)
        ensures
            final(self).current_seq() == old(self).current_seq(),
            final(self).next_seq() =~= old(self).next_seq().push(node@),
    {
        self.next.push(node);
    }

    /// The queue length reported to the progress consumer, saturating at the
    /// machine limit.
    pub fn queued_len(&self) -> (r: usize)
        ensures
            r == self.total() || (r == usize::MAX && self.total() > usize::MAX),
    {
        let c = self.current.len();
        let n = self.next.len();
        if c <= usize::MAX - n {
            c + n
        } else {
            usize::MAX
        }
    }

    /// Whether a nonzero capacity `max` is reached by the combined queues.
    pub fn over_capacity(&self, max: usize) -> (r: bool)
        ensures
            r == (max > 0 && self.total() >= max),
    {
        if max == 0 {
            false
        } else {
            let c = self.current.len();
            if c >= max {
                true
            } else {
                self.next.len() >= max - c
            }
        }
    }

    /// Advance to the next level: the nodes discovered on this level become
    /// the current level and the next level starts empty.
    pub fn swap_levels(&mut self)
        requires
            old(self).current_seq().len() == 0,
        ensures
            final(self).current_seq() =~= old(self).next_seq(),
            final(self).next_seq() =~= Seq::<Seq<char>>::empty(),
    {
        let mut taken: Vec<String> = Vec::new();
        core::mem::swap(&mut taken, &mut self.next);
        core::mem::swap(&mut self.current, &mut taken);
    }
}

} // verus!
