//! Timing totals gathered while a search runs.  Each worker accumulates, per
//! numbered marker, the nanoseconds its measured stretches took; the totals of
//! all workers are combined when the search ends.  The clock itself ticks
//! outside the library: the caller measures a stretch and hands in its length.

use vstd::prelude::*;

verus! {

/// How many distinct markers a record keeps: one per marker number.
pub open spec fn marker_count() -> int {
    256
}

/// Addition that stops at the largest representable total instead of wrapping.
pub open spec fn sat_add(a: int, b: int) -> int {
    if a + b > u64::MAX {
        u64::MAX as int
    } else {
        a + b
    }
}

/// Accumulated nanoseconds per marker number.
pub struct Bench {
    totals: Vec<u64>,
}

impl Bench {
    pub closed spec fn total_at(self, id: int) -> int {
        self.totals@[id] as int
    }

    pub open spec fn wf(self) -> bool {
        self.totals_len() == marker_count()
    }

    pub closed spec fn totals_len(self) -> int {
        self.totals@.len() as int
    }

    /// A fresh record: every marker at zero.
    pub fn new() -> (r: Self)
        ensures
            r.wf(),
            forall|id: int| 0 <= id < marker_count() ==> r.total_at(id) == 0,
    {
        Bench { totals: vec![0u64; 256] }
    }

    /// Add one measured stretch to a marker's total, stopping at the largest
    /// representable total.
    pub fn add_sample(&mut self, id: u8, nanos: u64)
        requires
            old(self).wf(),
        ensures
            final(self).wf(),
            final(self).total_at(id as int) == sat_add(old(self).total_at(id as int), nanos as int),
            forall|k: int|
                0 <= k < marker_count() && k != id ==> #[trigger] final(self).total_at(k)
                    == old(self).total_at(k),
    {
        let i = id as usize;
        let cur = self.totals[i];
        let sum = if cur <= u64::MAX - nanos {
            cur + nanos
        } else {
            u64::MAX
        };
        self.totals.set(i, sum);
    }

    pub fn get_duration(&self, id: u8) -> (r: u64)
        requires
            self.wf(),
        ensures
            r == self.total_at(id as int),
    {
        self.totals[id as usize]
    }

    /// Fold another record into this one, marker by marker, stopping at the
    /// largest representable total.
    pub fn combine(&mut self, other: &Bench)
        requires
            old(self).wf(),
            other.wf(),
        ensures
            final(self).wf(),
            forall|id: int|
                0 <= id < marker_count() ==> #[trigger] final(self).total_at(id) == sat_add(
                    old(self).total_at(id),
                    other.total_at(id),
                ),
    {
        let mut i: usize = 0;
        while i < 256
            invariant
                self.wf(),
                other.wf(),
                old(self).wf(),
                0 <= i <= 256,
                forall|id: int|
                    0 <= id < i ==> #[trigger] self.total_at(id) == sat_add(
                        old(self).total_at(id),
                        other.total_at(id),
                    ),
                forall|id: int|
                    i <= id < marker_count() ==> #[trigger] self.total_at(id) == old(self).total_at(
                        id,
                    ),
            decreases 256 - i,
        {
            let ghost s0 = *self;
            let cur = self.totals[i];
            let add = other.totals[i];
            let sum = if cur <= u64::MAX - add {
                cur + add
            } else {
                u64::MAX
            };
            self.totals.set(i, sum);
            proof {
                assert forall|id: int|
                    0 <= id < i + 1 implies #[trigger] self.total_at(id) == sat_add(
                    old(self).total_at(id),
                    other.total_at(id),
                ) by {
                    if id < i {
                        assert(self.total_at(id) == s0.total_at(id));
                    } else {
                        assert(self.total_at(id) == sum);
                        assert(s0.total_at(id) == old(self).total_at(id));
                    }
                }
                assert forall|id: int|
                    i + 1 <= id < marker_count() implies #[trigger] self.total_at(id) == old(
                    self,
                ).total_at(id) by {
                    assert(self.total_at(id) == s0.total_at(id));
                }
            }
            i = i + 1;
        }
    }
}

/// The totals of a list of records folded together in order, at one marker.
pub open spec fn combined_total(benches: Seq<Bench>, id: int) -> int
    decreases benches.len(),
{
    if benches.len() == 0 {
        0
    } else {
        sat_add(combined_total(benches.drop_last(), id), benches.last().total_at(id))
    }
}

/// Fold the records that the workers handed back into one.
pub fn collect_benches(benches: &Vec<Bench>) -> (r: Bench)
    requires
        forall|i: int| 0 <= i < benches@.len() ==> (#[trigger] benches@[i]).wf(),
    ensures
        r.wf(),
        forall|id: int|
            0 <= id < marker_count() ==> #[trigger] r.total_at(id) == combined_total(benches@, id),
{
    let mut res = Bench::new();
    let n = benches.len();
    let mut i: usize = 0;
    proof {
        assert forall|id: int|
            0 <= id < marker_count() implies #[trigger] res.total_at(id) == combined_total(
            benches@.take(0),
            id,
        ) by {
            assert(benches@.take(0).len() == 0);
        }
    }
    while i < n
        invariant
            n == benches@.len(),
            0 <= i <= n,
            forall|k: int| 0 <= k < benches@.len() ==> (#[trigger] benches@[k]).wf(),
            res.wf(),
            forall|id: int|
                0 <= id < marker_count() ==> #[trigger] res.total_at(id) == combined_total(
                    benches@.take(i as int),
                    id,
                ),
        decreases n - i,
    {
        res.combine(&benches[i]);
        proof {
            assert(benches@.take(i + 1).drop_last() =~= benches@.take(i as int));
            assert(benches@.take(i + 1).last() == benches@[i as int]);
        }
        i = i + 1;
    }
    proof {
        assert(benches@.take(n as int) =~= benches@);
    }
    res
}

} // verus!
