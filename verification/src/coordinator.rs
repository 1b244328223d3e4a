//! The bounded-concurrency coordinator.
//!
//! Discovery hands the coordinator the package-name list; the driver then
//! repeatedly asks it which package to start next (at most `limit` may be
//! in flight at once), performs the fetch-and-scan for that package, and
//! hands the result back under the package's index.  Results are collected
//! in submission order regardless of completion order; a progress count
//! grows by one per completed package.  The coordinator itself cannot fail:
//! the scanner already isolates per-package failures.

use vstd::prelude::*;

use crate::retention::ListingEntry;

verus! {

/// Number of filled result slots.
pub open spec fn num_done(rs: Seq<Option<Vec<ListingEntry>>>) -> int {
    rs.filter(|r: Option<Vec<ListingEntry>>| r is Some).len() as int
}

/// A filled prefix-free slot count never exceeds the slot count.
proof fn lemma_num_done_bound(rs: Seq<Option<Vec<ListingEntry>>>)
    ensures
        0 <= num_done(rs) <= rs.len(),
{
    broadcast use vstd::prelude::Seq::lemma_filter_len;

}

/// When every slot counts as filled, every slot is filled.
proof fn lemma_all_done(rs: Seq<Option<Vec<ListingEntry>>>)
    requires
        num_done(rs) == rs.len(),
    ensures
        forall|j: int| 0 <= j < rs.len() ==> rs[j] is Some,
    decreases rs.len(),
{
    reveal(Seq::filter);
    broadcast use vstd::prelude::Seq::lemma_filter_len;

    if rs.len() > 0 {
        if rs.last() is Some {
            lemma_all_done(rs.drop_last());
            assert(forall|j: int| 0 <= j < rs.len() - 1 ==> rs.drop_last()[j] is Some);
            assert(forall|j: int| 0 <= j < rs.len() - 1 ==> rs[j] == rs.drop_last()[j]);
        } else {
            assert(num_done(rs) == num_done(rs.drop_last()));
            lemma_num_done_bound(rs.drop_last());
        }
    }
}

proof fn lemma_num_done_update(rs: Seq<Option<Vec<ListingEntry>>>, i: int, v: Vec<ListingEntry>)
    requires
        0 <= i < rs.len(),
        rs[i] is None,
    ensures
        num_done(rs.update(i, Some(v))) == num_done(rs) + 1,
    decreases rs.len(),
{
    reveal(Seq::filter);
    let upd = rs.update(i, Some(v));
    if i == rs.len() - 1 {
        assert(upd.drop_last() =~= rs.drop_last());
        assert(upd.last() == Some(v));
        assert(rs.last() is None);
    } else {
        lemma_num_done_update(rs.drop_last(), i, v);
        assert(upd.drop_last() =~= rs.drop_last().update(i, Some(v)));
        assert(upd.last() == rs.last());
    }
}

/// The coordinator's state: the discovered names, how many scans have been
/// submitted, how many have completed, the in-flight ceiling, and one
/// result slot per name, filled on completion.
pub struct Coordinator {
    pub names: Vec<Vec<u8>>,
    pub next_start: usize,
    pub completed: usize,
    pub limit: usize,
    pub results: Vec<Option<Vec<ListingEntry>>>,
}

impl Coordinator {
    /// The coordinator's bookkeeping is consistent: one slot per name, only
    /// submitted tasks have results, the completed count matches the filled
    /// slots, and no more than `limit` tasks are in flight.
    pub open spec fn wf(&self) -> bool {
        &&& self.results@.len() == self.names@.len()
        &&& self.next_start <= self.names@.len()
        &&& self.completed <= self.next_start
        &&& num_done(self.results@) == self.completed
        &&& self.next_start - self.completed <= self.limit
        &&& forall|j: int|
            0 <= j < self.results@.len() && #[trigger] self.results@[j] is Some ==> j
                < self.next_start
    }

    /// How many tasks are in flight: submitted but not completed.
    pub open spec fn in_flight(&self) -> int {
        self.next_start - self.completed
    }

    /// Take over the discovered names with an in-flight ceiling of `limit`.
    pub fn new(names: Vec<Vec<u8>>, limit: usize) -> (r: Coordinator)
        ensures
            r.wf(),
            r.names@ == names@,
            r.limit == limit,
            r.next_start == 0,
            r.completed == 0,
    {
        let n = names.len();
        let mut results: Vec<Option<Vec<ListingEntry>>> = Vec::new();
        proof {
            reveal(Seq::filter);
            assert(num_done(results@) == 0);
        }
        let mut i: usize = 0;
        while i < n
            invariant
                0 <= i <= n,
                results@.len() == i,
                forall|j: int| 0 <= j < i ==> #[trigger] results@[j] is None,
                num_done(results@) == 0,
            decreases n - i,
        {
            let ghost prev = results@;
            results.push(None);
            proof {
                reveal(Seq::filter);
                assert(results@.drop_last() =~= prev);
            }
            i = i + 1;
        }
        Coordinator { names, next_start: 0, completed: 0, limit, results }
    }

    /// The index of the next package to start, if fewer than `limit` tasks
    /// are in flight and names remain; `None` otherwise, leaving the state
    /// unchanged.
    pub fn start_next(&mut self) -> (r: Option<usize>)
        requires
            old(self).wf(),
        ensures
            final(self).wf(),
            final(self).names@ == old(self).names@,
            final(self).limit == old(self).limit,
            final(self).completed == old(self).completed,
            final(self).results@ == old(self).results@,
            match r {
                Some(i) => {
                    &&& old(self).next_start < old(self).names@.len()
                    &&& old(self).in_flight() < old(self).limit
                    &&& i == old(self).next_start
                    &&& final(self).next_start == old(self).next_start + 1
                },
                None => {
                    &&& final(self).next_start == old(self).next_start
                    &&& (old(self).next_start == old(self).names@.len() || old(self).in_flight()
                        >= old(self).limit)
                },
            },
    {
        if self.next_start < self.names.len() && self.next_start - self.completed < self.limit {
            let i = self.next_start;
            self.next_start = self.next_start + 1;
            Some(i)
        } else {
            None
        }
    }

    /// The name of the package at a submitted index.
    pub fn name_at(&self, i: usize) -> (r: &Vec<u8>)
        requires
            i < self.names@.len(),
        ensures
            r@ == self.names@[i as int]@,
    {
        &self.names[i]
    }

    /// Record the result of one completed package scan under its index.
    /// Progress grows by one; the slot must belong to a submitted,
    /// not-yet-completed task.
    pub fn complete(&mut self, i: usize, entries: Vec<ListingEntry>)
        requires
            old(self).wf(),
            old(self).in_flight() > 0,
            i < old(self).next_start,
            old(self).results@[i as int] is None,
        ensures
            final(self).wf(),
            final(self).names@ == old(self).names@,
            final(self).limit == old(self).limit,
            final(self).next_start == old(self).next_start,
            final(self).completed == old(self).completed + 1,
            final(self).results@ == old(self).results@.update(i as int, Some(entries)),
    {
        proof {
            lemma_num_done_update(self.results@, i as int, entries);
            lemma_num_done_bound(self.results@.update(i as int, Some(entries)));
        }
        self.results.set(i, Some(entries));
        self.completed = self.completed + 1;
    }

    /// One progress increment has been reported per completed package.
    pub fn progress(&self) -> (r: usize)
        ensures
            r == self.completed,
    {
        self.completed
    }

    /// The run is done when every discovered package has completed.
    pub fn is_done(&self) -> (r: bool)
        requires
            self.wf(),
        ensures
            r == (self.completed == self.names@.len()),
    {
        self.completed == self.names.len()
    }

    /// Hand out the per-package results, in submission order.
    pub fn into_results(self) -> (r: Vec<Vec<ListingEntry>>)
        requires
            self.wf(),
            self.completed == self.names@.len(),
        ensures
            r@.len() == self.names@.len(),
            forall|j: int| 0 <= j < r@.len() ==> #[trigger] r@[j] == self.results@[j]->Some_0,
    {
        proof {
            lemma_all_done(self.results@);
        }
        let mut results = self.results;
        let ghost orig = results@;
        let mut out: Vec<Vec<ListingEntry>> = Vec::new();
        while results.len() > 0
            invariant
                out@.len() + results@.len() == orig.len(),
                results@ =~= orig.skip(out@.len() as int),
                forall|j: int| 0 <= j < orig.len() ==> #[trigger] orig[j] is Some,
                forall|j: int| 0 <= j < out@.len() ==> #[trigger] out@[j] == orig[j]->Some_0,
            decreases results@.len(),
        {
            let ghost n = out@.len() as int;
            let slot = results.remove(0);
            proof {
                assert(orig.skip(n)[0] == orig[n]);
                assert(orig.skip(n).remove(0) =~= orig.skip(n + 1));
            }
            match slot {
                Some(entries) => {
                    out.push(entries);
                },
                None => {
                    proof {
                        assert(false);
                    }
                },
            }
        }
        out
    }
}

} // verus!
