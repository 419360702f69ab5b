//! The engine's job queue and its per-document generation registry.
//!
//! Jobs are ordered by (priority, submission sequence). Every job carries the
//! generation current when it was submitted; the worker skips render jobs
//! whose generation has since been bumped. Waiting for a job is the caller's:
//! this queue only decides which job comes next.

use crate::types::{priority_rank, DocId, JobMeta, Priority};
use std::collections::HashMap;
use vstd::prelude::*;

verus! {

/// `a` comes before `b`: more urgent, or as urgent and submitted earlier.
pub open spec fn job_before(a: (u8, u64), b: (u8, u64)) -> bool {
    a.0 < b.0 || (a.0 == b.0 && a.1 < b.1)
}

pub open spec fn job_key<T>(item: (u8, u64, JobMeta, T)) -> (u8, u64) {
    (item.0, item.1)
}

/// Waiting jobs, first to run first.
pub open spec fn queue_ordered<T>(items: Seq<(u8, u64, JobMeta, T)>) -> bool {
    forall|i: int, j: int| 0 <= i < j < items.len() ==> job_before(job_key(#[trigger] items[i]), job_key(#[trigger] items[j]))
}

pub struct PrioQueue<T> {
    /// (priority rank, sequence, meta, work), in the order they will run.
    items: Vec<(u8, u64, JobMeta, T)>,
    seq: u64,
    closed: bool,
}

impl<T> PrioQueue<T> {
    /// The waiting jobs as (priority rank, sequence, meta, work), in the order
    /// they will run.
    pub closed spec fn spec_items(&self) -> Seq<(u8, u64, JobMeta, T)> {
        self.items@
    }

    /// The sequence number the last accepted job got.
    pub closed spec fn spec_seq(&self) -> u64 {
        self.seq
    }

    pub closed spec fn spec_closed(&self) -> bool {
        self.closed
    }

    /// The jobs wait in the order they will run, and none has a sequence
    /// number beyond the last one given out.
    pub open spec fn wf(&self) -> bool {
        &&& queue_ordered(self.spec_items())
        &&& forall|i: int| 0 <= i < self.spec_items().len() ==> (#[trigger] self.spec_items()[i]).1 <= self.spec_seq()
    }

    pub fn new() -> (q: Self)
        ensures
            q.wf(),
            q.spec_items().len() == 0,
            q.spec_seq() == 0,
            !q.spec_closed(),
    {
        PrioQueue { items: Vec::new(), seq: 0, closed: false }
    }

    /// Queues `work` behind everything at least as urgent; a closed queue
    /// takes nothing.
    pub fn push(&mut self, prio: Priority, meta: JobMeta, work: T)
        requires
            old(self).wf(),
            !old(self).spec_closed() ==> old(self).spec_seq() < u64::MAX,
        ensures
            final(self).wf(),
            final(self).spec_closed() == old(self).spec_closed(),
            old(self).spec_closed() ==> final(self).spec_items() == old(self).spec_items() && final(self).spec_seq()
                == old(self).spec_seq(),
            !old(self).spec_closed() ==> {
                &&& final(self).spec_seq() == old(self).spec_seq() + 1
                &&& exists|p: int|
                    0 <= p <= old(self).spec_items().len() && final(self).spec_items() == old(self).spec_items().insert(
                        p,
                        (priority_rank(prio), final(self).spec_seq(), meta, work),
                    )
            },
    {
        if self.closed {
            return;
        }
        self.seq = self.seq + 1;
        let rank: u8 = match prio {
            Priority::VisiblePage => 0,
            Priority::VisibleTile => 1,
            Priority::HoverPreview => 2,
            Priority::AdjacentPage => 3,
            Priority::VisibleThumb => 4,
            Priority::NearThumb => 5,
            Priority::TextExtract => 6,
            Priority::Prefetch => 7,
            Priority::Idle => 8,
        };
        assert(rank == priority_rank(prio));
        let ghost before = self.items@;
        let mut p: usize = 0;
        while p < self.items.len() && self.items[p].0 <= rank
            invariant
                p <= self.items@.len(),
                self.items@ == before,
                forall|i: int| 0 <= i < p ==> (#[trigger] self.items@[i]).0 <= rank,
            decreases self.items@.len() - p,
        {
            p += 1;
        }
        let seq = self.seq;
        self.items.insert(p, (rank, seq, meta, work));
        proof {
            let after = self.items@;
            let item = (rank, seq, meta, work);
            assert(after == before.insert(p as int, item));
            assert forall|i: int, j: int| 0 <= i < j < after.len() implies job_before(
                job_key(#[trigger] after[i]),
                job_key(#[trigger] after[j]),
            ) by {
                if j < p {
                    assert(after[i] == before[i] && after[j] == before[j]);
                } else if j == p {
                    assert(after[i] == before[i]);
                    assert(before[i].1 < seq);
                } else if i < p {
                    assert(after[i] == before[i]);
                    assert(after[j] == before[j - 1]);
                    assert(job_before(job_key(before[i]), job_key(before[j - 1])));
                } else if i == p {
                    assert(after[j] == before[j - 1]);
                    assert(before[j - 1].0 > rank) by {
                        if p < before.len() {
                            assert(before[p as int].0 > rank);
                            assert(job_before(job_key(before[p as int]), job_key(before[j - 1])) || j - 1 == p);
                        }
                    }
                } else {
                    assert(after[i] == before[i - 1]);
                    assert(after[j] == before[j - 1]);
                    assert(job_before(job_key(before[i - 1]), job_key(before[j - 1])));
                }
            }
            assert forall|i: int| 0 <= i < after.len() implies (#[trigger] after[i]).1 <= seq by {
                if i < p {
                    assert(after[i] == before[i]);
                } else if i > p {
                    assert(after[i] == before[i - 1]);
                }
            }
            assert(self.spec_items() == old(self).spec_items().insert(p as int, (priority_rank(prio), self.spec_seq(), meta, work)));
        }
    }

    /// The next job to run, taken off the queue: the most urgent, and among
    /// those the first submitted.
    pub fn pop(&mut self) -> (r: Option<(JobMeta, T)>)
        requires
            old(self).wf(),
        ensures
            final(self).wf(),
            final(self).spec_seq() == old(self).spec_seq(),
            final(self).spec_closed() == old(self).spec_closed(),
            match r {
                Some((meta, work)) => {
                    &&& old(self).spec_items().len() > 0
                    &&& (meta, work) == (old(self).spec_items()[0].2, old(self).spec_items()[0].3)
                    &&& final(self).spec_items() == old(self).spec_items().drop_first()
                },
                None => old(self).spec_items().len() == 0 && final(self).spec_items() == old(self).spec_items(),
            },
    {
        if self.items.len() == 0 {
            return None;
        }
        let (_, _, meta, work) = self.items.remove(0);
        proof {
            assert forall|i: int, j: int| 0 <= i < j < self.items@.len() implies job_before(
                job_key(#[trigger] self.items@[i]),
                job_key(#[trigger] self.items@[j]),
            ) by {
                assert(job_before(job_key(old(self).items@[i + 1]), job_key(old(self).items@[j + 1])));
            }
            assert forall|i: int| 0 <= i < self.items@.len() implies (#[trigger] self.items@[i]).1 <= self.seq by {
                assert(self.items@[i] == old(self).items@[i + 1]);
            }
        }
        Some((meta, work))
    }

    pub fn len(&self) -> (r: usize)
        ensures
            r == self.spec_items().len(),
    {
        self.items.len()
    }

    pub fn is_empty(&self) -> (r: bool)
        ensures
            r == (self.spec_items().len() == 0),
    {
        self.items.len() == 0
    }

    /// Stops the queue taking work; what is queued can still be taken.
    pub fn close(&mut self)
        requires
            old(self).wf(),
        ensures
            final(self).wf(),
            final(self).spec_closed(),
            final(self).spec_items() == old(self).spec_items(),
            final(self).spec_seq() == old(self).spec_seq(),
    {
        self.closed = true;
    }

    pub fn is_closed(&self) -> (r: bool)
        ensures
            r == self.spec_closed(),
    {
        self.closed
    }
}

/// Each document's render generation. Bumping one document's leaves every
/// other document's alone.
pub struct GenerationMap {
    gens: HashMap<DocId, u64>,
}

impl GenerationMap {
    /// The generation `doc` is at: what is recorded for it, or 0.
    pub closed spec fn spec_current(&self, doc: DocId) -> u64 {
        if self.gens@.contains_key(doc) {
            self.gens@[doc]
        } else {
            0
        }
    }

    pub fn new() -> (g: Self)
        ensures
            forall|doc: DocId| g.spec_current(doc) == 0,
    {
        GenerationMap { gens: HashMap::new() }
    }

    /// The generation `doc` is at now.
    pub fn current(&self, doc: DocId) -> (r: u64)
        ensures
            r == self.spec_current(doc),
    {
        match self.gens.get(&doc) {
            Some(g) => *g,
            None => 0,
        }
    }

    /// Moves `doc` on to its next generation, which makes every job
    /// submitted under an earlier one stale, and gives it.
    pub fn bump(&mut self, doc: DocId) -> (r: u64)
        requires
            old(self).spec_current(doc) < u64::MAX,
        ensures
            r == old(self).spec_current(doc) + 1,
            final(self).spec_current(doc) == r,
            forall|other: DocId| other != doc ==> final(self).spec_current(other) == old(self).spec_current(other),
    {
        let next = self.current(doc) + 1;
        self.gens.insert(doc, next);
        next
    }

    /// Whether a job was submitted under a generation its document has since
    /// left behind.
    pub fn is_stale(&self, meta: &JobMeta) -> (r: bool)
        ensures
            r == (meta.gen < self.spec_current(meta.doc)),
    {
        meta.gen < self.current(meta.doc)
    }
}

impl Default for GenerationMap {
    fn default() -> (g: Self)
        ensures
            forall|doc: DocId| g.spec_current(doc) == 0,
    {
        GenerationMap::new()
    }
}

/// The job that runs next is the most urgent one waiting, and among jobs of
/// the same urgency the one submitted first.
pub proof fn lemma_next_job_is_most_urgent<T>(q: &PrioQueue<T>)
    requires
        q.wf(),
        q.spec_items().len() > 0,
    ensures
        forall|i: int| 0 < i < q.spec_items().len() ==> {
            let first = q.spec_items()[0];
            let other = #[trigger] q.spec_items()[i];
            first.0 < other.0 || (first.0 == other.0 && first.1 < other.1)
        },
{
    assert forall|i: int| 0 < i < q.spec_items().len() implies job_before(
        job_key(q.spec_items()[0]),
        job_key(#[trigger] q.spec_items()[i]),
    ) by {}
}

/// A job submitted under a generation its document has since been bumped
/// past is stale; another document's bump leaves it fresh.
pub proof fn lemma_bump_makes_stale(before: &GenerationMap, after: &GenerationMap, doc: DocId, meta: JobMeta)
    requires
        after.spec_current(doc) == before.spec_current(doc) + 1,
        forall|other: DocId| other != doc ==> after.spec_current(other) == before.spec_current(other),
        meta.gen >= before.spec_current(meta.doc),
    ensures
        meta.doc == doc && meta.gen <= before.spec_current(doc) ==> meta.gen < after.spec_current(meta.doc),
        meta.doc != doc ==> !(meta.gen < after.spec_current(meta.doc)),
{
}

} // verus!
