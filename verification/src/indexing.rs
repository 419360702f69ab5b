//! Which open document's text index is being built.
//!
//! Only one indexing chain runs at a time: several open tabs each cycling
//! their own chain would interleave page extractions onto the one engine
//! thread for no gain, since only the foreground document's index is ever
//! queried. The foreground document goes first, then the oldest request.
//! Each chain is numbered, so a job from a chain the scheduler has since
//! replaced recognizes itself as stale.

use crate::types::DocId;
use vstd::prelude::*;

verus! {

/// A running indexing chain: the document, and the chain's number.
#[derive(Clone, Copy, PartialEq, Eq, Structural, Debug)]
pub struct IndexChain {
    pub doc: DocId,
    pub chain: u64,
}

pub struct IndexScheduler {
    /// Documents with indexing left to do, oldest request first.
    pending: Vec<DocId>,
    active: Option<IndexChain>,
    /// How many chains have been started; the running one has this number.
    started: u64,
    /// The document in the foreground, if any.
    foreground: Option<DocId>,
}

/// The document the scheduler hands the indexer to next: the foreground one
/// when it waits, else the oldest request.
pub open spec fn next_pick(pending: Seq<DocId>, foreground: Option<DocId>) -> Option<DocId> {
    match foreground {
        Some(f) if pending.contains(f) => Some(f),
        _ => if pending.len() > 0 {
            Some(pending[0])
        } else {
            None
        },
    }
}

impl IndexScheduler {
    pub closed spec fn pending_view(&self) -> Seq<DocId> {
        self.pending@
    }

    pub closed spec fn active_view(&self) -> Option<IndexChain> {
        self.active
    }

    pub closed spec fn started_view(&self) -> u64 {
        self.started
    }

    pub closed spec fn foreground_view(&self) -> Option<DocId> {
        self.foreground
    }

    /// No document waits twice; the running chain is the latest one started
    /// and indexes a waiting document; and the indexer never idles while a
    /// document waits.
    pub open spec fn wf(&self) -> bool {
        &&& self.pending_view().no_duplicates()
        &&& (self.active_view() matches Some(c) ==> c.chain == self.started_view()
            && self.pending_view().contains(c.doc))
        &&& (self.pending_view().len() > 0 <==> self.active_view() is Some)
    }

    pub fn new() -> (r: Self)
        ensures
            r.wf(),
            r.pending_view().len() == 0,
            r.active_view() is None,
            r.started_view() == 0,
            r.foreground_view() is None,
    {
        IndexScheduler { pending: Vec::new(), active: None, started: 0, foreground: None }
    }

    pub fn foreground(&self) -> (r: Option<DocId>)
        ensures
            r == self.foreground_view(),
    {
        self.foreground
    }

    /// Whether a job of chain `chain` for `doc` is still the one to run. A
    /// chain is superseded when its document closes, finishes, or a tab
    /// switch hands the indexer to another document.
    pub fn is_current(&self, doc: DocId, chain: u64) -> (r: bool)
        ensures
            r == (self.active_view() == Some(IndexChain { doc, chain })),
    {
        match self.active {
            Some(c) => c.doc == doc && c.chain == chain,
            None => false,
        }
    }

    fn waiting(&self, doc: DocId) -> (r: bool)
        ensures
            r == self.pending_view().contains(doc),
    {
        let mut i: usize = 0;
        while i < self.pending.len()
            invariant
                i <= self.pending@.len(),
                forall|k: int| 0 <= k < i ==> self.pending@[k] != doc,
            decreases self.pending@.len() - i,
        {
            if self.pending[i] == doc {
                return true;
            }
            i = i + 1;
        }
        false
    }

    /// Starts the next chain if none is running, and returns it: the job to
    /// queue.
    fn pump(&mut self) -> (r: Option<IndexChain>)
        requires
            old(self).pending_view().no_duplicates(),
            old(self).active_view() matches Some(c) ==> c.chain == old(self).started_view()
                && old(self).pending_view().contains(c.doc),
            old(self).started_view() < u64::MAX,
        ensures
            final(self).wf(),
            final(self).pending_view() == old(self).pending_view(),
            final(self).foreground_view() == old(self).foreground_view(),
            old(self).active_view() is Some ==> r is None && final(self).active_view()
                == old(self).active_view() && final(self).started_view()
                == old(self).started_view(),
            old(self).active_view() is None ==> match next_pick(
                old(self).pending_view(),
                old(self).foreground_view(),
            ) {
                Some(d) => final(self).started_view() == old(self).started_view() + 1 && r == Some(
                    IndexChain { doc: d, chain: final(self).started_view() },
                ) && final(self).active_view() == r,
                None => r is None && final(self).active_view() is None
                    && final(self).started_view() == old(self).started_view(),
            },
    {
        if self.active.is_some() {
            return None;
        }
        let pick = match self.foreground {
            Some(f) => if self.waiting(f) {
                Some(f)
            } else if self.pending.len() > 0 {
                Some(self.pending[0])
            } else {
                None
            },
            None => if self.pending.len() > 0 {
                Some(self.pending[0])
            } else {
                None
            },
        };
        match pick {
            Some(doc) => {
                self.started = self.started + 1;
                let c = IndexChain { doc, chain: self.started };
                self.active = Some(c);
                Some(c)
            },
            None => None,
        }
    }

    /// Registers `doc` as wanting its text indexed, and starts it if the
    /// indexer is idle. A repeated request for a waiting document changes
    /// nothing.
    pub fn request(&mut self, doc: DocId) -> (r: Option<IndexChain>)
        requires
            old(self).wf(),
            old(self).started_view() < u64::MAX,
        ensures
            final(self).wf(),
            final(self).pending_view() == (if old(self).pending_view().contains(doc) {
                old(self).pending_view()
            } else {
                old(self).pending_view().push(doc)
            }),
            final(self).foreground_view() == old(self).foreground_view(),
            old(self).active_view() is Some ==> r is None && final(self).active_view()
                == old(self).active_view() && final(self).started_view()
                == old(self).started_view(),
            old(self).active_view() is None ==> final(self).started_view()
                == old(self).started_view() + 1 && r == Some(
                IndexChain { doc, chain: final(self).started_view() },
            ) && final(self).active_view() == r,
    {
        if !self.waiting(doc) {
            proof {
                assert forall|i: int, j: int|
                    0 <= i < j < self.pending@.push(doc).len() implies self.pending@.push(doc)[i]
                    != self.pending@.push(doc)[j] by {
                    if j == self.pending@.len() {
                        assert(self.pending@[i] != doc);
                    }
                }
            }
            self.pending.push(doc);
        }
        proof {
            match old(self).active_view() {
                Some(c) => {
                    let k = choose|k: int|
                        0 <= k < old(self).pending_view().len() && old(self).pending_view()[k]
                            == c.doc;
                    assert(self.pending@[k] == c.doc);
                },
                None => {
                    // nothing waited, so the request is the only candidate
                    assert(old(self).pending_view().len() == 0);
                    assert(self.pending@ =~= seq![doc]);
                    assert(self.pending@[0] == doc);
                },
            }
        }
        self.pump()
    }

    /// Retires the running chain if it is `doc`'s, and, when `done`, drops
    /// `doc` from the waiting documents: it is finished, truncated or gone.
    /// Then starts the next chain if the indexer is idle.
    pub fn end(&mut self, doc: DocId, done: bool) -> (r: Option<IndexChain>)
        requires
            old(self).wf(),
            old(self).started_view() < u64::MAX,
        ensures
            final(self).wf(),
            final(self).pending_view() == (if done {
                old(self).pending_view().filter(|d: DocId| d != doc)
            } else {
                old(self).pending_view()
            }),
            final(self).foreground_view() == old(self).foreground_view(),
            ({
                let mid = match old(self).active_view() {
                    Some(c) => if c.doc == doc {
                        None
                    } else {
                        Some(c)
                    },
                    None => None,
                };
                match mid {
                    Some(c) => r is None && final(self).active_view() == Some(c)
                        && final(self).started_view() == old(self).started_view(),
                    None => match next_pick(final(self).pending_view(), old(self).foreground_view()) {
                        Some(d) => final(self).started_view() == old(self).started_view() + 1
                            && r == Some(IndexChain { doc: d, chain: final(self).started_view() })
                            && final(self).active_view() == r,
                        None => r is None && final(self).active_view() is None
                            && final(self).started_view() == old(self).started_view(),
                    },
                }
            }),
    {
        match self.active {
            Some(c) => {
                if c.doc == doc {
                    self.active = None;
                }
            },
            None => {},
        }
        if done {
            let ghost before = self.pending@;
            let mut kept: Vec<DocId> = Vec::new();
            let mut i: usize = 0;
            while i < self.pending.len()
                invariant
                    i <= self.pending@.len(),
                    self.pending@ == before,
                    kept@ == before.take(i as int).filter(|d: DocId| d != doc),
                decreases self.pending@.len() - i,
            {
                proof {
                    reveal(Seq::filter);
                    assert(before.take(i + 1).drop_last() =~= before.take(i as int));
                }
                if self.pending[i] != doc {
                    kept.push(self.pending[i]);
                }
                i = i + 1;
            }
            proof {
                assert(before.take(i as int) =~= before);
                lemma_filter_keeps_distinct(before, doc);
                lemma_filter_removes(before, doc);
            }
            self.pending = kept;
        }
        self.pump()
    }

    /// Makes `doc` the foreground document. Returns whether that changed
    /// anything (re-activating the same tab does not), and the chain started
    /// when the new foreground document was waiting and not already being
    /// indexed: the indexer is handed to it at once.
    pub fn set_foreground(&mut self, doc: Option<DocId>) -> (r: (bool, Option<IndexChain>))
        requires
            old(self).wf(),
            old(self).started_view() < u64::MAX,
        ensures
            final(self).wf(),
            r.0 == (doc != old(self).foreground_view()),
            final(self).foreground_view() == doc,
            final(self).pending_view() == old(self).pending_view(),
            ({
                let hand_over = r.0 && (doc matches Some(d) && old(self).pending_view().contains(d)
                    && !(old(self).active_view() matches Some(c) && c.doc == d));
                if hand_over {
                    final(self).started_view() == old(self).started_view() + 1 && r.1 == Some(
                        IndexChain { doc: doc->0, chain: final(self).started_view() },
                    ) && final(self).active_view() == r.1
                } else {
                    r.1 is None && final(self).active_view() == old(self).active_view()
                        && final(self).started_view() == old(self).started_view()
                }
            }),
    {
        if doc == self.foreground {
            return (false, None);
        }
        self.foreground = doc;
        match doc {
            Some(d) => {
                let already = match self.active {
                    Some(c) => c.doc == d,
                    None => false,
                };
                if self.waiting(d) && !already {
                    self.active = None;
                    let started = self.pump();
                    return (true, started);
                }
                (true, None)
            },
            None => (true, None),
        }
    }

    /// What closing `doc` does to indexing: it leaves the foreground if it
    /// was there, and its chain and request are retired.
    pub fn close(&mut self, doc: DocId) -> (r: Option<IndexChain>)
        requires
            old(self).wf(),
            old(self).started_view() < u64::MAX,
        ensures
            final(self).wf(),
            !final(self).pending_view().contains(doc),
            final(self).pending_view() == old(self).pending_view().filter(|d: DocId| d != doc),
            final(self).foreground_view() == (if old(self).foreground_view() == Some(doc) {
                None
            } else {
                old(self).foreground_view()
            }),
            final(self).active_view() matches Some(c) ==> c.doc != doc,
            r is Some ==> final(self).active_view() == r,
    {
        if self.foreground == Some(doc) {
            self.foreground = None;
        }
        let r = self.end(doc, true);
        proof {
            lemma_filter_removes(old(self).pending_view(), doc);
        }
        r
    }
}

impl Default for IndexScheduler {
    fn default() -> (r: Self)
        ensures
            r.wf(),
            r.pending_view().len() == 0,
            r.active_view() is None,
            r.started_view() == 0,
            r.foreground_view() is None,
    {
        IndexScheduler::new()
    }
}

/// Once a newer chain has started, no job of an older chain is current any
/// more: chains are numbered in the order they start, and only the latest
/// one runs.
pub proof fn lemma_newer_chain_supersedes(s: IndexScheduler, t: IndexScheduler, c: IndexChain)
    requires
        s.wf(),
        t.wf(),
        s.active_view() == Some(c),
        t.started_view() > s.started_view(),
    ensures
        t.active_view() != Some(c),
{
}

proof fn lemma_filter_removes(s: Seq<DocId>, doc: DocId)
    ensures
        !s.filter(|d: DocId| d != doc).contains(doc),
        forall|x: DocId| x != doc && s.contains(x) ==> s.filter(|d: DocId| d != doc).contains(x),
        forall|x: DocId| s.filter(|d: DocId| d != doc).contains(x) ==> s.contains(x),
{
    broadcast use vstd::seq_lib::group_filter_ensures;

    let f = s.filter(|d: DocId| d != doc);
    if f.contains(doc) {
        let i = choose|i: int| 0 <= i < f.len() && f[i] == doc;
        assert((|d: DocId| d != doc)(f[i]));
    }
    assert forall|x: DocId| f.contains(x) implies s.contains(x) by {
        s.lemma_filter_contains_rev(|d: DocId| d != doc, x);
    }
    assert forall|x: DocId| x != doc && s.contains(x) implies f.contains(x) by {
        let i = choose|i: int| 0 <= i < s.len() && s[i] == x;
        s.lemma_filter_contains(|d: DocId| d != doc, i);
    }
}

proof fn lemma_filter_keeps_distinct(s: Seq<DocId>, doc: DocId)
    requires
        s.no_duplicates(),
    ensures
        s.filter(|d: DocId| d != doc).no_duplicates(),
    decreases s.len(),
{
    reveal(Seq::filter);
    if s.len() > 0 {
        let rest = s.drop_last();
        assert forall|i: int, j: int| 0 <= i < j < rest.len() implies rest[i] != rest[j] by {
            assert(rest[i] == s[i] && rest[j] == s[j]);
        }
        lemma_filter_keeps_distinct(rest, doc);
        let fr = rest.filter(|d: DocId| d != doc);
        if s.last() != doc {
            if fr.contains(s.last()) {
                rest.lemma_filter_contains_rev(|d: DocId| d != doc, s.last());
                let k = choose|k: int| 0 <= k < rest.len() && rest[k] == s.last();
                assert(s[k] == s[s.len() - 1]);
            }
            let f = fr.push(s.last());
            assert forall|i: int, j: int| 0 <= i < j < f.len() implies f[i] != f[j] by {
                if j == f.len() - 1 {
                    assert(f[i] == fr[i]);
                    assert(fr.contains(fr[i]));
                } else {
                    assert(f[i] == fr[i] && f[j] == fr[j]);
                }
            }
        }
    }
}

} // verus!
