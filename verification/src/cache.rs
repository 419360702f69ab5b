//! Byte-budgeted LRU cache. Costs are the encoded bytes actually retained.
//!
//! Eviction prefers entries flagged stale (wrong generation / closed document
//! / superseded scale) before falling back to least-recently-used order.
//!
//! Entries are kept in a vector, and the eviction order in a lazy log of
//! `(freshness, tick, key)` records: a record whose freshness and tick no
//! longer match its entry is simply skipped when it comes up. The log is
//! rebuilt from the live entries whenever it grows past a small multiple of
//! them.

use crate::types::RenderKey;
use std::sync::Arc;
use vstd::prelude::*;

verus! {

/// A key the cache can tell apart from another.
pub trait CacheKey: Copy + Sized {
    fn same(&self, other: &Self) -> (r: bool)
        ensures
            r == (*self == *other),
    ;
}

impl CacheKey for u32 {
    fn same(&self, other: &Self) -> (r: bool) {
        *self == *other
    }
}

impl CacheKey for u64 {
    fn same(&self, other: &Self) -> (r: bool) {
        *self == *other
    }
}

impl CacheKey for RenderKey {
    fn same(&self, other: &Self) -> (r: bool) {
        *self == *other
    }
}

/// One cached value with its bookkeeping.
#[derive(Clone)]
pub struct CacheEntry {
    pub bytes: Arc<Vec<u8>>,
    pub cost: u64,
    /// tick of the last insert or hit
    pub last_used: u64,
    /// believed unwanted: evicted before any fresh entry
    pub stale: bool,
}

/// The eviction rank of an entry: stale entries rank below fresh ones, and
/// within each class the least recently used ranks lowest. The lowest rank
/// goes first.
pub open spec fn rank(e: CacheEntry) -> int {
    (if e.stale {
        0int
    } else {
        1int
    }) * 0x1_0000_0000_0000_0000int + e.last_used as int
}

pub open spec fn freshness(e: CacheEntry) -> u8 {
    if e.stale {
        0u8
    } else {
        1u8
    }
}

pub open spec fn record_rank(f: u8, t: u64) -> int {
    f as int * 0x1_0000_0000_0000_0000int + t as int
}

/// Total cost of a run of entries.
pub open spec fn total<K>(s: Seq<(K, CacheEntry)>) -> int
    decreases s.len(),
{
    if s.len() == 0 {
        0
    } else {
        total(s.drop_last()) + s.last().1.cost
    }
}

/// Total cost of the entries of rank at least `r`.
pub open spec fn load_from<K>(s: Seq<(K, CacheEntry)>, r: int) -> int
    decreases s.len(),
{
    if s.len() == 0 {
        0
    } else {
        load_from(s.drop_last(), r) + (if rank(s.last().1) >= r {
            s.last().1.cost as int
        } else {
            0
        })
    }
}

pub open spec fn has_key<K>(s: Seq<(K, CacheEntry)>, k: K) -> bool {
    exists|i: int| 0 <= i < s.len() && s[i].0 == k
}

pub open spec fn map_of<K>(s: Seq<(K, CacheEntry)>) -> Map<K, CacheEntry> {
    Map::new(
        |k: K| has_key(s, k),
        |k: K| s[choose|i: int| 0 <= i < s.len() && s[i].0 == k].1,
    )
}

pub open spec fn distinct_keys<K>(s: Seq<(K, CacheEntry)>) -> bool {
    forall|i: int, j: int| 0 <= i < s.len() && 0 <= j < s.len() && i != j ==> s[i].0 != s[j].0
}

/// `s` without the entry for `k`, if it has one.
pub open spec fn without<K>(s: Seq<(K, CacheEntry)>, k: K) -> Seq<(K, CacheEntry)> {
    if has_key(s, k) {
        s.remove(choose|i: int| 0 <= i < s.len() && s[i].0 == k)
    } else {
        s
    }
}

/// `after` is what evicting towards `target` leaves of `before`: a set of
/// lowest-ranked entries is gone, every one of them had to go (what stood at
/// or above its rank still exceeded the target), and what is left fits or is
/// nothing.
pub open spec fn evicted_towards<K>(
    before: Seq<(K, CacheEntry)>,
    after: Map<K, CacheEntry>,
    target: int,
) -> bool {
    let b = map_of(before);
    &&& after <= b
    &&& forall|e: K, s: K|
        #![trigger b.contains_key(e), after.contains_key(s)]
        b.contains_key(e) && !after.contains_key(e) && after.contains_key(s) ==> rank(b[e]) < rank(
            b[s],
        )
    &&& forall|e: K|
        #![trigger b.contains_key(e)]
        b.contains_key(e) && !after.contains_key(e) ==> load_from(before, rank(b[e])) > target
}

proof fn lemma_total_nonneg<K>(s: Seq<(K, CacheEntry)>)
    ensures
        total(s) >= 0,
    decreases s.len(),
{
    if s.len() > 0 {
        lemma_total_nonneg(s.drop_last());
    }
}

proof fn lemma_total_remove<K>(s: Seq<(K, CacheEntry)>, i: int)
    requires
        0 <= i < s.len(),
    ensures
        total(s.remove(i)) == total(s) - s[i].1.cost,
        forall|r: int|
            #![trigger load_from(s.remove(i), r)]
            load_from(s.remove(i), r) == load_from(s, r) - (if rank(s[i].1) >= r {
                s[i].1.cost as int
            } else {
                0
            }),
    decreases s.len(),
{
    if i == s.len() - 1 {
        assert(s.remove(i) =~= s.drop_last());
    } else {
        lemma_total_remove(s.drop_last(), i);
        assert(s.remove(i).drop_last() =~= s.drop_last().remove(i));
        assert(s.remove(i).last() == s.last());
        assert forall|r: int|
            #![trigger load_from(s.remove(i), r)]
            load_from(s.remove(i), r) == load_from(s, r) - (if rank(s[i].1) >= r {
                s[i].1.cost as int
            } else {
                0
            }) by {
            assert(load_from(s.drop_last().remove(i), r) == load_from(s.drop_last(), r) - (if rank(
                s.drop_last()[i].1,
            ) >= r {
                s.drop_last()[i].1.cost as int
            } else {
                0
            }));
        }
    }
}

proof fn lemma_total_push<K>(s: Seq<(K, CacheEntry)>, x: (K, CacheEntry))
    ensures
        total(s.push(x)) == total(s) + x.1.cost,
{
    assert(s.push(x).drop_last() =~= s);
}

proof fn lemma_total_update<K>(s: Seq<(K, CacheEntry)>, i: int, x: (K, CacheEntry))
    requires
        0 <= i < s.len(),
        x.1.cost == s[i].1.cost,
    ensures
        total(s.update(i, x)) == total(s),
    decreases s.len(),
{
    if i == s.len() - 1 {
        assert(s.update(i, x).drop_last() =~= s.drop_last());
    } else {
        lemma_total_update(s.drop_last(), i, x);
        assert(s.update(i, x).drop_last() =~= s.drop_last().update(i, x));
    }
}

proof fn lemma_load_all<K>(s: Seq<(K, CacheEntry)>, r: int)
    requires
        forall|j: int| 0 <= j < s.len() ==> rank(#[trigger] s[j].1) >= r,
    ensures
        load_from(s, r) == total(s),
    decreases s.len(),
{
    if s.len() > 0 {
        lemma_load_all(s.drop_last(), r);
    }
}

proof fn lemma_map_index<K>(s: Seq<(K, CacheEntry)>, i: int)
    requires
        distinct_keys(s),
        0 <= i < s.len(),
    ensures
        map_of(s).contains_key(s[i].0),
        map_of(s)[s[i].0] == s[i].1,
{
    let k = s[i].0;
    assert(has_key(s, k));
    let j = choose|j: int| 0 <= j < s.len() && s[j].0 == k;
    assert(j == i);
}

proof fn lemma_map_update<K>(s: Seq<(K, CacheEntry)>, i: int, e: CacheEntry)
    requires
        distinct_keys(s),
        0 <= i < s.len(),
    ensures
        distinct_keys(s.update(i, (s[i].0, e))),
        map_of(s.update(i, (s[i].0, e))) == map_of(s).insert(s[i].0, e),
{
    let t = s.update(i, (s[i].0, e));
    let k = s[i].0;
    assert forall|a: int, b: int| 0 <= a < t.len() && 0 <= b < t.len() && a != b implies t[a].0
        != t[b].0 by {
        assert(t[a].0 == s[a].0);
        assert(t[b].0 == s[b].0);
    }
    assert forall|q: K| #[trigger] map_of(t).contains_key(q) == map_of(s).insert(
        k,
        e,
    ).contains_key(q) by {
        if has_key(s, q) {
            let j = choose|j: int| 0 <= j < s.len() && s[j].0 == q;
            assert(t[j].0 == q);
        }
        if has_key(t, q) {
            let j = choose|j: int| 0 <= j < t.len() && t[j].0 == q;
            assert(s[j].0 == q);
        }
    }
    assert forall|q: K| #[trigger] map_of(t).contains_key(q) implies map_of(t)[q] == map_of(
        s,
    ).insert(k, e)[q] by {
        let j = choose|j: int| 0 <= j < t.len() && t[j].0 == q;
        if q == k {
            assert(j == i);
        } else {
            assert(j != i);
            assert(s[j].0 == q);
            lemma_map_index(s, j);
        }
    }
    assert(map_of(t) =~= map_of(s).insert(k, e));
}

proof fn lemma_map_remove<K>(s: Seq<(K, CacheEntry)>, i: int)
    requires
        distinct_keys(s),
        0 <= i < s.len(),
    ensures
        distinct_keys(s.remove(i)),
        map_of(s.remove(i)) == map_of(s).remove(s[i].0),
        without(s, s[i].0) == s.remove(i),
{
    let t = s.remove(i);
    let k = s[i].0;
    assert forall|a: int, b: int| 0 <= a < t.len() && 0 <= b < t.len() && a != b implies t[a].0
        != t[b].0 by {
        let a2 = if a < i {
            a
        } else {
            a + 1
        };
        let b2 = if b < i {
            b
        } else {
            b + 1
        };
        assert(t[a] == s[a2]);
        assert(t[b] == s[b2]);
    }
    assert forall|q: K| #[trigger] map_of(t).contains_key(q) == map_of(s).remove(k).contains_key(
        q,
    ) by {
        if has_key(s, q) && q != k {
            let j = choose|j: int| 0 <= j < s.len() && s[j].0 == q;
            assert(j != i);
            let j2 = if j < i {
                j
            } else {
                j - 1
            };
            assert(t[j2] == s[j]);
        }
        if has_key(t, q) {
            let j = choose|j: int| 0 <= j < t.len() && t[j].0 == q;
            let j2 = if j < i {
                j
            } else {
                j + 1
            };
            assert(t[j] == s[j2]);
            assert(j2 != i);
        }
    }
    assert forall|q: K| #[trigger] map_of(t).contains_key(q) implies map_of(t)[q] == map_of(
        s,
    ).remove(k)[q] by {
        let j = choose|j: int| 0 <= j < t.len() && t[j].0 == q;
        let j2 = if j < i {
            j
        } else {
            j + 1
        };
        assert(t[j] == s[j2]);
        lemma_map_index(s, j2);
    }
    assert(map_of(t) =~= map_of(s).remove(k));
    assert(has_key(s, k));
    let c = choose|j: int| 0 <= j < s.len() && s[j].0 == k;
    assert(c == i);
}

proof fn lemma_map_push<K>(s: Seq<(K, CacheEntry)>, k: K, e: CacheEntry)
    requires
        distinct_keys(s),
        !has_key(s, k),
    ensures
        distinct_keys(s.push((k, e))),
        map_of(s.push((k, e))) == map_of(s).insert(k, e),
{
    let t = s.push((k, e));
    assert forall|a: int, b: int| 0 <= a < t.len() && 0 <= b < t.len() && a != b implies t[a].0
        != t[b].0 by {
        if a < s.len() && b < s.len() {
            assert(t[a] == s[a] && t[b] == s[b]);
        } else if a < s.len() {
            assert(t[a] == s[a]);
        } else {
            assert(t[b] == s[b]);
        }
    }
    assert forall|q: K| #[trigger] map_of(t).contains_key(q) == map_of(s).insert(
        k,
        e,
    ).contains_key(q) by {
        if has_key(s, q) {
            let j = choose|j: int| 0 <= j < s.len() && s[j].0 == q;
            assert(t[j] == s[j]);
        }
        if q == k {
            assert(t[s.len() as int].0 == k);
        }
        if has_key(t, q) && q != k {
            let j = choose|j: int| 0 <= j < t.len() && t[j].0 == q;
            assert(j < s.len());
            assert(t[j] == s[j]);
        }
    }
    assert forall|q: K| #[trigger] map_of(t).contains_key(q) implies map_of(t)[q] == map_of(
        s,
    ).insert(k, e)[q] by {
        let j = choose|j: int| 0 <= j < t.len() && t[j].0 == q;
        if q == k {
            if j < s.len() {
                assert(t[j] == s[j]);
            }
            assert(j == s.len());
        } else {
            assert(j < s.len());
            assert(t[j] == s[j]);
            lemma_map_index(s, j);
        }
    }
    assert(map_of(t) =~= map_of(s).insert(k, e));
}

/// The log record an entry needs: its freshness, tick and key.
pub open spec fn record_of<K>(x: (K, CacheEntry)) -> (u8, u64, K) {
    (freshness(x.1), x.1.last_used, x.0)
}

pub open spec fn logged_in<K>(order: Seq<(u8, u64, K)>, x: (K, CacheEntry)) -> bool {
    exists|w: int| 0 <= w < order.len() && #[trigger] order[w] == record_of(x)
}

/// Per-entry bookkeeping: distinct keys, distinct ticks no later than the
/// clock, and a log record for every entry.
pub open spec fn entries_ok<K>(s: Seq<(K, CacheEntry)>, order: Seq<(u8, u64, K)>, tick: u64) -> bool {
    &&& distinct_keys(s)
    &&& forall|i: int| 0 <= i < s.len() ==> (#[trigger] s[i]).1.last_used <= tick
    &&& forall|i: int, j: int|
        0 <= i < s.len() && 0 <= j < s.len() && i != j ==> s[i].1.last_used != s[j].1.last_used
    &&& forall|i: int| 0 <= i < s.len() ==> logged_in(order, #[trigger] s[i])
}

proof fn lemma_entries_ok_remove<K>(
    s: Seq<(K, CacheEntry)>,
    order: Seq<(u8, u64, K)>,
    tick: u64,
    i: int,
)
    requires
        entries_ok(s, order, tick),
        0 <= i < s.len(),
    ensures
        entries_ok(s.remove(i), order, tick),
{
    let t = s.remove(i);
    lemma_map_remove(s, i);
    assert forall|a: int| 0 <= a < t.len() implies (#[trigger] t[a]).1.last_used <= tick
        && logged_in(order, t[a]) by {
        let a2 = if a < i {
            a
        } else {
            a + 1
        };
        assert(t[a] == s[a2]);
    }
    assert forall|a: int, b: int| 0 <= a < t.len() && 0 <= b < t.len() && a != b implies t[a].1.last_used
        != t[b].1.last_used by {
        let a2 = if a < i {
            a
        } else {
            a + 1
        };
        let b2 = if b < i {
            b
        } else {
            b + 1
        };
        assert(t[a] == s[a2]);
        assert(t[b] == s[b2]);
    }
}

proof fn lemma_logged_remove<K>(order: Seq<(u8, u64, K)>, m: int, x: (K, CacheEntry))
    requires
        0 <= m < order.len(),
        logged_in(order, x),
        order[m] != record_of(x),
    ensures
        logged_in(order.remove(m), x),
{
    let w = choose|w: int| 0 <= w < order.len() && #[trigger] order[w] == record_of(x);
    let w2 = if w < m {
        w
    } else {
        w - 1
    };
    assert(order.remove(m)[w2] == order[w]);
}

proof fn lemma_logged_push<K>(order: Seq<(u8, u64, K)>, r: (u8, u64, K), x: (K, CacheEntry))
    requires
        logged_in(order, x),
    ensures
        logged_in(order.push(r), x),
{
    let w = choose|w: int| 0 <= w < order.len() && #[trigger] order[w] == record_of(x);
    assert(order.push(r)[w] == order[w]);
}

pub struct ByteLru<K> {
    entries: Vec<(K, CacheEntry)>,
    order: Vec<(u8, u64, K)>,
    budget: u64,
    used: u64,
    tick: u64,
    pub hits: u64,
    pub lookups: u64,
}

impl<K: CacheKey> View for ByteLru<K> {
    type V = Map<K, CacheEntry>;

    closed spec fn view(&self) -> Map<K, CacheEntry> {
        map_of(self.entries@)
    }
}

impl<K: CacheKey> ByteLru<K> {
    pub closed spec fn spec_budget(&self) -> u64 {
        self.budget
    }

    pub closed spec fn spec_used(&self) -> u64 {
        self.used
    }

    pub closed spec fn spec_hits(&self) -> u64 {
        self.hits
    }

    pub closed spec fn spec_lookups(&self) -> u64 {
        self.lookups
    }

    /// The logical clock: bumped by every insert and every lookup.
    pub closed spec fn clock(&self) -> u64 {
        self.tick
    }

    /// The live entries, in storage order.
    pub closed spec fn entries(&self) -> Seq<(K, CacheEntry)> {
        self.entries@
    }

    /// Number of records in the eviction log.
    pub closed spec fn log_len(&self) -> nat {
        self.order@.len()
    }

    /// Everything but the budget bound.
    closed spec fn inv(&self) -> bool {
        &&& entries_ok(self.entries@, self.order@, self.tick)
        &&& self.used == total(self.entries@)
        &&& self.hits <= self.lookups <= self.tick
    }

    /// The cache's invariant: its bookkeeping is consistent and what it
    /// holds fits its budget.
    pub closed spec fn wf(&self) -> bool {
        &&& self.inv()
        &&& self.used <= self.budget
    }

    /// What the view and the cost are made of.
    pub proof fn lemma_view_entries(&self)
        requires
            self.wf(),
        ensures
            self@ == map_of(self.entries()),
            self.spec_used() == total(self.entries()),
            self.spec_used() <= self.spec_budget(),
            distinct_keys(self.entries()),
            self@.dom().finite(),
            self@.len() == self.entries().len(),
    {
        lemma_dom_len(self.entries@);
    }

    pub fn new(budget: u64) -> (c: Self)
        ensures
            c.wf(),
            c@ == Map::<K, CacheEntry>::empty(),
            c.entries().len() == 0,
            c.spec_budget() == budget,
            c.spec_used() == 0,
            c.clock() == 0,
            c.log_len() == 0,
            c.spec_hits() == 0,
            c.spec_lookups() == 0,
    {
        let c = ByteLru {
            entries: Vec::new(),
            order: Vec::new(),
            budget,
            used: 0,
            tick: 0,
            hits: 0,
            lookups: 0,
        };
        assert(c@ =~= Map::<K, CacheEntry>::empty());
        c
    }

    pub fn budget(&self) -> (b: u64)
        ensures
            b == self.spec_budget(),
    {
        self.budget
    }

    pub fn used(&self) -> (u: u64)
        ensures
            u == self.spec_used(),
    {
        self.used
    }

    pub fn len(&self) -> (n: usize)
        requires
            self.wf(),
        ensures
            n == self@.len(),
    {
        proof {
            lemma_dom_len(self.entries@);
        }
        self.entries.len()
    }

    pub fn is_empty(&self) -> (b: bool)
        requires
            self.wf(),
        ensures
            b == (self@.len() == 0),
    {
        proof {
            lemma_dom_len(self.entries@);
        }
        self.entries.len() == 0
    }

    /// Number of records in the eviction log.
    pub fn order_len(&self) -> (n: usize)
        ensures
            n == self.log_len(),
    {
        self.order.len()
    }

    fn find(&self, key: &K) -> (r: Option<usize>)
        ensures
            match r {
                Some(i) => i < self.entries@.len() && self.entries@[i as int].0 == *key,
                None => !has_key(self.entries@, *key),
            },
    {
        let mut i: usize = 0;
        while i < self.entries.len()
            invariant
                i <= self.entries@.len(),
                forall|j: int| 0 <= j < i ==> self.entries@[j].0 != *key,
            decreases self.entries@.len() - i,
        {
            if self.entries[i].0.same(key) {
                return Some(i);
            }
            i += 1;
        }
        None
    }

    /// Look up an entry, refreshing its recency on hit.
    ///
    /// A hit also clears the stale flag: staleness marks entries *believed*
    /// unwanted, and a live request is proof otherwise.
    pub fn get(&mut self, key: &K) -> (r: Option<Arc<Vec<u8>>>)
        requires
            old(self).wf(),
            old(self).clock() < u64::MAX,
        ensures
            final(self).wf(),
            final(self).clock() == old(self).clock() + 1,
            final(self).spec_lookups() == old(self).spec_lookups() + 1,
            final(self).spec_budget() == old(self).spec_budget(),
            final(self).spec_used() == old(self).spec_used(),
            match r {
                Some(bytes) => {
                    &&& old(self)@.contains_key(*key)
                    &&& bytes == old(self)@[*key].bytes
                    &&& final(self).spec_hits() == old(self).spec_hits() + 1
                    &&& final(self)@ == old(self)@.insert(
                        *key,
                        (CacheEntry {
                            last_used: final(self).clock(),
                            stale: false,
                            ..old(self)@[*key]
                        }),
                    )
                },
                None => {
                    &&& !old(self)@.contains_key(*key)
                    &&& final(self).spec_hits() == old(self).spec_hits()
                    &&& final(self)@ == old(self)@
                },
            },
    {
        self.lookups = self.lookups + 1;
        self.tick = self.tick + 1;
        let tick = self.tick;
        match self.find(key) {
            Some(i) => {
                let ghost before = self.entries@;
                let ghost log = self.order@;
                let k = self.entries[i].0;
                let bytes = Arc::clone(&self.entries[i].1.bytes);
                let e2 = CacheEntry {
                    bytes: Arc::clone(&self.entries[i].1.bytes),
                    cost: self.entries[i].1.cost,
                    last_used: tick,
                    stale: false,
                };
                self.entries.set(i, (k, e2));
                self.hits = self.hits + 1;
                self.order.push((1u8, tick, k));
                proof {
                    let s = self.entries@;
                    lemma_map_update(before, i as int, e2);
                    lemma_map_index(before, i as int);
                    lemma_total_update(before, i as int, (k, e2));
                    assert(s == before.update(i as int, (k, e2)));
                    assert(self.order@[self.order@.len() - 1] == record_of(s[i as int]));
                    assert forall|j: int| 0 <= j < s.len() implies logged_in(
                        self.order@,
                        #[trigger] s[j],
                    ) by {
                        if j != i {
                            assert(s[j] == before[j]);
                            assert(logged_in(log, before[j]));
                            lemma_logged_push(log, (1u8, tick, k), before[j]);
                        }
                    }
                    assert forall|a: int, b: int|
                        0 <= a < s.len() && 0 <= b < s.len() && a != b implies s[a].1.last_used
                        != s[b].1.last_used by {
                        if a != i {
                            assert(s[a] == before[a]);
                        }
                        if b != i {
                            assert(s[b] == before[b]);
                        }
                    }
                    assert forall|a: int| 0 <= a < s.len() implies (#[trigger] s[a]).1.last_used
                        <= self.tick by {
                        if a != i {
                            assert(s[a] == before[a]);
                        }
                    }
                }
                self.compact_order_if_needed();
                Some(bytes)
            },
            None => { None },
        }
    }

    /// Insert an entry with an explicit cost, evicting as needed. Entries
    /// larger than the whole budget are not retained.
    pub fn insert(&mut self, key: K, bytes: Arc<Vec<u8>>, cost: u64)
        requires
            old(self).wf(),
            old(self).clock() < u64::MAX,
        ensures
            final(self).wf(),
            final(self).spec_budget() == old(self).spec_budget(),
            final(self).spec_hits() == old(self).spec_hits(),
            final(self).spec_lookups() == old(self).spec_lookups(),
            cost > old(self).spec_budget() ==> {
                &&& final(self)@ == old(self)@
                &&& final(self).spec_used() == old(self).spec_used()
                &&& final(self).clock() == old(self).clock()
            },
            cost <= old(self).spec_budget() ==> {
                &&& final(self).clock() == old(self).clock() + 1
                &&& final(self)@.contains_key(key)
                &&& final(self)@[key] == (CacheEntry {
                    bytes,
                    cost,
                    last_used: final(self).clock(),
                    stale: false,
                })
                &&& evicted_towards(
                    without(old(self).entries(), key),
                    final(self)@.remove(key),
                    old(self).spec_budget() - cost,
                )
            },
    {
        if cost > self.budget {
            return;
        }
        let ghost s0 = self.entries@;
        match self.find(&key) {
            Some(i) => {
                proof {
                    lemma_total_remove(s0, i as int);
                    lemma_entries_ok_remove(s0, self.order@, self.tick, i as int);
                    lemma_map_remove(s0, i as int);
                    lemma_total_nonneg(s0.remove(i as int));
                }
                let (_, old_entry) = self.entries.remove(i);
                self.used = self.used - old_entry.cost;
            },
            None => {
                assert(without(s0, key) == s0);
            },
        }
        assert(self.entries@ == without(s0, key));
        self.evict_to(self.budget - cost);
        let ghost s1 = self.entries@;
        let ghost log1 = self.order@;
        proof {
            lemma_dom_len(s1);
            if self.used > self.budget - cost {
                assert(s1.len() == 0);
            }
            assert(!has_key(s1, key)) by {
                if has_key(s1, key) {
                    let j = choose|j: int| 0 <= j < s1.len() && s1[j].0 == key;
                    lemma_map_index(s1, j);
                    assert(map_of(without(s0, key)).contains_key(key));
                    let c = choose|c: int|
                        0 <= c < without(s0, key).len() && without(s0, key)[c].0 == key;
                    if has_key(s0, key) {
                        let d = choose|d: int| 0 <= d < s0.len() && s0[d].0 == key;
                        lemma_map_remove(s0, d);
                    }
                }
            }
        }
        self.tick = self.tick + 1;
        let e = CacheEntry { bytes, cost, last_used: self.tick, stale: false };
        self.entries.push((key, e));
        self.order.push((1u8, self.tick, key));
        self.used = self.used + cost;
        proof {
            let s = self.entries@;
            lemma_map_push(s1, key, e);
            lemma_total_push(s1, (key, e));
            assert(s == s1.push((key, e)));
            assert(self.order@[self.order@.len() - 1] == record_of(s[s.len() - 1]));
            assert forall|j: int| 0 <= j < s.len() implies logged_in(self.order@, #[trigger] s[j])
                && s[j].1.last_used <= self.tick by {
                if j < s1.len() {
                    assert(s[j] == s1[j]);
                    lemma_logged_push(log1, (1u8, self.tick, key), s1[j]);
                }
            }
            assert forall|a: int, b: int|
                0 <= a < s.len() && 0 <= b < s.len() && a != b implies s[a].1.last_used
                != s[b].1.last_used by {
                if a < s1.len() {
                    assert(s[a] == s1[a]);
                }
                if b < s1.len() {
                    assert(s[b] == s1[b]);
                }
            }
            assert(map_of(s1).insert(key, e).remove(key) =~= map_of(s1));
        }
        self.compact_order_if_needed();
    }

    /// Change the budget at runtime (e.g. low-memory mode), evicting to fit.
    pub fn set_budget(&mut self, budget: u64)
        requires
            old(self).wf(),
        ensures
            final(self).wf(),
            final(self).spec_budget() == budget,
            final(self).clock() == old(self).clock(),
            final(self).spec_hits() == old(self).spec_hits(),
            final(self).spec_lookups() == old(self).spec_lookups(),
            evicted_towards(old(self).entries(), final(self)@, budget as int),
    {
        self.budget = budget;
        self.evict_to(budget);
        proof {
            lemma_dom_len(self.entries@);
        }
    }

    /// Flag matching entries as stale so they are evicted first. Entries that
    /// are already stale are skipped, so repeated marking adds no records.
    pub fn mark_stale<F: Fn(&K) -> bool>(&mut self, pred: F)
        requires
            old(self).wf(),
            forall|k: &K| #[trigger] pred.requires((k,)),
        ensures
            final(self).wf(),
            final(self).spec_budget() == old(self).spec_budget(),
            final(self).spec_used() == old(self).spec_used(),
            final(self).clock() == old(self).clock(),
            final(self).spec_hits() == old(self).spec_hits(),
            final(self).spec_lookups() == old(self).spec_lookups(),
            final(self)@.dom() == old(self)@.dom(),
            forall|k: K|
                #![trigger final(self)@[k]]
                old(self)@.contains_key(k) ==> {
                    &&& final(self)@[k] == (CacheEntry { stale: final(self)@[k].stale, ..old(self)@[k] })
                    &&& old(self)@[k].stale ==> final(self)@[k].stale
                    &&& !old(self)@[k].stale && final(self)@[k].stale ==> pred.ensures((&k,), true)
                    &&& !old(self)@[k].stale && !final(self)@[k].stale ==> pred.ensures(
                        (&k,),
                        false,
                    )
                },
    {
        let ghost s0 = self.entries@;
        let mut i: usize = 0;
        while i < self.entries.len()
            invariant
                self.inv(),
                self.used <= self.budget,
                self.used == old(self).used,
                self.budget == old(self).budget,
                self.tick == old(self).tick,
                self.hits == old(self).spec_hits(),
                self.lookups == old(self).spec_lookups(),
                forall|k: &K| #[trigger] pred.requires((k,)),
                i <= self.entries@.len(),
                self.entries@.len() == s0.len(),
                forall|j: int|
                    #![trigger self.entries@[j]]
                    0 <= j < s0.len() ==> {
                        &&& self.entries@[j].0 == s0[j].0
                        &&& self.entries@[j].1 == (CacheEntry {
                            stale: self.entries@[j].1.stale,
                            ..s0[j].1
                        })
                        &&& s0[j].1.stale ==> self.entries@[j].1.stale
                        &&& j >= i ==> self.entries@[j] == s0[j]
                        &&& j < i && !s0[j].1.stale && self.entries@[j].1.stale ==> pred.ensures(
                            (&s0[j].0,),
                            true,
                        )
                        &&& j < i && !s0[j].1.stale && !self.entries@[j].1.stale ==> pred.ensures(
                            (&s0[j].0,),
                            false,
                        )
                    },
            decreases s0.len() - i,
        {
            if !self.entries[i].1.stale {
                let k = self.entries[i].0;
                let hit = pred(&k);
                if hit {
                    let ghost before = self.entries@;
                    let ghost log = self.order@;
                    let e2 = CacheEntry {
                        bytes: Arc::clone(&self.entries[i].1.bytes),
                        cost: self.entries[i].1.cost,
                        last_used: self.entries[i].1.last_used,
                        stale: true,
                    };
                    let lu = e2.last_used;
                    self.entries.set(i, (k, e2));
                    self.order.push((0u8, lu, k));
                    proof {
                        let s = self.entries@;
                        lemma_total_update(before, i as int, (k, e2));
                        lemma_map_update(before, i as int, e2);
                        assert(self.order@[self.order@.len() - 1] == record_of(s[i as int]));
                        assert forall|j: int| 0 <= j < s.len() implies logged_in(
                            self.order@,
                            #[trigger] s[j],
                        ) && s[j].1.last_used <= self.tick by {
                            if j != i {
                                assert(s[j] == before[j]);
                                lemma_logged_push(log, (0u8, lu, k), before[j]);
                            }
                        }
                        assert forall|a: int, b: int|
                            0 <= a < s.len() && 0 <= b < s.len() && a != b implies s[a].1.last_used
                            != s[b].1.last_used by {
                            assert(s[a].1.last_used == before[a].1.last_used);
                            assert(s[b].1.last_used == before[b].1.last_used);
                        }
                    }
                }
            }
            i += 1;
        }
        proof {
            let s = self.entries@;
            assert forall|k: K| #[trigger] map_of(s).contains_key(k) == map_of(s0).contains_key(k) by {
                if has_key(s, k) {
                    let j = choose|j: int| 0 <= j < s.len() && s[j].0 == k;
                    assert(s0[j].0 == k);
                }
                if has_key(s0, k) {
                    let j = choose|j: int| 0 <= j < s0.len() && s0[j].0 == k;
                    assert(s[j].0 == k);
                }
            }
            assert(map_of(s).dom() =~= map_of(s0).dom());
            assert forall|k: K| #[trigger] map_of(s0).contains_key(k) implies map_of(s)[k] == s[index_of_key(s0, k)].1
                && map_of(s0)[k] == s0[index_of_key(s0, k)].1 by {
                let j = index_of_key(s0, k);
                lemma_map_index(s0, j);
                assert(s[j].0 == k);
                lemma_map_index(s, j);
            }
        }
        self.compact_order_if_needed();
    }

    /// Drop matching entries immediately.
    pub fn remove_matching<F: Fn(&K) -> bool>(&mut self, pred: F)
        requires
            old(self).wf(),
            forall|k: &K| #[trigger] pred.requires((k,)),
        ensures
            final(self).wf(),
            final(self).spec_budget() == old(self).spec_budget(),
            final(self).clock() == old(self).clock(),
            final(self).spec_hits() == old(self).spec_hits(),
            final(self).spec_lookups() == old(self).spec_lookups(),
            final(self)@ <= old(self)@,
            forall|k: K|
                #![trigger old(self)@.contains_key(k)]
                old(self)@.contains_key(k) ==> {
                    &&& final(self)@.contains_key(k) ==> pred.ensures((&k,), false)
                    &&& !final(self)@.contains_key(k) ==> pred.ensures((&k,), true)
                },
    {
        let ghost s0 = self.entries@;
        let mut i: usize = 0;
        while i < self.entries.len()
            invariant
                self.inv(),
                self.used <= self.budget,
                self.budget == old(self).budget,
                self.tick == old(self).tick,
                self.hits == old(self).spec_hits(),
                self.lookups == old(self).spec_lookups(),
                self.order@ == old(self).order@,
                forall|k: &K| #[trigger] pred.requires((k,)),
                i <= self.entries@.len(),
                map_of(self.entries@) <= map_of(s0),
                forall|j: int| 0 <= j < i ==> pred.ensures((&(#[trigger] self.entries@[j]).0,), false),
                forall|k: K|
                    #![trigger map_of(s0).contains_key(k)]
                    map_of(s0).contains_key(k) && !map_of(self.entries@).contains_key(k)
                        ==> pred.ensures((&k,), true),
            decreases self.entries@.len() - i,
        {
            let k = self.entries[i].0;
            if pred(&k) {
                let ghost s = self.entries@;
                proof {
                    lemma_total_remove(s, i as int);
                    lemma_entries_ok_remove(s, self.order@, self.tick, i as int);
                    lemma_map_remove(s, i as int);
                    lemma_total_nonneg(s.remove(i as int));
                }
                let (_, e) = self.entries.remove(i);
                self.used = self.used - e.cost;
                proof {
                    let t = self.entries@;
                    assert forall|j: int| 0 <= j < i implies pred.ensures(
                        (&(#[trigger] t[j]).0,),
                        false,
                    ) by {
                        assert(t[j] == s[j]);
                    }
                }
            } else {
                i += 1;
            }
        }
        proof {
            let s = self.entries@;
            assert forall|k: K| #[trigger] old(self)@.contains_key(k) && map_of(s).contains_key(k)
                implies pred.ensures((&k,), false) by {
                let j = choose|j: int| 0 <= j < s.len() && s[j].0 == k;
            }
        }
    }

    /// Evict lowest-ranked entries until the cost fits `target`.
    fn evict_to(&mut self, target: u64)
        requires
            old(self).inv(),
        ensures
            final(self).inv(),
            evicted_towards(old(self).entries(), final(self)@, target as int),
            final(self).spec_used() <= target || final(self).entries().len() == 0,
            final(self).spec_budget() == old(self).spec_budget(),
            final(self).clock() == old(self).clock(),
            final(self).spec_hits() == old(self).spec_hits(),
            final(self).spec_lookups() == old(self).spec_lookups(),
    {
        let ghost before = self.entries@;
        let ghost mut last: int = -1;
        while self.used > target && self.entries.len() > 0 && self.order.len() > 0
            invariant
                self.inv(),
                self.budget == old(self).budget,
                self.tick == old(self).tick,
                self.hits == old(self).spec_hits(),
                self.lookups == old(self).spec_lookups(),
                distinct_keys(before),
                map_of(self.entries@) <= map_of(before),
                forall|j: int|
                    0 <= j < self.entries@.len() ==> rank((#[trigger] self.entries@[j]).1) > last,
                forall|r: int| r > last ==> #[trigger] load_from(self.entries@, r) == load_from(before, r),
                forall|e: K|
                    #![trigger map_of(before).contains_key(e)]
                    map_of(before).contains_key(e) && !map_of(self.entries@).contains_key(e) ==> {
                        &&& rank(map_of(before)[e]) <= last
                        &&& load_from(before, rank(map_of(before)[e])) > target
                    },
            decreases self.order@.len(),
        {
            let ghost log0 = self.order@;
            let m = self.min_record();
            let (f, t, key) = self.order.remove(m);
            proof {
                assert(self.order@ == log0.remove(m as int));
                assert((f, t, key) == log0[m as int]);
            }
            match self.find(&key) {
                Some(i) => {
                    let cur_f: u8 = if self.entries[i].1.stale {
                        0
                    } else {
                        1
                    };
                    if cur_f == f && self.entries[i].1.last_used == t {
                        let ghost s = self.entries@;
                        let ghost v = s[i as int].1;
                        proof {
                            assert(record_rank(f, t) == rank(v));
                            // the popped record is the lowest of the log, and
                            // every live entry has a record there
                            assert forall|j: int| 0 <= j < s.len() implies rank(v) <= rank(
                                (#[trigger] s[j]).1,
                            ) by {
                                assert(logged_in(log0, s[j]));
                                let w = choose|w: int|
                                    0 <= w < log0.len() && #[trigger] log0[w] == record_of(s[j]);
                                assert(record_rank(log0[w].0, log0[w].1) == rank(s[j].1));
                            }
                            lemma_load_all(s, rank(v));
                            lemma_total_remove(s, i as int);
                            lemma_map_remove(s, i as int);
                            lemma_map_index(s, i as int);
                            lemma_total_nonneg(s.remove(i as int));
                            lemma_entries_ok_remove(s, log0, self.tick, i as int);
                        }
                        let (_, e) = self.entries.remove(i);
                        self.used = self.used - e.cost;
                        proof {
                            let ns = self.entries@;
                            assert(ns == s.remove(i as int));
                            assert forall|j: int| 0 <= j < ns.len() implies logged_in(
                                self.order@,
                                #[trigger] ns[j],
                            ) by {
                                let j2 = if j < i {
                                    j
                                } else {
                                    j + 1
                                };
                                assert(ns[j] == s[j2]);
                                assert(s[j2].0 != key);
                                lemma_logged_remove(log0, m as int, s[j2]);
                            }
                            assert forall|j: int| 0 <= j < ns.len() implies rank(
                                (#[trigger] ns[j]).1,
                            ) > rank(v) by {
                                let j2 = if j < i {
                                    j
                                } else {
                                    j + 1
                                };
                                assert(ns[j] == s[j2]);
                                assert(s[j2].1.last_used != s[i as int].1.last_used);
                                assert(rank(v) <= rank(s[j2].1));
                            }
                            assert forall|e: K|
                                #![trigger map_of(before).contains_key(e)]
                                map_of(before).contains_key(e) && !map_of(ns).contains_key(e) implies {
                                    &&& rank(map_of(before)[e]) <= rank(v)
                                    &&& load_from(before, rank(map_of(before)[e])) > target
                                } by {
                                if e == s[i as int].0 {
                                    assert(map_of(before)[e] == v);
                                    assert(load_from(s, rank(v)) == load_from(before, rank(v)));
                                }
                            }
                            assert forall|r: int| r > rank(v) implies #[trigger] load_from(ns, r)
                                == load_from(before, r) by {
                                assert(load_from(s, r) == load_from(before, r));
                            }
                            assert forall|q: K| #[trigger] map_of(ns).contains_key(q) implies map_of(
                                before,
                            ).contains_key(q) && map_of(ns)[q] == map_of(before)[q] by {
                                assert(map_of(s).contains_key(q));
                            }
                            assert(map_of(ns) <= map_of(before));
                            last = rank(v);
                        }
                    } else {
                        proof {
                            let s = self.entries@;
                            assert forall|j: int| 0 <= j < s.len() implies logged_in(
                                self.order@,
                                #[trigger] s[j],
                            ) by {
                                lemma_logged_remove(log0, m as int, s[j]);
                            }
                        }
                    }
                },
                None => {
                    proof {
                        let s = self.entries@;
                        assert forall|j: int| 0 <= j < s.len() implies logged_in(
                            self.order@,
                            #[trigger] s[j],
                        ) by {
                            lemma_logged_remove(log0, m as int, s[j]);
                        }
                    }
                },
            }
        }
        proof {
            let s = self.entries@;
            if s.len() > 0 {
                assert(logged_in(self.order@, s[0]));
            }
            assert forall|e: K, q: K|
                #![trigger map_of(before).contains_key(e), map_of(s).contains_key(q)]
                map_of(before).contains_key(e) && !map_of(s).contains_key(e) && map_of(s).contains_key(
                    q,
                ) implies rank(map_of(before)[e]) < rank(map_of(before)[q]) by {
                let j = choose|j: int| 0 <= j < s.len() && s[j].0 == q;
                lemma_map_index(s, j);
                assert(map_of(s)[q] == map_of(before)[q]);
                assert(rank(s[j].1) > last);
            }
        }
        self.compact_order_if_needed();
    }

    /// Index of the lowest-ranked record in the log.
    fn min_record(&self) -> (m: usize)
        requires
            self.order@.len() > 0,
        ensures
            m < self.order@.len(),
            forall|j: int|
                0 <= j < self.order@.len() ==> record_rank(self.order@[m as int].0, self.order@[m as int].1)
                    <= record_rank((#[trigger] self.order@[j]).0, self.order@[j].1),
    {
        let mut best: usize = 0;
        let mut i: usize = 1;
        while i < self.order.len()
            invariant
                self.order@.len() > 0,
                1 <= i <= self.order@.len(),
                best < i,
                forall|j: int|
                    0 <= j < i ==> record_rank(self.order@[best as int].0, self.order@[best as int].1)
                        <= record_rank((#[trigger] self.order@[j]).0, self.order@[j].1),
            decreases self.order@.len() - i,
        {
            let (f, t, _) = self.order[i];
            let (bf, bt, _) = self.order[best];
            if f < bf || (f == bf && t < bt) {
                best = i;
            }
            i += 1;
        }
        best
    }

    /// Rebuild the eviction log from the live entries once it has grown past
    /// eight records per entry (plus slack).
    fn compact_order_if_needed(&mut self)
        requires
            old(self).inv(),
        ensures
            final(self).inv(),
            final(self).entries() == old(self).entries(),
            final(self).spec_budget() == old(self).spec_budget(),
            final(self).spec_used() == old(self).spec_used(),
            final(self).clock() == old(self).clock(),
            final(self).spec_hits() == old(self).spec_hits(),
            final(self).spec_lookups() == old(self).spec_lookups(),
            final(self).log_len() <= old(self).log_len(),
            old(self).log_len() > old(self).entries().len() * 8 + 64 ==> final(self).log_len()
                == old(self).entries().len(),
    {
        let n = self.entries.len();
        let limit: usize = if n <= (usize::MAX - 64) / 8 {
            n * 8 + 64
        } else {
            usize::MAX
        };
        if self.order.len() <= limit {
            return;
        }
        let mut fresh: Vec<(u8, u64, K)> = Vec::new();
        let mut i: usize = 0;
        while i < n
            invariant
                n == self.entries@.len(),
                i <= n,
                fresh@.len() == i,
                forall|j: int| 0 <= j < i ==> #[trigger] fresh@[j] == record_of(self.entries@[j]),
            decreases n - i,
        {
            let f: u8 = if self.entries[i].1.stale {
                0
            } else {
                1
            };
            fresh.push((f, self.entries[i].1.last_used, self.entries[i].0));
            i += 1;
        }
        self.order = fresh;
        proof {
            assert forall|j: int| 0 <= j < self.entries@.len() implies logged_in(
                self.order@,
                #[trigger] self.entries@[j],
            ) by {
                assert(self.order@[j] == record_of(self.entries@[j]));
            }
        }
    }
}

/// Index of `k` among the entries.
pub open spec fn index_of_key<K>(s: Seq<(K, CacheEntry)>, k: K) -> int {
    choose|i: int| 0 <= i < s.len() && s[i].0 == k
}

proof fn lemma_dom_len<K>(s: Seq<(K, CacheEntry)>)
    requires
        distinct_keys(s),
    ensures
        map_of(s).dom().finite(),
        map_of(s).len() == s.len(),
    decreases s.len(),
{
    if s.len() == 0 {
        assert(map_of(s).dom() =~= Set::<K>::empty());
    } else {
        let t = s.drop_last();
        assert(distinct_keys(t));
        lemma_dom_len(t);
        assert(!has_key(t, s.last().0)) by {
            if has_key(t, s.last().0) {
                let j = choose|j: int| 0 <= j < t.len() && t[j].0 == s.last().0;
                assert(s[j] == t[j]);
            }
        }
        lemma_map_push(t, s.last().0, s.last().1);
        assert(t.push(s.last()) =~= s);
    }
}

} // verus!
