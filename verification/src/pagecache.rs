//! Byte-budgeted caches of per-page results, least recently used out first:
//! the links found on a page, and the text geometry of the foreground pages.
//!
//! Each entry is charged what it costs to keep; an entry dearer than the
//! whole budget is never kept, and making room evicts the entries used
//! longest ago until the newcomer fits.

use vstd::prelude::*;

verus! {

/// One cached page result and its bookkeeping.
pub struct PageSlot<V> {
    pub doc: u32,
    pub page: u32,
    pub value: V,
    pub cost: u64,
    /// The use count at this entry's last use.
    pub last_used: u64,
}

pub struct PageLru<V> {
    slots: Vec<PageSlot<V>>,
    budget: u64,
    used: u64,
    /// Uses so far; every lookup and every insertion is one.
    tick: u64,
}

/// The cache of the links found on each page; the caller charges each page
/// its `link_cost`.
pub type LinkCache<V> = PageLru<V>;

/// The cache of the foreground pages' text geometry, kept apart from the
/// search index so that selection keeps working when search has reached its
/// budget; the caller charges each page its `text_layout_cost`.
pub type TextLayoutCache<V> = PageLru<V>;

/// What the entries cost together.
pub open spec fn total_cost<V>(s: Seq<PageSlot<V>>) -> int
    decreases s.len(),
{
    if s.len() == 0 {
        0
    } else {
        total_cost(s.drop_last()) + s.last().cost
    }
}

/// The entry used longest ago (the first of them, were there a tie).
pub open spec fn oldest<V>(s: Seq<PageSlot<V>>) -> int
    decreases s.len(),
{
    if s.len() <= 1 {
        0
    } else if s.last().last_used < s[oldest(s.drop_last())].last_used {
        s.len() - 1
    } else {
        oldest(s.drop_last())
    }
}

/// The entries left once the oldest have been evicted until the rest cost
/// at most `target`.
pub open spec fn evicted_to<V>(s: Seq<PageSlot<V>>, target: int) -> Seq<PageSlot<V>>
    decreases s.len(),
{
    let i = oldest(s);
    if s.len() == 0 || total_cost(s) <= target || !(0 <= i < s.len()) {
        s
    } else {
        evicted_to(s.remove(i), target)
    }
}

/// The entry for `doc`'s page `page`, if there is one.
pub open spec fn find<V>(s: Seq<PageSlot<V>>, doc: u32, page: u32) -> Option<int>
    decreases s.len(),
{
    if s.len() == 0 {
        None
    } else if s.last().doc == doc && s.last().page == page {
        Some(s.len() - 1)
    } else {
        find(s.drop_last(), doc, page)
    }
}

/// The entries without the one for `doc`'s page `page`.
pub open spec fn without<V>(s: Seq<PageSlot<V>>, doc: u32, page: u32) -> Seq<PageSlot<V>> {
    match find(s, doc, page) {
        Some(i) => s.remove(i),
        None => s,
    }
}

/// The entries not belonging to `doc`.
pub open spec fn without_doc<V>(s: Seq<PageSlot<V>>, doc: u32) -> Seq<PageSlot<V>>
    decreases s.len(),
{
    if s.len() == 0 {
        s
    } else if s.last().doc == doc {
        without_doc(s.drop_last(), doc)
    } else {
        without_doc(s.drop_last(), doc).push(s.last())
    }
}

pub open spec fn distinct_pages<V>(s: Seq<PageSlot<V>>) -> bool {
    forall|i: int, j: int|
        0 <= i < j < s.len() ==> !(#[trigger] s[i].doc == #[trigger] s[j].doc && s[i].page == s[j].page)
}

pub open spec fn uses_before<V>(s: Seq<PageSlot<V>>, tick: u64) -> bool {
    forall|i: int| 0 <= i < s.len() ==> #[trigger] s[i].last_used <= tick
}

proof fn lemma_total_cost_append<V>(a: Seq<PageSlot<V>>, b: Seq<PageSlot<V>>)
    ensures
        total_cost(a + b) == total_cost(a) + total_cost(b),
    decreases b.len(),
{
    if b.len() == 0 {
        assert(a + b =~= a);
    } else {
        lemma_total_cost_append(a, b.drop_last());
        assert((a + b).drop_last() =~= a + b.drop_last());
    }
}

proof fn lemma_total_cost_remove<V>(s: Seq<PageSlot<V>>, i: int)
    requires
        0 <= i < s.len(),
    ensures
        total_cost(s.remove(i)) == total_cost(s) - s[i].cost,
{
    let a = s.take(i);
    let one = seq![s[i]];
    let b = s.skip(i + 1);
    assert(s =~= a + one + b);
    assert(s.remove(i) =~= a + b);
    lemma_total_cost_append(a + one, b);
    lemma_total_cost_append(a, one);
    lemma_total_cost_append(a, b);
    assert(one.drop_last() =~= Seq::<PageSlot<V>>::empty());
    assert(total_cost(Seq::<PageSlot<V>>::empty()) == 0);
    assert(one.last() == s[i]);
    assert(total_cost(one) == total_cost(one.drop_last()) + one.last().cost);
    assert(total_cost(one) == s[i].cost);
}

proof fn lemma_total_cost_nonneg<V>(s: Seq<PageSlot<V>>)
    ensures
        total_cost(s) >= 0,
    decreases s.len(),
{
    if s.len() > 0 {
        lemma_total_cost_nonneg(s.drop_last());
    }
}

proof fn lemma_oldest_range<V>(s: Seq<PageSlot<V>>)
    requires
        s.len() > 0,
    ensures
        0 <= oldest(s) < s.len(),
    decreases s.len(),
{
    if s.len() > 1 {
        lemma_oldest_range(s.drop_last());
    }
}

proof fn lemma_find_range<V>(s: Seq<PageSlot<V>>, doc: u32, page: u32)
    ensures
        find(s, doc, page) matches Some(i) ==> 0 <= i < s.len() && s[i].doc == doc && s[i].page
            == page,
        find(s, doc, page) is None ==> forall|k: int|
            0 <= k < s.len() ==> !(#[trigger] s[k].doc == doc && s[k].page == page),
    decreases s.len(),
{
    if s.len() > 0 {
        lemma_find_range(s.drop_last(), doc, page);
        if !(s.last().doc == doc && s.last().page == page) {
            assert forall|k: int| 0 <= k < s.len() - 1 implies s[k] == s.drop_last()[k] by {}
        }
    }
}

/// Removing entries keeps the rest distinct and used before the tick.
proof fn lemma_remove_keeps<V>(s: Seq<PageSlot<V>>, i: int, tick: u64)
    requires
        0 <= i < s.len(),
        distinct_pages(s),
        uses_before(s, tick),
    ensures
        distinct_pages(s.remove(i)),
        uses_before(s.remove(i), tick),
{
    let r = s.remove(i);
    assert forall|a: int, b: int| 0 <= a < b < r.len() implies !(#[trigger] r[a].doc == #[trigger] r[b].doc
        && r[a].page == r[b].page) by {
        let ia = if a < i { a } else { a + 1 };
        let ib = if b < i { b } else { b + 1 };
        assert(r[a] == s[ia] && r[b] == s[ib]);
    }
    assert forall|k: int| 0 <= k < r.len() implies #[trigger] r[k].last_used <= tick by {
        let ik = if k < i { k } else { k + 1 };
        assert(r[k] == s[ik]);
    }
}

proof fn lemma_evicted_to<V>(s: Seq<PageSlot<V>>, target: int, tick: u64)
    requires
        distinct_pages(s),
        uses_before(s, tick),
    ensures
        distinct_pages(evicted_to(s, target)),
        uses_before(evicted_to(s, target), tick),
        evicted_to(s, target).len() == 0 || total_cost(evicted_to(s, target)) <= target,
        total_cost(evicted_to(s, target)) <= total_cost(s),
    decreases s.len(),
{
    if s.len() > 0 {
        lemma_oldest_range(s);
    }
    if !(s.len() == 0 || total_cost(s) <= target) {
        let r = s.remove(oldest(s));
        lemma_remove_keeps(s, oldest(s), tick);
        lemma_total_cost_remove(s, oldest(s));
        lemma_total_cost_nonneg(s);
        assert(s[oldest(s)].cost >= 0);
        lemma_total_cost_nonneg(r);
        lemma_evicted_to(r, target, tick);
    }
}

proof fn lemma_remove_keeps_absent<V>(s: Seq<PageSlot<V>>, i: int, doc: u32, page: u32)
    requires
        0 <= i < s.len(),
        forall|k: int| 0 <= k < s.len() ==> !(#[trigger] s[k].doc == doc && s[k].page == page),
    ensures
        forall|k: int|
            0 <= k < s.remove(i).len() ==> !(#[trigger] s.remove(i)[k].doc == doc && s.remove(i)[k].page
                == page),
{
    let r = s.remove(i);
    assert forall|k: int| 0 <= k < r.len() implies !(#[trigger] r[k].doc == doc && r[k].page == page) by {
        let ik = if k < i { k } else { k + 1 };
        assert(r[k] == s[ik]);
    }
}

proof fn lemma_evicted_keeps_absent<V>(s: Seq<PageSlot<V>>, target: int, doc: u32, page: u32)
    requires
        forall|k: int| 0 <= k < s.len() ==> !(#[trigger] s[k].doc == doc && s[k].page == page),
    ensures
        forall|k: int|
            0 <= k < evicted_to(s, target).len() ==> !(#[trigger] evicted_to(s, target)[k].doc == doc
                && evicted_to(s, target)[k].page == page),
    decreases s.len(),
{
    let i = oldest(s);
    if !(s.len() == 0 || total_cost(s) <= target || !(0 <= i < s.len())) {
        lemma_remove_keeps_absent(s, i, doc, page);
        lemma_evicted_keeps_absent(s.remove(i), target, doc, page);
        assert(evicted_to(s, target) == evicted_to(s.remove(i), target));
    } else {
        assert(evicted_to(s, target) == s);
    }
}

proof fn lemma_without<V>(s: Seq<PageSlot<V>>, doc: u32, page: u32, tick: u64)
    requires
        distinct_pages(s),
        uses_before(s, tick),
    ensures
        distinct_pages(without(s, doc, page)),
        uses_before(without(s, doc, page), tick),
        forall|k: int|
            0 <= k < without(s, doc, page).len() ==> !(#[trigger] without(s, doc, page)[k].doc == doc
                && without(s, doc, page)[k].page == page),
        total_cost(without(s, doc, page)) == total_cost(s) - (match find(s, doc, page) {
            Some(i) => s[i].cost as int,
            None => 0int,
        }),
{
    lemma_find_range(s, doc, page);
    match find(s, doc, page) {
        Some(i) => {
            lemma_remove_keeps(s, i, tick);
            lemma_total_cost_remove(s, i);
            let r = s.remove(i);
            assert forall|k: int| 0 <= k < r.len() implies !(#[trigger] r[k].doc == doc && r[k].page
                == page) by {
                let ik = if k < i { k } else { k + 1 };
                assert(r[k] == s[ik]);
                assert(s[i].doc == doc && s[i].page == page);
            }
        },
        None => {},
    }
}

proof fn lemma_without_doc<V>(s: Seq<PageSlot<V>>, doc: u32, tick: u64)
    requires
        distinct_pages(s),
        uses_before(s, tick),
    ensures
        distinct_pages(without_doc(s, doc)),
        uses_before(without_doc(s, doc), tick),
        total_cost(without_doc(s, doc)) <= total_cost(s),
        forall|k: int| 0 <= k < without_doc(s, doc).len() ==> #[trigger] without_doc(s, doc)[k].doc != doc,
        forall|k: int| 0 <= k < without_doc(s, doc).len() ==> s.contains(#[trigger] without_doc(s, doc)[k]),
    decreases s.len(),
{
    if s.len() > 0 {
        let d = s.drop_last();
        assert forall|a: int, b: int| 0 <= a < b < d.len() implies !(#[trigger] d[a].doc == #[trigger] d[b].doc
            && d[a].page == d[b].page) by {
            assert(d[a] == s[a] && d[b] == s[b]);
        }
        assert forall|k: int| 0 <= k < d.len() implies #[trigger] d[k].last_used <= tick by {
            assert(d[k] == s[k]);
        }
        lemma_without_doc(d, doc, tick);
        lemma_total_cost_nonneg(without_doc(d, doc));
        let w = without_doc(d, doc);
        assert forall|k: int| 0 <= k < w.len() implies s.contains(#[trigger] w[k]) by {
            let m = choose|m: int| 0 <= m < d.len() && d[m] == w[k];
            assert(s[m] == w[k]);
        }
        if s.last().doc != doc {
            let r = w.push(s.last());
            assert forall|a: int, b: int| 0 <= a < b < r.len() implies !(#[trigger] r[a].doc == #[trigger] r[b].doc
                && r[a].page == r[b].page) by {
                if b == r.len() - 1 {
                    assert(r[a] == w[a]);
                    assert(s.contains(w[a]));
                    let m = choose|m: int| 0 <= m < d.len() && d[m] == w[a];
                    assert(s[m] == w[a]);
                    assert(s[s.len() - 1] == r[b]);
                } else {
                    assert(r[a] == w[a] && r[b] == w[b]);
                }
            }
            assert forall|k: int| 0 <= k < r.len() implies s.contains(#[trigger] r[k]) by {
                if k == r.len() - 1 {
                    assert(s[s.len() - 1] == r[k]);
                } else {
                    assert(r[k] == w[k]);
                }
            }
            assert(r.drop_last() =~= w);
        }
    }
}

impl<V> PageLru<V> {
    pub closed spec fn slots(&self) -> Seq<PageSlot<V>> {
        self.slots@
    }

    pub closed spec fn budget_view(&self) -> u64 {
        self.budget
    }

    pub closed spec fn used_view(&self) -> u64 {
        self.used
    }

    pub closed spec fn tick_view(&self) -> u64 {
        self.tick
    }

    /// No page twice; what is held costs exactly `used`, which is within the
    /// budget; and no entry was last used after the current use count.
    pub open spec fn wf(&self) -> bool {
        &&& distinct_pages(self.slots())
        &&& self.used_view() == total_cost(self.slots())
        &&& self.used_view() <= self.budget_view()
        &&& uses_before(self.slots(), self.tick_view())
    }

    pub fn new(budget: u64) -> (r: Self)
        ensures
            r.wf(),
            r.slots().len() == 0,
            r.budget_view() == budget,
            r.tick_view() == 0,
    {
        PageLru { slots: Vec::new(), budget, used: 0, tick: 0 }
    }

    pub fn budget(&self) -> (r: u64)
        ensures
            r == self.budget_view(),
    {
        self.budget
    }

    pub fn used(&self) -> (r: u64)
        ensures
            r == self.used_view(),
    {
        self.used
    }

    /// Evicts the entries used longest ago until the rest cost at most
    /// `target`.
    fn evict_to(&mut self, target: u64)
        requires
            distinct_pages(old(self).slots()),
            old(self).used_view() == total_cost(old(self).slots()),
            uses_before(old(self).slots(), old(self).tick_view()),
        ensures
            final(self).slots() == evicted_to(old(self).slots(), target as int),
            final(self).used_view() == total_cost(final(self).slots()),
            final(self).budget_view() == old(self).budget_view(),
            final(self).tick_view() == old(self).tick_view(),
    {
        proof {
            lemma_evicted_to(self.slots@, target as int, self.tick);
        }
        while self.used > target && self.slots.len() > 0
            invariant
                distinct_pages(self.slots@),
                uses_before(self.slots@, self.tick),
                self.used == total_cost(self.slots@),
                evicted_to(self.slots@, target as int) == evicted_to(
                    old(self).slots(),
                    target as int,
                ),
                self.budget == old(self).budget,
                self.tick == old(self).tick,
            decreases self.slots@.len(),
        {
            let mut victim: usize = 0;
            let mut k: usize = 1;
            proof {
                assert(self.slots@.take(1).drop_last() =~= Seq::<PageSlot<V>>::empty());
            }
            while k < self.slots.len()
                invariant
                    1 <= k <= self.slots@.len(),
                    victim == oldest(self.slots@.take(k as int)),
                decreases self.slots@.len() - k,
            {
                proof {
                    let t = self.slots@.take(k + 1);
                    assert(t.drop_last() =~= self.slots@.take(k as int));
                    lemma_oldest_range(self.slots@.take(k as int));
                    assert(self.slots@.take(k as int)[victim as int] == self.slots@[victim as int]);
                }
                if self.slots[k].last_used < self.slots[victim].last_used {
                    victim = k;
                }
                k = k + 1;
            }
            proof {
                assert(self.slots@.take(k as int) =~= self.slots@);
                lemma_oldest_range(self.slots@);
                lemma_total_cost_remove(self.slots@, victim as int);
                lemma_total_cost_nonneg(self.slots@.remove(victim as int));
                lemma_remove_keeps(self.slots@, victim as int, self.tick);
            }
            let gone = self.slots.remove(victim);
            self.used = self.used - gone.cost;
        }
        proof {
            if self.slots@.len() > 0 {
                assert(total_cost(self.slots@) <= target);
            }
        }
    }

    /// Sets a new budget, evicting what no longer fits.
    pub fn set_budget(&mut self, budget: u64)
        requires
            old(self).wf(),
        ensures
            final(self).wf(),
            final(self).budget_view() == budget,
            final(self).slots() == evicted_to(old(self).slots(), budget as int),
            final(self).tick_view() == old(self).tick_view(),
    {
        self.budget = budget;
        self.evict_to(budget);
        proof {
            lemma_evicted_to(old(self).slots(), budget as int, old(self).tick_view());
            if self.slots@.len() == 0 {
                assert(total_cost(self.slots@) == 0);
            }
        }
    }

    /// The value cached for `doc`'s page `page`, which becomes the most
    /// recently used entry. Every lookup counts as a use, found or not.
    pub fn get(&mut self, doc: u32, page: u32) -> (r: Option<&V>)
        requires
            old(self).wf(),
            old(self).tick_view() < u64::MAX,
        ensures
            final(self).wf(),
            final(self).tick_view() == old(self).tick_view() + 1,
            final(self).budget_view() == old(self).budget_view(),
            match find(old(self).slots(), doc, page) {
                Some(i) => r == Some(&old(self).slots()[i].value) && final(self).slots()
                    == old(self).slots().update(
                    i,
                    PageSlot { last_used: final(self).tick_view(), ..old(self).slots()[i] },
                ),
                None => r is None && final(self).slots() == old(self).slots(),
            },
            find(old(self).slots(), doc, page) matches Some(i) ==> forall|j: int|
                0 <= j < final(self).slots().len() && j != i ==> #[trigger] final(self).slots()[j].last_used
                    < final(self).slots()[i].last_used,
    {
        self.tick = self.tick + 1;
        let mut i: usize = self.slots.len();
        proof {
            assert(self.slots@.take(i as int) =~= self.slots@);
        }
        while i > 0
            invariant
                i <= self.slots@.len(),
                self.slots@ == old(self).slots(),
                old(self).wf(),
                self.tick == old(self).tick + 1,
                self.used == old(self).used,
                self.budget == old(self).budget,
                find(self.slots@, doc, page) == find(self.slots@.take(i as int), doc, page),
            decreases i,
        {
            proof {
                assert(self.slots@.take(i as int).drop_last() =~= self.slots@.take(i - 1));
            }
            if self.slots[i - 1].doc == doc && self.slots[i - 1].page == page {
                let ghost before = self.slots@;
                let tick = self.tick;
                let mut slot = self.slots.remove(i - 1);
                slot.last_used = tick;
                self.slots.insert(i - 1, slot);
                proof {
                    let after = self.slots@;
                    assert(after =~= before.update(
                        i - 1,
                        PageSlot { last_used: tick, ..before[i - 1] },
                    ));
                    assert forall|a: int, b: int| 0 <= a < b < after.len() implies !(
                    #[trigger] after[a].doc == #[trigger] after[b].doc && after[a].page
                        == after[b].page) by {
                        assert(before[a].doc == after[a].doc && before[a].page == after[a].page);
                        assert(before[b].doc == after[b].doc && before[b].page == after[b].page);
                    }
                    assert forall|k: int| 0 <= k < after.len() implies #[trigger] after[k].last_used
                        <= tick by {
                        if k != i - 1 {
                            assert(after[k] == before[k]);
                        }
                    }
                    lemma_total_cost_update_last_used(before, i - 1, tick);
                }
                return Some(&self.slots[i - 1].value);
            }
            i = i - 1;
        }
        proof {
            assert(self.slots@.take(0) =~= Seq::<PageSlot<V>>::empty());
            assert forall|k: int| 0 <= k < self.slots@.len() implies #[trigger] self.slots@[k].last_used
                <= self.tick by {}
        }
        None
    }

    /// Keeps `value` for `doc`'s page `page` at `cost`, replacing what was
    /// kept for that page and evicting the entries used longest ago until it
    /// fits. A value dearer than the whole budget is not kept, and is handed
    /// back.
    pub fn insert(&mut self, doc: u32, page: u32, value: V, cost: u64) -> (r: Option<V>)
        requires
            old(self).wf(),
            old(self).tick_view() < u64::MAX,
        ensures
            final(self).wf(),
            final(self).budget_view() == old(self).budget_view(),
            cost > old(self).budget_view() ==> r == Some(value) && final(self).slots() == old(
                self,
            ).slots() && final(self).tick_view() == old(self).tick_view(),
            cost <= old(self).budget_view() ==> r is None && final(self).tick_view() == old(
                self,
            ).tick_view() + 1 && final(self).slots() == evicted_to(
                without(old(self).slots(), doc, page),
                old(self).budget_view() - cost,
            ).push(
                PageSlot { doc, page, value, cost, last_used: final(self).tick_view() },
            ),
            cost <= old(self).budget_view() ==> find(final(self).slots(), doc, page) == Some(
                final(self).slots().len() - 1,
            ) && forall|j: int|
                0 <= j < final(self).slots().len() - 1 ==> #[trigger] final(self).slots()[j].last_used
                    < final(self).slots().last().last_used,
    {
        if cost > self.budget {
            return Some(value);
        }
        proof {
            lemma_without(self.slots@, doc, page, self.tick);
            lemma_find_range(self.slots@, doc, page);
        }
        let mut i: usize = self.slots.len();
        proof {
            assert(self.slots@.take(i as int) =~= self.slots@);
        }
        while i > 0
            invariant
                i <= self.slots@.len(),
                self.slots@ == old(self).slots(),
                find(self.slots@, doc, page) == find(self.slots@.take(i as int), doc, page),
                self.used == old(self).used,
                self.budget == old(self).budget,
                self.tick == old(self).tick,
            ensures
                i > 0 ==> self.slots@[i - 1].doc == doc && self.slots@[i - 1].page == page,
            decreases i,
        {
            proof {
                assert(self.slots@.take(i as int).drop_last() =~= self.slots@.take(i - 1));
            }
            if self.slots[i - 1].doc == doc && self.slots[i - 1].page == page {
                break;
            }
            i = i - 1;
        }
        if i > 0 {
            proof {
                let t = self.slots@.take(i as int);
                assert(t.len() == i && t.last() == self.slots@[i - 1]);
                assert(find(t, doc, page) == Some(i - 1));
                assert(find(self.slots@, doc, page) == Some(i - 1));
                lemma_total_cost_remove(self.slots@, i - 1);
                lemma_total_cost_nonneg(self.slots@.remove(i - 1));
            }
            let gone = self.slots.remove(i - 1);
            self.used = self.used - gone.cost;
        } else {
            proof {
                assert(self.slots@.take(0) =~= Seq::<PageSlot<V>>::empty());
            }
        }
        proof {
            assert(self.slots@ == without(old(self).slots(), doc, page));
        }
        let ghost rest = self.slots@;
        self.evict_to(self.budget - cost);
        proof {
            lemma_evicted_to(rest, (old(self).budget - cost) as int, old(self).tick);
            lemma_evicted_keeps_absent(rest, (old(self).budget - cost) as int, doc, page);
            lemma_total_cost_nonneg(self.slots@);
        }
        self.tick = self.tick + 1;
        let ghost before = self.slots@;
        self.slots.push(PageSlot { doc, page, value, cost, last_used: self.tick });
        proof {
            let after = self.slots@;
            assert(after.drop_last() =~= before);
            assert forall|a: int, b: int| 0 <= a < b < after.len() implies !(#[trigger] after[a].doc
                == #[trigger] after[b].doc && after[a].page == after[b].page) by {
                assert(after[a] == before[a]);
                if b < before.len() {
                    assert(after[b] == before[b]);
                }
            }
            assert forall|k: int| 0 <= k < after.len() implies #[trigger] after[k].last_used
                <= self.tick by {
                if k < before.len() {
                    assert(after[k] == before[k]);
                }
            }
            if before.len() == 0 {
                assert(total_cost(before) == 0);
            }
        }
        self.used = self.used + cost;
        None
    }

    /// Drops everything kept for `doc`.
    pub fn remove_doc(&mut self, doc: u32)
        requires
            old(self).wf(),
        ensures
            final(self).wf(),
            final(self).slots() == without_doc(old(self).slots(), doc),
            final(self).budget_view() == old(self).budget_view(),
            final(self).tick_view() == old(self).tick_view(),
    {
        let mut kept: Vec<PageSlot<V>> = Vec::new();
        let mut kept_cost: u64 = 0;
        let mut rest: Vec<PageSlot<V>> = Vec::new();
        std::mem::swap(&mut rest, &mut self.slots);
        let ghost all = rest@;
        let mut i: usize = 0;
        proof {
            lemma_without_doc(all, doc, self.tick);
            assert(all.len() == rest.len());
            assert(all.take(0) =~= Seq::<PageSlot<V>>::empty());
            assert(all.skip(0) =~= all);
            assert(all =~= all.take(0) + all.skip(0));
            lemma_total_cost_append(all.take(0), all.skip(0));
            lemma_total_cost_nonneg(all);
        }
        while rest.len() > 0
            invariant
                all == old(self).slots(),
                all.len() <= usize::MAX,
                0 <= i <= all.len(),
                rest@ == all.skip(i as int),
                kept@ == without_doc(all.take(i as int), doc),
                kept_cost == total_cost(kept@),
                kept_cost <= total_cost(all.take(i as int)),
                total_cost(all.take(i as int)) <= total_cost(all),
                total_cost(all) <= u64::MAX,
            decreases rest@.len(),
        {
            proof {
                let t = all.take(i + 1);
                assert(t.drop_last() =~= all.take(i as int));
                assert(i < all.len());
                assert(rest@[0] == all[i as int]);
                assert(t.last() == all[i as int]);
                assert(all =~= all.take(i + 1) + all.skip(i + 1));
                lemma_total_cost_append(all.take(i + 1), all.skip(i + 1));
                lemma_total_cost_nonneg(all.skip(i + 1));
                lemma_total_cost_nonneg(all.take(i as int));
            }
            let slot = rest.remove(0);
            if slot.doc != doc {
                kept_cost = kept_cost + slot.cost;
                let ghost before = kept@;
                kept.push(slot);
                proof {
                    assert(kept@.drop_last() =~= before);
                }
            }
            i = i + 1;
            proof {
                assert(rest@ =~= all.skip(i as int));
            }
        }
        proof {
            assert(all.take(i as int) =~= all);
        }
        self.slots = kept;
        self.used = kept_cost;
    }
}

proof fn lemma_total_cost_update_last_used<V>(s: Seq<PageSlot<V>>, i: int, t: u64)
    requires
        0 <= i < s.len(),
    ensures
        total_cost(s.update(i, PageSlot { last_used: t, ..s[i] })) == total_cost(s),
{
    lemma_total_cost_remove(s, i);
    let u = s.update(i, PageSlot { last_used: t, ..s[i] });
    lemma_total_cost_remove(u, i);
    assert(u.remove(i) =~= s.remove(i));
}


pub open spec fn sum_of(v: Seq<u64>) -> int
    decreases v.len(),
{
    if v.len() == 0 {
        0
    } else {
        sum_of(v.drop_last()) + v.last()
    }
}

/// What a page's links cost to keep: a fixed charge, one per link, and the
/// bytes of each link's URI (`uri_bytes` holds one length per link, zero for
/// a link inside the document).
pub open spec fn links_cost(uri_bytes: Seq<u64>) -> int {
    64 + 64 * uri_bytes.len() + sum_of(uri_bytes)
}

/// What a page's text geometry costs to keep: a fixed charge, sixteen bytes
/// per character box, and for each run its size in memory plus its text.
pub open spec fn layout_cost(boxes: int, run_size: int, run_text_bytes: Seq<u64>) -> int {
    64 + 16 * boxes + run_size * run_text_bytes.len() + sum_of(run_text_bytes)
}

proof fn lemma_sum_of_prefix(v: Seq<u64>, i: int)
    requires
        0 <= i < v.len(),
    ensures
        sum_of(v.take(i + 1)) == sum_of(v.take(i)) + v[i],
        sum_of(v.take(i)) >= 0,
        sum_of(v.take(i + 1)) <= sum_of(v),
    decreases v.len() - i,
{
    assert(v.take(i + 1).drop_last() =~= v.take(i));
    lemma_sum_of_nonneg(v.take(i));
    if i + 1 < v.len() {
        lemma_sum_of_prefix(v, i + 1);
        lemma_sum_of_nonneg(v);
    } else {
        assert(v.take(i + 1) =~= v);
    }
}

proof fn lemma_sum_of_nonneg(v: Seq<u64>)
    ensures
        sum_of(v) >= 0,
    decreases v.len(),
{
    if v.len() > 0 {
        lemma_sum_of_nonneg(v.drop_last());
    }
}

fn sum_within(v: &Vec<u64>, limit: u64) -> (r: u64)
    requires
        sum_of(v@) <= limit,
    ensures
        r == sum_of(v@),
{
    let mut total: u64 = 0;
    let mut i: usize = 0;
    proof {
        assert(v@.take(0) =~= Seq::<u64>::empty());
    }
    while i < v.len()
        invariant
            i <= v@.len(),
            total == sum_of(v@.take(i as int)),
            sum_of(v@) <= limit,
        decreases v@.len() - i,
    {
        proof {
            lemma_sum_of_prefix(v@, i as int);
        }
        total = total + v[i];
        i = i + 1;
    }
    proof {
        assert(v@.take(i as int) =~= v@);
    }
    total
}

/// The cost a page's links are charged, from the length of each link's URI.
pub fn link_cost(uri_bytes: &Vec<u64>) -> (r: u64)
    requires
        links_cost(uri_bytes@) <= u64::MAX,
    ensures
        r == links_cost(uri_bytes@),
{
    proof {
        lemma_sum_of_nonneg(uri_bytes@);
    }
    let bytes = sum_within(uri_bytes, u64::MAX);
    64 + 64 * (uri_bytes.len() as u64) + bytes
}

/// The cost a page's text geometry is charged: `boxes` character boxes, and
/// runs of `run_size` bytes each carrying the given text lengths.
pub fn text_layout_cost(boxes: u64, run_size: u64, run_text_bytes: &Vec<u64>) -> (r: u64)
    requires
        layout_cost(boxes as int, run_size as int, run_text_bytes@) <= u64::MAX,
    ensures
        r == layout_cost(boxes as int, run_size as int, run_text_bytes@),
{
    proof {
        lemma_sum_of_nonneg(run_text_bytes@);
        assert(0 <= run_size * run_text_bytes@.len()) by (nonlinear_arith)
            requires
                run_size >= 0,
        ;
        assert(0 <= 16 * boxes);
    }
    let bytes = sum_within(run_text_bytes, u64::MAX);
    let runs = run_size * (run_text_bytes.len() as u64);
    64 + 16 * boxes + runs + bytes
}

} // verus!
