//! Small caches of engine handles kept in order of use: a document's open
//! page handles, and the library documents opened for citation hover cards.
//! A hit moves to the most recent end; putting a new entry to a full cache
//! evicts the least recently used one, which the caller then closes.

use vstd::prelude::*;

verus! {

/// Open page handles kept per document.
pub const PAGE_HANDLE_CAP: usize = 8;
/// Library documents kept open for hover cards.
pub const LIBRARY_DOC_CAP: usize = 3;

/// Entries keyed by number, least recently used first, at most `cap` of them.
pub struct RecentlyUsed<V> {
    entries: Vec<(u32, V)>,
    cap: usize,
}

pub open spec fn keys_of<V>(s: Seq<(u32, V)>) -> Seq<u32> {
    s.map_values(|e: (u32, V)| e.0)
}

/// Where `key` first sits among the entries, if it is there.
pub open spec fn position_of<V>(s: Seq<(u32, V)>, key: u32) -> Option<int>
    decreases s.len(),
{
    if s.len() == 0 {
        None
    } else {
        match position_of(s.drop_last(), key) {
            Some(p) => Some(p),
            None => if s.last().0 == key {
                Some(s.len() - 1)
            } else {
                None
            },
        }
    }
}

proof fn lemma_position_of<V>(s: Seq<(u32, V)>, key: u32, n: int)
    requires
        0 <= n <= s.len(),
        forall|k: int| 0 <= k < n ==> s[k].0 != key,
    ensures
        n == s.len() ==> position_of(s, key) is None,
        n < s.len() && s[n].0 == key ==> position_of(s, key) == Some(n),
    decreases s.len(),
{
    if s.len() > 0 {
        let d = s.drop_last();
        if n < s.len() {
            if n < d.len() {
                lemma_position_of(d, key, n);
            } else {
                lemma_position_of(d, key, d.len() as int);
            }
        } else {
            lemma_position_of(d, key, d.len() as int);
        }
    }
}

impl<V: Copy> RecentlyUsed<V> {
    pub closed spec fn view(&self) -> Seq<(u32, V)> {
        self.entries@
    }

    pub closed spec fn capacity(&self) -> nat {
        self.cap as nat
    }

    /// At most `cap` entries, no key twice, and room for at least one.
    pub open spec fn wf(&self) -> bool {
        &&& self.capacity() >= 1
        &&& self@.len() <= self.capacity()
        &&& keys_of(self@).no_duplicates()
    }

    pub fn new(cap: usize) -> (r: Self)
        requires
            cap >= 1,
        ensures
            r.wf(),
            r@.len() == 0,
            r.capacity() == cap,
    {
        RecentlyUsed { entries: Vec::new(), cap }
    }

    pub fn len(&self) -> (r: usize)
        ensures
            r == self@.len(),
    {
        self.entries.len()
    }

    /// The value under `key`, which becomes the most recently used entry;
    /// nothing, and no change, when `key` is absent.
    pub fn touch(&mut self, key: u32) -> (r: Option<V>)
        requires
            old(self).wf(),
        ensures
            final(self).wf(),
            final(self).capacity() == old(self).capacity(),
            match position_of(old(self)@, key) {
                Some(p) => r == Some(old(self)@[p].1) && final(self)@ == old(self)@.remove(p).push(
                    old(self)@[p],
                ),
                None => r is None && final(self)@ == old(self)@,
            },
    {
        let mut i: usize = 0;
        while i < self.entries.len()
            invariant
                i <= self.entries@.len(),
                self.entries@ == old(self).entries@,
                self.cap == old(self).cap,
                old(self).wf(),
                forall|k: int| 0 <= k < i ==> self.entries@[k].0 != key,
            decreases self.entries@.len() - i,
        {
            if self.entries[i].0 == key {
                proof {
                    let s = old(self)@;
                    assert(keys_of(s)[i as int] == key);
                    lemma_position_of(s, key, i as int);
                }
                let entry = self.entries.remove(i);
                self.entries.push(entry);
                proof {
                    let s = old(self)@;
                    let t = self.entries@;
                    assert(t =~= s.remove(i as int).push(s[i as int]));
                    assert(keys_of(t) =~= keys_of(s).remove(i as int).push(key));
                    assert forall|a: int, b: int|
                        0 <= a < b < keys_of(t).len() implies keys_of(t)[a] != keys_of(t)[b] by {
                        let ks = keys_of(s);
                        let ia = if a < i { a } else { a + 1 };
                        assert(keys_of(t)[a] == ks[ia]);
                        if b == keys_of(t).len() - 1 {
                            assert(keys_of(t)[b] == ks[i as int]);
                        } else {
                            let ib = if b < i { b } else { b + 1 };
                            assert(keys_of(t)[b] == ks[ib]);
                        }
                    }
                }
                return Some(entry.1);
            }
            i = i + 1;
        }
        proof {
            lemma_position_of(old(self)@, key, i as int);
        }
        None
    }

    /// Adds `key` as the most recently used entry. When the cache is full,
    /// the least recently used entry makes room and is returned.
    pub fn put(&mut self, key: u32, value: V) -> (evicted: Option<(u32, V)>)
        requires
            old(self).wf(),
            !keys_of(old(self)@).contains(key),
        ensures
            final(self).wf(),
            final(self).capacity() == old(self).capacity(),
            old(self)@.len() >= old(self).capacity() ==> evicted == Some(old(self)@[0])
                && final(self)@ == old(self)@.drop_first().push((key, value)),
            old(self)@.len() < old(self).capacity() ==> evicted is None && final(self)@ == old(
                self,
            )@.push((key, value)),
    {
        let mut evicted: Option<(u32, V)> = None;
        if self.entries.len() >= self.cap {
            evicted = Some(self.entries.remove(0));
        }
        let ghost before = self.entries@;
        self.entries.push((key, value));
        proof {
            let s = old(self)@;
            let t = self.entries@;
            if s.len() >= self.cap {
                assert(before =~= s.drop_first());
            } else {
                assert(before =~= s);
            }
            assert(keys_of(t) =~= keys_of(before).push(key));
            assert forall|a: int, b: int|
                0 <= a < b < keys_of(t).len() implies keys_of(t)[a] != keys_of(t)[b] by {
                let off = if s.len() >= self.cap { 1int } else { 0int };
                assert(keys_of(t)[a] == keys_of(s)[a + off]);
                if b < keys_of(t).len() - 1 {
                    assert(keys_of(t)[b] == keys_of(s)[b + off]);
                } else {
                    assert(keys_of(s).contains(keys_of(s)[a + off]));
                }
            }
        }
        evicted
    }

    /// Removes `key`'s entry, if any, returning its value.
    pub fn remove(&mut self, key: u32) -> (r: Option<V>)
        requires
            old(self).wf(),
        ensures
            final(self).wf(),
            final(self).capacity() == old(self).capacity(),
            match position_of(old(self)@, key) {
                Some(p) => r == Some(old(self)@[p].1) && final(self)@ == old(self)@.remove(p),
                None => r is None && final(self)@ == old(self)@,
            },
    {
        let mut i: usize = 0;
        while i < self.entries.len()
            invariant
                i <= self.entries@.len(),
                self.entries@ == old(self).entries@,
                self.cap == old(self).cap,
                old(self).wf(),
                forall|k: int| 0 <= k < i ==> self.entries@[k].0 != key,
            decreases self.entries@.len() - i,
        {
            if self.entries[i].0 == key {
                proof {
                    let s = old(self)@;
                    assert(keys_of(s)[i as int] == key);
                    lemma_position_of(s, key, i as int);
                }
                let entry = self.entries.remove(i);
                proof {
                    let s = old(self)@;
                    let t = self.entries@;
                    assert(keys_of(t) =~= keys_of(s).remove(i as int));
                    assert forall|a: int, b: int|
                        0 <= a < b < keys_of(t).len() implies keys_of(t)[a] != keys_of(t)[b] by {
                        let ks = keys_of(s);
                        let ia = if a < i { a } else { a + 1 };
                        let ib = if b < i { b } else { b + 1 };
                        assert(keys_of(t)[a] == ks[ia]);
                        assert(keys_of(t)[b] == ks[ib]);
                    }
                }
                return Some(entry.1);
            }
            i = i + 1;
        }
        proof {
            lemma_position_of(old(self)@, key, i as int);
        }
        None
    }

    /// Every entry, least recently used first; the cache is left empty.
    pub fn drain(&mut self) -> (r: Vec<(u32, V)>)
        requires
            old(self).wf(),
        ensures
            final(self).wf(),
            final(self).capacity() == old(self).capacity(),
            r@ == old(self)@,
            final(self)@.len() == 0,
    {
        let mut out: Vec<(u32, V)> = Vec::new();
        std::mem::swap(&mut out, &mut self.entries);
        proof {
            assert(keys_of(self.entries@) =~= Seq::<u32>::empty());
        }
        out
    }
}

/// Touching an entry only reorders the cache: the same entries stay, each as
/// often as before.
pub proof fn lemma_touch_keeps_contents<V>(s: Seq<(u32, V)>, p: int)
    requires
        0 <= p < s.len(),
    ensures
        s.remove(p).push(s[p]).to_multiset() == s.to_multiset(),
{
    broadcast use vstd::seq_lib::group_to_multiset_ensures;
    broadcast use vstd::multiset::group_multiset_axioms;

    vstd::seq_lib::to_multiset_remove(s, p);
    assert(s.contains(s[p]));
    vstd::seq_lib::to_multiset_contains(s, s[p]);
}

} // verus!
