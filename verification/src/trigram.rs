//! Which documents are worth reading at all.
//!
//! Each document gets a bitmap of the character trigrams it contains. A query
//! can only appear in a document that holds all of the query's trigrams, so a
//! distinctive phrase rules out almost everything without opening a file.
//!
//! It is a filter, not an index: a false positive costs one wasted read,
//! which the ordinary scan then rejects. A false negative would be a wrong
//! answer, so the construction never has one: characters are folded into a
//! small alphabet, which can only make more queries look possible.

use crate::chars::{is_digit, is_space, space};
use vstd::prelude::*;

verus! {

/// Bytes of a filter: one bit for each of 32 * 32 * 32 trigrams.
pub const FILTER_BYTES: usize = 4096;

/// The symbol a character folds to: 26 letters regardless of case, one for
/// all digits, one for whitespace, one for everything else.
pub open spec fn symbol_of(c: char) -> int {
    if 'a' <= c && c <= 'z' {
        c as int - 'a' as int
    } else if 'A' <= c && c <= 'Z' {
        c as int - 'A' as int
    } else if is_digit(c) {
        26
    } else if is_space(c) {
        27
    } else {
        28
    }
}

/// The trigram ending at position `i` of `t`.
pub open spec fn gram_at(t: Seq<char>, i: int) -> int {
    symbol_of(t[i - 2]) * 1024 + symbol_of(t[i - 1]) * 32 + symbol_of(t[i])
}

/// Every trigram of `t`.
pub open spec fn grams_of(t: Seq<char>) -> Set<int> {
    Set::new(|g: int| exists|i: int| 2 <= i < t.len() && gram_at(t, i) == g)
}

/// Whether a filter holding `held` admits query `q`: a query shorter than a
/// trigram carries no information and is always admitted.
pub open spec fn admits(held: Set<int>, q: Seq<char>) -> bool {
    q.len() < 3 || grams_of(q).subset_of(held)
}

pub open spec fn bit_of(bits: Seq<u8>, k: int) -> bool {
    (bits[k / 8] >> ((k % 8) as u8)) & 1u8 == 1u8
}

pub open spec fn held_by(bits: Seq<u8>) -> Set<int> {
    Set::new(|k: int| 0 <= k < 32768 && bit_of(bits, k))
}

proof fn lemma_set_bit(b: u8, s: u8, t: u8)
    requires
        s < 8,
        t < 8,
    ensures
        ((b | (1u8 << s)) >> t) & 1u8 == (if s == t {
            1u8
        } else {
            (b >> t) & 1u8
        }),
{
    assert(((b | (1u8 << s)) >> t) & 1u8 == (if s == t {
        1u8
    } else {
        (b >> t) & 1u8
    })) by (bit_vector)
        requires
            s < 8,
            t < 8,
    ;
}

proof fn lemma_zero_bits(t: u8)
    requires
        t < 8,
    ensures
        (0u8 >> t) & 1u8 == 0u8,
{
    assert((0u8 >> t) & 1u8 == 0u8) by (bit_vector);
}

/// A substring of `t` has no trigram that `t` lacks.
pub proof fn lemma_substring_grams(t: Seq<char>, from: int, to: int)
    requires
        0 <= from <= to <= t.len(),
    ensures
        grams_of(t.subrange(from, to)).subset_of(grams_of(t)),
{
    let q = t.subrange(from, to);
    assert forall|g: int| grams_of(q).contains(g) implies grams_of(t).contains(g) by {
        let i = choose|i: int| 2 <= i < q.len() && gram_at(q, i) == g;
        assert(gram_at(t, i + from) == g);
    }
}

/// No false negatives: once a text has been folded into a filter, every
/// substring of it is admitted.
pub proof fn lemma_no_false_negative(held: Set<int>, t: Seq<char>, from: int, to: int)
    requires
        grams_of(t).subset_of(held),
        0 <= from <= to <= t.len(),
    ensures
        admits(held, t.subrange(from, to)),
{
    lemma_substring_grams(t, from, to);
}

/// Case never causes a miss: two queries that differ only in ASCII letter
/// case are admitted alike.
pub proof fn lemma_case_blind(held: Set<int>, a: Seq<char>, b: Seq<char>)
    requires
        a.len() == b.len(),
        forall|i: int| 0 <= i < a.len() ==> symbol_of(#[trigger] a[i]) == symbol_of(b[i]),
    ensures
        admits(held, a) == admits(held, b),
{
    assert forall|i: int| 2 <= i < a.len() implies gram_at(a, i) == gram_at(b, i) by {
        assert(symbol_of(a[i - 2]) == symbol_of(b[i - 2]));
        assert(symbol_of(a[i - 1]) == symbol_of(b[i - 1]));
        assert(symbol_of(a[i]) == symbol_of(b[i]));
    }
    assert(grams_of(a) =~= grams_of(b)) by {
        assert forall|g: int| grams_of(a).contains(g) implies grams_of(b).contains(g) by {
            let i = choose|i: int| 2 <= i < a.len() && gram_at(a, i) == g;
            assert(gram_at(b, i) == g);
        }
        assert forall|g: int| grams_of(b).contains(g) implies grams_of(a).contains(g) by {
            let i = choose|i: int| 2 <= i < b.len() && gram_at(b, i) == g;
            assert(gram_at(a, i) == g);
        }
    }
}

fn symbol(c: char) -> (r: u8)
    ensures
        r as int == symbol_of(c),
        r < 32,
{
    if 'a' <= c && c <= 'z' {
        ((c as u32) - ('a' as u32)) as u8
    } else if 'A' <= c && c <= 'Z' {
        ((c as u32) - ('A' as u32)) as u8
    } else if '0' <= c && c <= '9' {
        26
    } else if space(c) {
        27
    } else {
        28
    }
}

/// A document's trigrams.
#[derive(Clone)]
pub struct Filter {
    bits: Vec<u8>,
}

impl Filter {
    /// The trigrams this filter holds: the bits set in its stored form.
    pub open spec fn grams(&self) -> Set<int> {
        held_by(self.bytes())
    }

    /// The stored form.
    pub closed spec fn bytes(&self) -> Seq<u8> {
        self.bits@
    }

    /// The stored form is `FILTER_BYTES` long.
    pub open spec fn wf(&self) -> bool {
        self.bytes().len() == FILTER_BYTES
    }

    /// The filter of one text.
    pub fn from_text(text: &str) -> (f: Self)
        ensures
            f.wf(),
            f.grams() == grams_of(text@),
    {
        let mut f = Filter::default();
        f.add(text);
        proof {
            assert(f.grams() =~= grams_of(text@));
        }
        f
    }

    fn set(&mut self, g: usize)
        requires
            old(self).wf(),
            g < 32768,
        ensures
            final(self).wf(),
            final(self).grams() == old(self).grams().insert(g as int),
    {
        let byte = self.bits[g / 8];
        let shift = (g % 8) as u8;
        self.bits.set(g / 8, byte | (1u8 << shift));
        proof {
            assert forall|k: int| #[trigger] self.grams().contains(k) == old(self).grams().insert(
                g as int,
            ).contains(k) by {
                if 0 <= k < 32768 {
                    if k / 8 == g / 8 {
                        lemma_set_bit(byte, shift, (k % 8) as u8);
                    } else {
                        assert(self.bits@[k / 8] == old(self).bits@[k / 8]);
                    }
                }
            }
            assert(self.grams() =~= old(self).grams().insert(g as int));
        }
    }

    fn holds(&self, g: usize) -> (r: bool)
        requires
            self.wf(),
            g < 32768,
        ensures
            r == self.grams().contains(g as int),
    {
        (self.bits[g / 8] >> ((g % 8) as u8)) & 1u8 == 1u8
    }

    /// Folds another page into the same document filter.
    pub fn add(&mut self, text: &str)
        requires
            old(self).wf(),
        ensures
            final(self).wf(),
            final(self).grams() == old(self).grams().union(grams_of(text@)),
    {
        let v = crate::chars::char_vec(text);
        let ghost t = text@;
        let mut i: usize = 2;
        let ghost mut seen: Set<int> = Set::empty();
        while i < v.len()
            invariant
                v@ == t,
                self.wf(),
                2 <= i,
                i <= v@.len() || v@.len() < 2,
                seen == Set::new(|g: int| exists|j: int| 2 <= j < i && j < t.len() && gram_at(t, j) == g),
                self.grams() == old(self).grams().union(seen),
            decreases v@.len() - i,
        {
            let a = symbol(v[i - 2]);
            let b = symbol(v[i - 1]);
            let c = symbol(v[i]);
            let g = (a as usize) * 1024 + (b as usize) * 32 + (c as usize);
            self.set(g);
            proof {
                let next = Set::new(
                    |h: int| exists|j: int| 2 <= j < i + 1 && j < t.len() && gram_at(t, j) == h,
                );
                assert(gram_at(t, i as int) == g);
                assert(next =~= seen.insert(g as int)) by {
                    assert forall|h: int| next.contains(h) implies seen.insert(g as int).contains(h) by {
                        let j = choose|j: int| 2 <= j < i + 1 && j < t.len() && gram_at(t, j) == h;
                        if j < i {
                            assert(seen.contains(h));
                        }
                    }
                }
                seen = next;
                assert(self.grams() =~= old(self).grams().union(seen));
            }
            i += 1;
        }
        proof {
            assert(seen =~= grams_of(t));
        }
    }

    /// Whether this document could contain `query`. A query shorter than a
    /// trigram carries no information here, so it is admitted.
    pub fn might_contain(&self, query: &str) -> (r: bool)
        requires
            self.wf(),
        ensures
            r == admits(self.grams(), query@),
    {
        let v = crate::chars::char_vec(query);
        if v.len() < 3 {
            return true;
        }
        let ghost q = query@;
        let mut possible = true;
        let mut i: usize = 2;
        while i < v.len()
            invariant
                v@ == q,
                self.wf(),
                2 <= i <= v@.len(),
                possible == forall|j: int| 2 <= j < i ==> self.grams().contains(#[trigger] gram_at(q, j)),
            decreases v@.len() - i,
        {
            let a = symbol(v[i - 2]);
            let b = symbol(v[i - 1]);
            let c = symbol(v[i]);
            let g = (a as usize) * 1024 + (b as usize) * 32 + (c as usize);
            proof {
                assert(gram_at(q, i as int) == g);
            }
            if !self.holds(g) {
                possible = false;
            }
            i += 1;
        }
        proof {
            if possible {
                assert forall|g: int| grams_of(q).contains(g) implies self.grams().contains(g) by {
                    let j = choose|j: int| 2 <= j < q.len() && gram_at(q, j) == g;
                }
            } else {
                let j = choose|j: int| 2 <= j < q.len() && !self.grams().contains(#[trigger] gram_at(q, j));
                assert(grams_of(q).contains(gram_at(q, j)));
            }
        }
        possible
    }

    /// The stored form.
    pub fn as_bytes(&self) -> (r: &[u8])
        requires
            self.wf(),
        ensures
            r@ == self.bytes(),
            r@.len() == FILTER_BYTES,
    {
        self.bits.as_slice()
    }

    /// Rebuilds a filter from stored bytes, or nothing if they are not one.
    pub fn from_bytes(bytes: Vec<u8>) -> (r: Option<Self>)
        ensures
            match r {
                Some(f) => bytes@.len() == FILTER_BYTES && f.wf() && f.bytes() == bytes@
                    && f.grams() == held_by(bytes@),
                None => bytes@.len() != FILTER_BYTES,
            },
    {
        if bytes.len() == FILTER_BYTES {
            Some(Filter { bits: bytes })
        } else {
            None
        }
    }
}

impl Default for Filter {
    /// An empty filter: it admits only queries too short to judge.
    fn default() -> (f: Self)
        ensures
            f.wf(),
            f.grams() == Set::<int>::empty(),
    {
        let mut bits: Vec<u8> = Vec::new();
        let mut i: usize = 0;
        while i < FILTER_BYTES
            invariant
                i <= FILTER_BYTES,
                bits@.len() == i,
                forall|j: int| 0 <= j < i ==> bits@[j] == 0u8,
            decreases FILTER_BYTES - i,
        {
            bits.push(0);
            i += 1;
        }
        let f = Filter { bits };
        proof {
            assert forall|k: int| !f.grams().contains(k) by {
                if 0 <= k < 32768 {
                    lemma_zero_bits((k % 8) as u8);
                }
            }
            assert(f.grams() =~= Set::<int>::empty());
        }
        f
    }

}

/// A filter's trigrams are a function of its stored bytes, so a filter read
/// back from what `as_bytes` gave answers exactly as the filter it came from did.
pub proof fn lemma_bytes_round_trip(a: Filter, b: Filter)
    requires
        a.bytes() == b.bytes(),
    ensures
        a.grams() == b.grams(),
        forall|q: Seq<char>| admits(a.grams(), q) == admits(b.grams(), q),
{
}

} // verus!
