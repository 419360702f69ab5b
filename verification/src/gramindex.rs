//! Which documents could contain a phrase, without asking any of them.
//!
//! A gram names the documents that contain it, so a query reads only the
//! posting lists for its own grams and never touches the rest of the library.
//!
//! * Common grams are dropped: a gram in more than a seventh or so of the
//!   library narrows nothing and costs the most storage.
//! * Dropped is not the same as absent: a dropped gram is still recorded,
//!   marked as carrying no information, because "in no document" means the
//!   answer is empty while "in too many" means this gram cannot help.
//! * A document whose text could not be read is recorded as one the index
//!   knows nothing about, and offered as a candidate for every query.
//!
//! Grams are four bytes, read little-endian; a multi-byte character is split
//! the same way when indexing and when querying.

use crate::search::sum_by;
use vstd::prelude::*;

verus! {

/// Marks a dropped gram in the directory.
pub const DROPPED: u32 = 0xffff_ffff;

pub const MAGIC: u32 = 0x5350_4749;

pub const VERSION: u32 = 1;

pub const FNV_OFFSET: u64 = 0xcbf2_9ce4_8422_2325;

pub const FNV_PRIME: u64 = 0x0000_0100_0000_01b3;

// ---------------------------------------------------------------------------
// Sorting, which std does for us.

pub open spec fn ascending(s: Seq<u64>) -> bool {
    forall|i: int, j: int| 0 <= i <= j < s.len() ==> s[i] <= s[j]
}

/// Calls `slice::sort_unstable`, which std documents as sorting the slice in
/// ascending order; the result holds the same values.
#[verifier::external_body]
fn sort_keys(v: &mut Vec<u64>)
    ensures
        final(v)@.to_multiset() == old(v)@.to_multiset(),
        ascending(final(v)@),
{
    v.sort_unstable();
}

// ---------------------------------------------------------------------------
// Document signatures.

/// FNV-1a over `b`.
pub open spec fn fnv(b: Seq<u8>) -> u64
    decreases b.len(),
{
    if b.len() == 0 {
        FNV_OFFSET
    } else {
        (fnv(b.drop_last()) ^ (b.last() as u64)).wrapping_mul(FNV_PRIME)
    }
}

pub open spec fn rotl(x: u64, r: u64) -> u64 {
    (x << r) | (x >> ((64 - r) as u64))
}

/// The hash of one document: its path's bytes, modification time and size.
pub open spec fn doc_hash(path: Seq<char>, mtime_ms: u64, size: u64) -> u64 {
    fnv(vstd::utf8::encode_utf8(path)) ^ rotl(mtime_ms, 17) ^ rotl(size, 31)
}

pub open spec fn doc_hash_w() -> spec_fn((String, u64, u64)) -> int {
    |d: (String, u64, u64)| doc_hash(d.0@, d.1, d.2) as int
}

/// The signature of a document set: the sum of the document hashes,
/// wrapping at 2^64, so the order of the documents does not matter.
pub open spec fn signature_spec(documents: Seq<(String, u64, u64)>) -> u64 {
    (sum_by(documents, doc_hash_w()) % 0x1_0000_0000_0000_0000) as u64
}

proof fn lemma_sum_concat<T>(a: Seq<T>, b: Seq<T>, f: spec_fn(T) -> int)
    ensures
        sum_by(a + b, f) == sum_by(a, f) + sum_by(b, f),
    decreases b.len(),
{
    if b.len() == 0 {
        assert(a + b =~= a);
    } else {
        lemma_sum_concat(a, b.drop_last(), f);
        assert((a + b).drop_last() =~= a + b.drop_last());
    }
}

/// Order is not part of a document set's identity: the signature of two
/// groups of documents is the same whichever comes first.
pub proof fn lemma_signature_order_free(a: Seq<(String, u64, u64)>, b: Seq<(String, u64, u64)>)
    ensures
        signature_spec(a + b) == signature_spec(b + a),
{
    lemma_sum_concat(a, b, doc_hash_w());
    lemma_sum_concat(b, a, doc_hash_w());
}

proof fn lemma_sum_same_multiset<T>(a: Seq<T>, b: Seq<T>, f: spec_fn(T) -> int)
    requires
        a.to_multiset() == b.to_multiset(),
    ensures
        sum_by(a, f) == sum_by(b, f),
    decreases a.len(),
{
    broadcast use vstd::seq_lib::group_to_multiset_ensures;
    broadcast use vstd::multiset::group_multiset_axioms;

    if a.len() == 0 {
        assert(b.to_multiset().len() == 0);
        assert(b.len() == 0);
    } else {
        let x = a.last();
        assert(a.to_multiset().count(x) > 0) by {
            assert(a.contains(x)) by {
                assert(a[a.len() - 1] == x);
            }
        }
        assert(b.contains(x));
        let j = choose|j: int| 0 <= j < b.len() && b[j] == x;
        vstd::seq_lib::to_multiset_remove(b, j);
        assert(a.drop_last().push(x) =~= a);
        vstd::seq_lib::to_multiset_build(a.drop_last(), x);
        assert(a.drop_last().to_multiset() =~= b.remove(j).to_multiset());
        lemma_sum_same_multiset(a.drop_last(), b.remove(j), f);
        crate::search::lemma_sum_remove(b, j, f);
    }
}

/// Order is not part of a document set's identity: any rearrangement of the
/// same documents has the same signature.
pub proof fn lemma_signature_permutation_free(a: Seq<(String, u64, u64)>, b: Seq<(String, u64, u64)>)
    requires
        a.to_multiset() == b.to_multiset(),
    ensures
        signature_spec(a) == signature_spec(b),
{
    lemma_sum_same_multiset(a, b, doc_hash_w());
}

pub(crate) fn fnv_bytes(b: &[u8]) -> (h: u64)
    ensures
        h == fnv(b@),
{
    let mut h: u64 = FNV_OFFSET;
    let mut i: usize = 0;
    while i < b.len()
        invariant
            i <= b@.len(),
            h == fnv(b@.take(i as int)),
        decreases b@.len() - i,
    {
        proof {
            assert(b@.take(i + 1).drop_last() =~= b@.take(i as int));
        }
        h = (h ^ (b[i] as u64)).wrapping_mul(FNV_PRIME);
        i += 1;
    }
    proof {
        assert(b@.take(i as int) =~= b@);
    }
    h
}

/// A cheap identity for a set of documents (path, modification time, size):
/// order-independent, so a rescan that returns the same files in a different
/// order does not look like a change.
pub fn signature_of(documents: &[(String, u64, u64)]) -> (r: u64)
    ensures
        r == signature_spec(documents@),
{
    let mut total: u64 = 0;
    let mut i: usize = 0;
    while i < documents.len()
        invariant
            i <= documents@.len(),
            total == signature_spec(documents@.take(i as int)),
        decreases documents@.len() - i,
    {
        let path = &documents[i].0;
        let mtime = documents[i].1;
        let size = documents[i].2;
        let hash = fnv_bytes(path.as_str().as_bytes()) ^ ((mtime << 17u64) | (mtime >> 47u64)) ^ ((
        size << 31u64) | (size >> 33u64));
        proof {
            let t = documents@.take(i as int);
            assert(documents@.take(i + 1).drop_last() =~= t);
            assert(hash == doc_hash(documents@[i as int].0@, mtime, size));
            let s = sum_by(t, doc_hash_w());
            assert(sum_by(documents@.take(i + 1), doc_hash_w()) == s + hash);
            lemma_sum_nonneg_hash(t);
            assert(total == (s % 0x1_0000_0000_0000_0000) as u64);
            assert(((s % 0x1_0000_0000_0000_0000) + hash) % 0x1_0000_0000_0000_0000 == (s + hash)
                % 0x1_0000_0000_0000_0000) by (nonlinear_arith)
                requires
                    s >= 0,
                    hash >= 0,
            ;
        }
        total = total.wrapping_add(hash);
        i += 1;
    }
    proof {
        assert(documents@.take(i as int) =~= documents@);
    }
    total
}

proof fn lemma_sum_nonneg_hash(t: Seq<(String, u64, u64)>)
    ensures
        sum_by(t, doc_hash_w()) >= 0,
{
    assert forall|j: int| 0 <= j < t.len() implies 0 <= #[trigger] doc_hash_w()(t[j]) by {}
    crate::search::lemma_sum_nonneg(t, doc_hash_w());
}


// ---------------------------------------------------------------------------
// The index.

/// What the index can say about a query.
#[derive(Debug, PartialEq)]
pub enum Candidates {
    /// These documents, and no others, can contain the phrase.
    Only(Vec<u32>),
    /// The index cannot narrow this query: every gram in it was too common.
    Unknown,
}

/// The gram of the four bytes of `b` at `i`, read little-endian.
pub open spec fn le32(b: Seq<u8>, i: int) -> int {
    b[i] as int + 256 * (b[i + 1] as int) + 65536 * (b[i + 2] as int) + 16777216 * (b[i + 3] as int)
}

/// `b` has a gram window starting at `i`.
pub open spec fn window(b: Seq<u8>, i: int) -> bool {
    0 <= i && i + 4 <= b.len()
}

pub open spec fn dir_sorted(d: Seq<(u32, u32, u32)>) -> bool {
    forall|i: int, j: int| 0 <= i < j < d.len() ==> (#[trigger] d[i]).0 < (#[trigger] d[j]).0
}

pub open spec fn ranges_inside(d: Seq<(u32, u32, u32)>, postings_len: int) -> bool {
    forall|j: int|
        0 <= j < d.len() ==> (#[trigger] d[j]).2 == DROPPED || d[j].1 + d[j].2 <= postings_len
}

/// The posting list of directory entry `j`.
pub open spec fn list_of(d: Seq<(u32, u32, u32)>, p: Seq<u32>, j: int) -> Seq<u32> {
    p.subrange(d[j].1 as int, d[j].1 + d[j].2)
}

/// No directory entry is for gram `g`.
pub open spec fn absent(d: Seq<(u32, u32, u32)>, g: int) -> bool {
    forall|j: int| 0 <= j < d.len() ==> (#[trigger] d[j]).0 != g
}

/// Directory entry `j` is for a gram of query bytes `qb` and was kept.
pub open spec fn usable(d: Seq<(u32, u32, u32)>, qb: Seq<u8>, j: int) -> bool {
    &&& 0 <= j < d.len()
    &&& d[j].2 != DROPPED
    &&& exists|i: int| window(qb, i) && d[j].0 == le32(qb, i)
}

/// `r` lists, in increasing order and once each, the values satisfying `p`.
pub open spec fn enumerates(r: Seq<u32>, p: spec_fn(u32) -> bool) -> bool {
    &&& forall|i: int, j: int| 0 <= i < j < r.len() ==> r[i] < r[j]
    &&& forall|x: u32| #[trigger] r.contains(x) <==> p(x)
}

/// What the index says about query bytes `qb`.
///
/// * Shorter than a gram: nothing.
/// * Some gram of the query is in no document: only the documents the index
///   knows nothing about.
/// * Every gram of the query was too common: nothing.
/// * Otherwise: the documents holding every kept gram of the query, together
///   with those the index knows nothing about.
pub open spec fn candidates_ok(
    d: Seq<(u32, u32, u32)>,
    p: Seq<u32>,
    always: Seq<u32>,
    qb: Seq<u8>,
    r: Candidates,
) -> bool {
    if qb.len() < 4 {
        r is Unknown
    } else if exists|i: int| window(qb, i) && absent(d, le32(qb, i)) {
        r matches Candidates::Only(v) && v@ == always
    } else if forall|j: int| !usable(d, qb, j) {
        r is Unknown
    } else {
        r matches Candidates::Only(v) && enumerates(v@, |x: u32| in_result(always, d, p, qb, x))
    }
}

pub struct GramIndex {
    /// Documents by slot, in the order postings refer to them.
    documents: Vec<String>,
    /// (gram, start, len) sorted by gram; `len == DROPPED` marks a gram that
    /// was too common to keep.
    directory: Vec<(u32, u32, u32)>,
    postings: Vec<u32>,
    /// Slots with no indexed text, which must be considered for every query.
    always: Vec<u32>,
    /// Identifies the document set this was built from.
    signature: u64,
}

impl GramIndex {
    pub closed spec fn paths(&self) -> Seq<Seq<char>> {
        string_views(self.documents@)
    }

    pub closed spec fn dir(&self) -> Seq<(u32, u32, u32)> {
        self.directory@
    }

    pub closed spec fn posts(&self) -> Seq<u32> {
        self.postings@
    }

    pub closed spec fn unread(&self) -> Seq<u32> {
        self.always@
    }

    pub closed spec fn spec_signature(&self) -> u64 {
        self.signature
    }

    /// Grams are in increasing order and every posting range lies inside the
    /// postings.
    pub closed spec fn wf(&self) -> bool {
        &&& dir_sorted(self.directory@)
        &&& ranges_inside(self.directory@, self.postings@.len() as int)
    }

    pub fn signature(&self) -> (r: u64)
        ensures
            r == self.spec_signature(),
    {
        self.signature
    }

    /// The path of the document in `slot`.
    pub fn document(&self, slot: u32) -> (r: Option<&str>)
        ensures
            match r {
                Some(p) => slot < self.paths().len() && p@ == self.paths()[slot as int],
                None => slot >= self.paths().len(),
            },
    {
        if (slot as usize) < self.documents.len() {
            Some(self.documents[slot as usize].as_str())
        } else {
            None
        }
    }

    /// The directory entry for `gram`.
    fn lookup(&self, gram: u32) -> (r: Option<usize>)
        requires
            self.wf(),
        ensures
            match r {
                Some(j) => j < self.directory@.len() && self.directory@[j as int].0 == gram,
                None => absent(self.directory@, gram as int),
            },
    {
        let mut lo: usize = 0;
        let mut hi: usize = self.directory.len();
        while lo < hi
            invariant
                self.wf(),
                lo <= hi <= self.directory@.len(),
                forall|j: int| 0 <= j < lo ==> (#[trigger] self.directory@[j]).0 < gram,
                forall|j: int| hi <= j < self.directory@.len() ==> (#[trigger] self.directory@[j]).0
                    > gram,
            decreases hi - lo,
        {
            let mid = lo + (hi - lo) / 2;
            let g = self.directory[mid].0;
            if g == gram {
                return Some(mid);
            } else if g < gram {
                proof {
                    assert forall|j: int| 0 <= j < mid + 1 implies (
                    #[trigger] self.directory@[j]).0 < gram by {
                        if j < mid {
                            assert(self.directory@[j].0 < self.directory@[mid as int].0);
                        }
                    }
                }
                lo = mid + 1;
            } else {
                proof {
                    assert forall|j: int| mid <= j < self.directory@.len() implies (
                    #[trigger] self.directory@[j]).0 > gram by {
                        if j > mid {
                            assert(self.directory@[mid as int].0 < self.directory@[j].0);
                        }
                    }
                }
                hi = mid;
            }
        }
        None
    }

    fn in_list(&self, j: usize, x: u32) -> (r: bool)
        requires
            self.wf(),
            j < self.directory@.len(),
            self.directory@[j as int].2 != DROPPED,
        ensures
            r == list_of(self.directory@, self.postings@, j as int).contains(x),
    {
        let start = self.directory[j].1 as usize;
        let len = self.directory[j].2 as usize;
        let plen = self.postings.len();
        let ghost l = list_of(self.directory@, self.postings@, j as int);
        let mut k: usize = 0;
        while k < len
            invariant
                plen == self.postings@.len(),
                self.wf(),
                j < self.directory@.len(),
                start == self.directory@[j as int].1,
                len == self.directory@[j as int].2,
                start + len <= self.postings@.len(),
                l == list_of(self.directory@, self.postings@, j as int),
                k <= len,
                forall|i: int| 0 <= i < k ==> l[i] != x,
            decreases len - k,
        {
            if self.postings[start + k] == x {
                proof {
                    assert(l[k as int] == x);
                }
                return true;
            }
            k += 1;
        }
        proof {
            if l.contains(x) {
                let i = choose|i: int| 0 <= i < l.len() && l[i] == x;
                assert(l[i] == x);
            }
        }
        false
    }

    /// The documents that could contain `query`.
    pub fn candidates(&self, query: &str) -> (r: Candidates)
        requires
            self.wf(),
        ensures
            candidates_ok(
                self.dir(),
                self.posts(),
                self.unread(),
                vstd::utf8::encode_utf8(query@),
                r,
            ),
    {
        let bytes = query.as_bytes();
        let ghost qb = bytes@;
        let ghost d = self.directory@;
        let ghost p = self.postings@;
        let ghost al = self.always@;
        let plen = self.postings.len();
        if bytes.len() < 4 {
            return Candidates::Unknown;
        }
        let mut usable_entries: Vec<usize> = Vec::new();
        let mut i: usize = 0;
        while i < bytes.len() - 3
            invariant
                qb == bytes@,
                qb == vstd::utf8::encode_utf8(query@),
                d == self.directory@,
                p == self.postings@,
                al == self.always@,
                self.wf(),
                qb.len() >= 4,
                i <= qb.len() - 3,
                forall|w: int| 0 <= w < i ==> !absent(d, le32(qb, w)),
                forall|k: int| 0 <= k < usable_entries@.len() ==> usable(d, qb, #[trigger] usable_entries@[k] as int),
                forall|w: int, j: int|
                    0 <= w < i && 0 <= j < d.len() && d[j].0 == le32(qb, w) && d[j].2 != DROPPED
                        ==> listed(usable_entries@, j),
            decreases qb.len() - i,
        {
            let g: u32 = (bytes[i] as u32) + 256 * (bytes[i + 1] as u32) + 65536 * (bytes[i + 2] as u32)
                + 16777216 * (bytes[i + 3] as u32);
            proof {
                assert(g == le32(qb, i as int));
            }
            let ghost before = usable_entries@;
            match self.lookup(g) {
                None => {
                    let r = Candidates::Only(copy_slots(&self.always));
                    proof {
                        assert(window(qb, i as int) && absent(d, le32(qb, i as int)));
                        assert(qb == vstd::utf8::encode_utf8(query@));
                        assert(candidates_ok(d, p, al, qb, r));
                    }
                    return r;
                },
                Some(j) => {
                    if self.directory[j].2 != DROPPED {
                        proof {
                            assert(window(qb, i as int) && d[j as int].0 == le32(qb, i as int));
                            assert(usable(d, qb, j as int));
                        }
                        usable_entries.push(j);
                    }
                    proof {
                        assert forall|w: int, jj: int|
                            0 <= w < i + 1 && 0 <= jj < d.len() && d[jj].0 == le32(qb, w) && d[jj].2
                                != DROPPED implies listed(usable_entries@, jj) by {
                            if w == i {
                                if jj != j {
                                    if jj < j {
                                        assert(d[jj].0 < d[j as int].0);
                                    } else {
                                        assert(d[j as int].0 < d[jj].0);
                                    }
                                }
                                assert(usable_entries@[usable_entries@.len() - 1] as int == jj);
                            } else {
                                assert(listed(before, jj));
                                let k = choose|k: int| 0 <= k < before.len() && before[k] as int == jj;
                                assert(usable_entries@[k] == before[k]);
                            }
                        }
                    }
                },
            }
            i += 1;
        }
        if usable_entries.len() == 0 {
            proof {
                assert forall|j: int| !usable(d, qb, j) by {
                    if usable(d, qb, j) {
                        let w = choose|w: int| window(qb, w) && d[j].0 == le32(qb, w);
                        assert(listed(usable_entries@, j));
                    }
                }
            }
            return Candidates::Unknown;
        }
        // Start from the shortest list: intersecting a short list into a
        // long one costs the length of the short one.
        let mut best: usize = 0;
        let mut k: usize = 1;
        while k < usable_entries.len()
            invariant
                1 <= k <= usable_entries@.len(),
                best < usable_entries@.len(),
                forall|m: int| 0 <= m < usable_entries@.len() ==> usable(d, qb, #[trigger] usable_entries@[m] as int),
                d == self.directory@,
            decreases usable_entries@.len() - k,
        {
            if self.directory[usable_entries[k]].2 < self.directory[usable_entries[best]].2 {
                best = k;
            }
            k += 1;
        }
        let first = usable_entries[best];
        let start = self.directory[first].1 as usize;
        let len = self.directory[first].2 as usize;
        let ghost fl = list_of(d, p, first as int);
        let mut keys: Vec<u64> = Vec::new();
        let mut a: usize = 0;
        while a < len
            invariant
                self.wf(),
                d == self.directory@,
                p == self.postings@,
                al == self.always@,
                plen == p.len(),
                qb == bytes@,
                usable(d, qb, first as int),
                start == d[first as int].1,
                len == d[first as int].2,
                start + len <= p.len(),
                fl == list_of(d, p, first as int),
                a <= len,
                forall|m: int| 0 <= m < usable_entries@.len() ==> usable(d, qb, #[trigger] usable_entries@[m] as int),
                forall|w: int, j: int|
                    window(qb, w) && 0 <= j < d.len() && d[j].0 == le32(qb, w) && d[j].2 != DROPPED
                        ==> listed(usable_entries@, j),
                forall|x: u64| #[trigger] keys@.contains(x) ==> x < 0x1_0000_0000 && in_result(al, d, p, qb, x as u32),
                forall|m: int|
                    0 <= m < a ==> in_result(al, d, p, qb, #[trigger] fl[m]) ==> keys@.contains(fl[m] as u64),
            decreases len - a,
        {
            let x = self.postings[start + a];
            proof {
                assert(fl[a as int] == x);
            }
            let mut all = true;
            let mut b: usize = 0;
            while b < usable_entries.len()
                invariant
                    self.wf(),
                    d == self.directory@,
                    p == self.postings@,
                    b <= usable_entries@.len(),
                    forall|m: int| 0 <= m < usable_entries@.len() ==> usable(d, qb, #[trigger] usable_entries@[m] as int),
                    all == forall|m: int| 0 <= m < b ==> list_of(d, p, #[trigger] usable_entries@[m] as int).contains(x),
                decreases usable_entries@.len() - b,
            {
                if !self.in_list(usable_entries[b], x) {
                    all = false;
                }
                b += 1;
            }
            proof {
                if all {
                    assert forall|j: int| usable(d, qb, j) implies list_of(d, p, j).contains(x) by {
                        let w = choose|w: int| window(qb, w) && d[j].0 == le32(qb, w);
                        assert(listed(usable_entries@, j));
                        let m = choose|m: int| 0 <= m < usable_entries@.len() && usable_entries@[m] as int == j;
                        assert(list_of(d, p, usable_entries@[m] as int).contains(x));
                    }
                    assert(in_result(al, d, p, qb, x));
                } else {
                    let m = choose|m: int| 0 <= m < usable_entries@.len() && !list_of(d, p, #[trigger] usable_entries@[m] as int).contains(x);
                    assert(usable(d, qb, usable_entries@[m] as int));
                    if al.contains(x) {
                        assert(in_result(al, d, p, qb, x));
                    }
                }
            }
            let ghost before = keys@;
            if all || contains_slot(&self.always, x) {
                keys.push(x as u64);
            }
            proof {
                assert forall|y: u64| #[trigger] keys@.contains(y) implies y < 0x1_0000_0000 && in_result(al, d, p, qb, y as u32) by {
                    if !before.contains(y) {
                        assert(y == x as u64);
                    }
                }
                assert forall|m: int| 0 <= m < a + 1 implies in_result(al, d, p, qb, #[trigger] fl[m]) ==> keys@.contains(fl[m] as u64) by {
                    if m < a && in_result(al, d, p, qb, fl[m]) {
                        assert(before.contains(fl[m] as u64));
                        let q = choose|q: int| 0 <= q < before.len() && before[q] == fl[m] as u64;
                        assert(keys@[q] == before[q]);
                    }
                    if m == a && in_result(al, d, p, qb, fl[m]) {
                        assert(keys@[keys@.len() - 1] == fl[m] as u64);
                    }
                }
            }
            a += 1;
        }
        let mut c: usize = 0;
        while c < self.always.len()
            invariant
                al == self.always@,
                c <= al.len(),
                forall|x: u64| #[trigger] keys@.contains(x) ==> x < 0x1_0000_0000 && in_result(al, d, p, qb, x as u32),
                forall|m: int| 0 <= m < fl.len() ==> in_result(al, d, p, qb, #[trigger] fl[m]) ==> keys@.contains(fl[m] as u64),
                forall|m: int| 0 <= m < c ==> keys@.contains(#[trigger] al[m] as u64),
            decreases al.len() - c,
        {
            let ghost before = keys@;
            keys.push(self.always[c] as u64);
            proof {
                assert(al.contains(al[c as int]));
                assert(in_result(al, d, p, qb, al[c as int]));
                assert forall|y: u64| #[trigger] keys@.contains(y) implies y < 0x1_0000_0000 && in_result(al, d, p, qb, y as u32) by {
                    if !before.contains(y) {
                        assert(y == al[c as int] as u64);
                    }
                }
                assert forall|m: int| 0 <= m < fl.len() implies in_result(al, d, p, qb, #[trigger] fl[m]) ==> keys@.contains(fl[m] as u64) by {
                    if in_result(al, d, p, qb, fl[m]) {
                        let q = choose|q: int| 0 <= q < before.len() && before[q] == fl[m] as u64;
                        assert(keys@[q] == before[q]);
                    }
                }
                assert forall|m: int| 0 <= m < c + 1 implies keys@.contains(#[trigger] al[m] as u64) by {
                    if m < c {
                        let q = choose|q: int| 0 <= q < before.len() && before[q] == al[m] as u64;
                        assert(keys@[q] == before[q]);
                    } else {
                        assert(keys@[keys@.len() - 1] == al[m] as u64);
                    }
                }
            }
            c += 1;
        }
        let ghost collected = keys@;
        sort_keys(&mut keys);
        proof {
            keys@.to_multiset_ensures();
            collected.to_multiset_ensures();
            assert forall|x: u64| #[trigger] keys@.contains(x) == collected.contains(x) by {
                assert(keys@.to_multiset().count(x) == collected.to_multiset().count(x));
            }
        }
        let out = distinct_slots(&keys);
        proof {
            assert forall|x: u32| out@.contains(x) <==> #[trigger] in_result(al, d, p, qb, x) by {
                if in_result(al, d, p, qb, x) {
                    if al.contains(x) {
                        let m = choose|m: int| 0 <= m < al.len() && al[m] == x;
                        assert(collected.contains(al[m] as u64));
                    } else {
                        assert(fl.contains(x));
                        let m = choose|m: int| 0 <= m < fl.len() && fl[m] == x;
                        assert(collected.contains(fl[m] as u64));
                    }
                    assert(keys@.contains(x as u64));
                }
                if out@.contains(x) {
                    assert(keys@.contains(x as u64));
                    assert(collected.contains(x as u64));
                }
            }
        }
        Candidates::Only(out)
    }
}

/// `s` names directory entry `j`.
pub open spec fn listed(s: Seq<usize>, j: int) -> bool {
    exists|m: int| 0 <= m < s.len() && s[m] as int == j
}

/// A slot belongs in a narrowed answer: the index knows nothing of it, or it
/// holds every kept gram of the query.
pub open spec fn in_result(
    always: Seq<u32>,
    d: Seq<(u32, u32, u32)>,
    p: Seq<u32>,
    qb: Seq<u8>,
    x: u32,
) -> bool {
    always.contains(x) || forall|j: int| usable(d, qb, j) ==> list_of(d, p, j).contains(x)
}

fn copy_slots(v: &Vec<u32>) -> (r: Vec<u32>)
    ensures
        r@ == v@,
{
    let mut r: Vec<u32> = Vec::new();
    let mut i: usize = 0;
    while i < v.len()
        invariant
            i <= v@.len(),
            r@ == v@.take(i as int),
        decreases v@.len() - i,
    {
        r.push(v[i]);
        i += 1;
        proof {
            assert(r@ =~= v@.take(i as int));
        }
    }
    proof {
        assert(v@.take(i as int) =~= v@);
    }
    r
}

fn contains_slot(v: &Vec<u32>, x: u32) -> (r: bool)
    ensures
        r == v@.contains(x),
{
    let mut i: usize = 0;
    while i < v.len()
        invariant
            i <= v@.len(),
            forall|m: int| 0 <= m < i ==> v@[m] != x,
        decreases v@.len() - i,
    {
        if v[i] == x {
            proof {
                assert(v@[i as int] == x);
            }
            return true;
        }
        i += 1;
    }
    false
}

/// The distinct values of ascending `keys`, all below 2^32, as slots.
fn distinct_slots(keys: &Vec<u64>) -> (out: Vec<u32>)
    requires
        ascending(keys@),
        forall|x: u64| #[trigger] keys@.contains(x) ==> x < 0x1_0000_0000,
    ensures
        forall|i: int, j: int| 0 <= i < j < out@.len() ==> out@[i] < out@[j],
        forall|x: u32| out@.contains(x) <==> keys@.contains(x as u64),
{
    let mut out: Vec<u32> = Vec::new();
    let mut i: usize = 0;
    while i < keys.len()
        invariant
            ascending(keys@),
            forall|x: u64| #[trigger] keys@.contains(x) ==> x < 0x1_0000_0000,
            i <= keys@.len(),
            forall|a: int, b: int| 0 <= a < b < out@.len() ==> out@[a] < out@[b],
            forall|x: u32| out@.contains(x) <==> exists|m: int| 0 <= m < i && keys@[m] == x as u64,
            out@.len() > 0 ==> i > 0 && out@.last() as u64 == keys@[i - 1],
        decreases keys@.len() - i,
    {
        let k = keys[i];
        proof {
            assert(keys@.contains(k));
        }
        let ghost before = out@;
        if out.len() == 0 || (out[out.len() - 1] as u64) < k {
            out.push(k as u32);
            proof {
                assert forall|x: u32| out@.contains(x) <==> exists|m: int| 0 <= m < i + 1 && keys@[m] == x as u64 by {
                    if out@.contains(x) {
                        let q = choose|q: int| 0 <= q < out@.len() && out@[q] == x;
                        if q < before.len() {
                            assert(before.contains(x));
                            let m = choose|m: int| 0 <= m < i && keys@[m] == x as u64;
                        } else {
                            assert(keys@[i as int] == x as u64);
                        }
                    }
                    if exists|m: int| 0 <= m < i + 1 && keys@[m] == x as u64 {
                        let m = choose|m: int| 0 <= m < i + 1 && keys@[m] == x as u64;
                        if m < i {
                            assert(before.contains(x));
                            let q = choose|q: int| 0 <= q < before.len() && before[q] == x;
                            assert(out@[q] == x);
                        } else {
                            assert(out@.last() == x);
                        }
                    }
                }
            }
        } else {
            proof {
                assert(keys@[i - 1] <= keys@[i as int]);
                assert(out@.last() as u64 == k);
                assert forall|x: u32| out@.contains(x) <==> exists|m: int| 0 <= m < i + 1 && keys@[m] == x as u64 by {
                    if exists|m: int| 0 <= m < i + 1 && keys@[m] == x as u64 {
                        let m = choose|m: int| 0 <= m < i + 1 && keys@[m] == x as u64;
                        if m == i {
                            assert(out@[out@.len() - 1] == x);
                        }
                    }
                }
            }
        }
        i += 1;
    }
    proof {
        assert forall|x: u32| out@.contains(x) <==> keys@.contains(x as u64) by {
            if keys@.contains(x as u64) {
                let m = choose|m: int| 0 <= m < keys@.len() && keys@[m] == x as u64;
            }
        }
    }
    out
}


// ---------------------------------------------------------------------------
// Building.

/// `t` contains gram `g` somewhere.
pub open spec fn has_gram(t: Seq<u8>, g: int) -> bool {
    exists|i: int| window(t, i) && le32(t, i) == g
}

/// `text` was read and holds gram `g`.
pub open spec fn holds(text: Option<Seq<u8>>, g: int) -> bool {
    text matches Some(t) && has_gram(t, g)
}

/// The slots, in order, of the first `n` documents whose text holds `g`.
pub open spec fn holders_upto(texts: Seq<Option<Seq<u8>>>, g: int, n: int) -> Seq<u32>
    decreases n,
{
    if n <= 0 || n > texts.len() {
        Seq::empty()
    } else if holds(texts[n - 1], g) {
        holders_upto(texts, g, n - 1).push((n - 1) as u32)
    } else {
        holders_upto(texts, g, n - 1)
    }
}

pub open spec fn holders(texts: Seq<Option<Seq<u8>>>, g: int) -> Seq<u32> {
    holders_upto(texts, g, texts.len() as int)
}

/// The slots, in order, of the first `n` documents whose text could not be read.
pub open spec fn unread_upto(texts: Seq<Option<Seq<u8>>>, n: int) -> Seq<u32>
    decreases n,
{
    if n <= 0 || n > texts.len() {
        Seq::empty()
    } else if texts[n - 1] is None {
        unread_upto(texts, n - 1).push((n - 1) as u32)
    } else {
        unread_upto(texts, n - 1)
    }
}

/// A gram held by more documents than this is dropped: fifteen percent of
/// the library, rounded up, and at least one.
pub open spec fn cutoff(n: int) -> int {
    let c = (15 * n + 99) / 100;
    if c < 1 {
        1
    } else {
        c
    }
}

/// Postings of the kept entries before entry `j`.
pub open spec fn kept_before(d: Seq<(u32, u32, u32)>, j: int) -> int
    decreases j,
{
    if j <= 0 || j > d.len() {
        0
    } else {
        kept_before(d, j - 1) + if d[j - 1].2 == DROPPED {
            0
        } else {
            d[j - 1].2 as int
        }
    }
}

/// Entry `j` of directory `d` over postings `p` is right for `texts`: a gram
/// held by more than the cutoff is recorded as dropped; any other carries
/// exactly its holders, laid out after the postings of the entries before it.
pub open spec fn entry_ok(
    texts: Seq<Option<Seq<u8>>>,
    d: Seq<(u32, u32, u32)>,
    p: Seq<u32>,
    j: int,
) -> bool {
    let h = holders(texts, d[j].0 as int);
    if h.len() > cutoff(texts.len() as int) {
        d[j].1 == 0 && d[j].2 == DROPPED
    } else {
        d[j].1 == kept_before(d, j) && d[j].2 == h.len() && list_of(d, p, j) == h
    }
}

/// The index described by (`d`, `p`, `always`) is the one `texts` give.
pub open spec fn indexes(
    texts: Seq<Option<Seq<u8>>>,
    d: Seq<(u32, u32, u32)>,
    p: Seq<u32>,
    always: Seq<u32>,
) -> bool {
    &&& always == unread_upto(texts, texts.len() as int)
    &&& dir_sorted(d)
    &&& forall|g: int| #[trigger] dir_has(d, g) <==> holders(texts, g).len() > 0
    &&& forall|j: int| 0 <= j < d.len() ==> entry_ok(texts, d, p, j)
    &&& p.len() == kept_before(d, d.len() as int)
}

pub open spec fn text_bytes(texts: Seq<Option<Seq<u8>>>) -> int
    decreases texts.len(),
{
    if texts.len() == 0 {
        0
    } else {
        text_bytes(texts.drop_last()) + match texts.last() {
            Some(t) => t.len() as int,
            None => 0,
        }
    }
}

pub open spec fn doc_texts(documents: Seq<(String, Option<Vec<u8>>)>) -> Seq<Option<Seq<u8>>> {
    documents.map_values(|d: (String, Option<Vec<u8>>)| match d.1 {
        Some(t) => Some(t@),
        None => None,
    })
}

pub open spec fn doc_paths(documents: Seq<(String, Option<Vec<u8>>)>) -> Seq<Seq<char>> {
    documents.map_values(|d: (String, Option<Vec<u8>>)| d.0@)
}

pub open spec fn key_gram(k: u64) -> int {
    k as int / 0x1_0000_0000
}

pub open spec fn key_slot(k: u64) -> int {
    k as int % 0x1_0000_0000
}

pub open spec fn key_of(g: int, s: int) -> int {
    g * 0x1_0000_0000 + s
}

proof fn lemma_key(g: int, s: int)
    requires
        0 <= g < 0x1_0000_0000,
        0 <= s < 0x1_0000_0000,
    ensures
        0 <= key_of(g, s) < 0x1_0000_0000_0000_0000,
        key_gram(key_of(g, s) as u64) == g,
        key_slot(key_of(g, s) as u64) == s,
{
    assert(0 <= key_of(g, s) < 0x1_0000_0000_0000_0000) by (nonlinear_arith)
        requires
            0 <= g < 0x1_0000_0000,
            0 <= s < 0x1_0000_0000,
    ;
    let k = key_of(g, s);
    assert(k / 0x1_0000_0000 == g && k % 0x1_0000_0000 == s) by (nonlinear_arith)
        requires
            k == g * 0x1_0000_0000 + s,
            0 <= s < 0x1_0000_0000,
            0 <= g,
    ;
}

proof fn lemma_key_parts(k: u64)
    ensures
        0 <= key_gram(k) < 0x1_0000_0000,
        0 <= key_slot(k) < 0x1_0000_0000,
        k as int == key_of(key_gram(k), key_slot(k)),
{
    let x = k as int;
    assert(0 <= x / 0x1_0000_0000 < 0x1_0000_0000 && x == (x / 0x1_0000_0000) * 0x1_0000_0000 + x
        % 0x1_0000_0000 && 0 <= x % 0x1_0000_0000 < 0x1_0000_0000) by (nonlinear_arith)
        requires
            0 <= x < 0x1_0000_0000_0000_0000,
    ;
}

proof fn lemma_key_order(a: u64, b: u64)
    requires
        a <= b,
    ensures
        key_gram(a) <= key_gram(b),
        key_gram(a) == key_gram(b) ==> key_slot(a) <= key_slot(b),
{
    lemma_key_parts(a);
    lemma_key_parts(b);
    let (x, y) = (a as int, b as int);
    assert(x / 0x1_0000_0000 <= y / 0x1_0000_0000) by (nonlinear_arith)
        requires
            0 <= x <= y,
    ;
}

pub proof fn lemma_holders_upto(texts: Seq<Option<Seq<u8>>>, g: int, n: int)
    requires
        0 <= n <= texts.len(),
        texts.len() <= 0x1_0000_0000,
    ensures
        forall|i: int, j: int|
            0 <= i < j < holders_upto(texts, g, n).len() ==> holders_upto(texts, g, n)[i] < holders_upto(
                texts,
                g,
                n,
            )[j],
        forall|x: u32| holders_upto(texts, g, n).contains(x) <==> (x < n && holds(texts[x as int], g)),
    decreases n,
{
    if n > 0 {
        lemma_holders_upto(texts, g, n - 1);
        let prev = holders_upto(texts, g, n - 1);
        if holds(texts[n - 1], g) {
            let cur = prev.push((n - 1) as u32);
            assert forall|x: u32| cur.contains(x) <==> (x < n && holds(texts[x as int], g)) by {
                if cur.contains(x) && !prev.contains(x) {
                    let k = choose|k: int| 0 <= k < cur.len() && #[trigger] cur[k] == x;
                    if k < prev.len() {
                        assert(cur[k] == prev[k]);
                    }
                }
                if cur.contains(x) && prev.contains(x) {
                }
                if x < n && holds(texts[x as int], g) && x != n - 1 {
                    assert(prev.contains(x));
                    let k = choose|k: int| 0 <= k < prev.len() && #[trigger] prev[k] == x;
                    assert(cur[k] == x);
                }
                if x == n - 1 {
                    assert(cur[prev.len() as int] == x);
                }
            }
            assert forall|i: int| 0 <= i < prev.len() implies prev[i] < n - 1 by {
                assert(prev.contains(prev[i]));
            }
        }
    }
}

pub proof fn lemma_unread_upto(texts: Seq<Option<Seq<u8>>>, n: int)
    requires
        0 <= n <= texts.len(),
    ensures
        unread_upto(texts, n).len() <= n,
    decreases n,
{
    if n > 0 {
        lemma_unread_upto(texts, n - 1);
    }
}

/// Two strictly increasing sequences with the same members are equal.
pub proof fn lemma_same_members(a: Seq<u32>, b: Seq<u32>)
    requires
        forall|i: int, j: int| 0 <= i < j < a.len() ==> a[i] < a[j],
        forall|i: int, j: int| 0 <= i < j < b.len() ==> b[i] < b[j],
        forall|x: u32| a.contains(x) <==> b.contains(x),
    ensures
        a == b,
    decreases a.len() + b.len(),
{
    if a.len() > 0 && b.len() > 0 {
        let (la, lb) = (a.last(), b.last());
        assert(a.contains(la));
        assert(b.contains(lb));
        assert(la == lb) by {
            if la < lb {
                assert(a.contains(lb));
                let k = choose|k: int| 0 <= k < a.len() && a[k] == lb;
                if k < a.len() - 1 {
                    assert(a[k] < a[a.len() - 1]);
                }
            } else if lb < la {
                assert(b.contains(la));
                let k = choose|k: int| 0 <= k < b.len() && b[k] == la;
                if k < b.len() - 1 {
                    assert(b[k] < b[b.len() - 1]);
                }
            }
        }
        assert forall|x: u32| a.drop_last().contains(x) <==> b.drop_last().contains(x) by {
            if a.drop_last().contains(x) {
                let k = choose|k: int| 0 <= k < a.len() - 1 && a[k] == x;
                assert(a[k] < la);
                assert(b.contains(x));
                let m = choose|m: int| 0 <= m < b.len() && b[m] == x;
                assert(m != b.len() - 1);
                assert(b.drop_last()[m] == x);
            }
            if b.drop_last().contains(x) {
                let k = choose|k: int| 0 <= k < b.len() - 1 && b[k] == x;
                assert(b[k] < lb);
                assert(a.contains(x));
                let m = choose|m: int| 0 <= m < a.len() && a[m] == x;
                assert(m != a.len() - 1);
                assert(a.drop_last()[m] == x);
            }
        }
        lemma_same_members(a.drop_last(), b.drop_last());
        assert(a =~= a.drop_last().push(la));
        assert(b =~= b.drop_last().push(lb));
    } else if a.len() > 0 {
        assert(a.contains(a[0]));
    } else if b.len() > 0 {
        assert(b.contains(b[0]));
    }
}


/// Key `k` records that some document among the first `n` holds a gram,
/// as `key_of(gram, slot)`.
pub open spec fn key_in(texts: Seq<Option<Seq<u8>>>, k: int, n: int) -> bool {
    exists|s: int, i: int|
        0 <= s < n && texts[s] is Some && window(texts[s]->0, i) && k == key_of(
            le32(texts[s]->0, i),
            s,
        )
}

proof fn lemma_le32_range(t: Seq<u8>, i: int)
    requires
        window(t, i),
    ensures
        0 <= le32(t, i) < 0x1_0000_0000,
{
    let (a, b, c, e) = (t[i] as int, t[i + 1] as int, t[i + 2] as int, t[i + 3] as int);
    assert(0 <= a + 256 * b + 65536 * c + 16777216 * e < 0x1_0000_0000) by (nonlinear_arith)
        requires
            0 <= a < 256,
            0 <= b < 256,
            0 <= c < 256,
            0 <= e < 256,
    ;
}

proof fn lemma_key_in(texts: Seq<Option<Seq<u8>>>, g: int, x: int, n: int)
    requires
        0 <= g < 0x1_0000_0000,
        0 <= x < 0x1_0000_0000,
        0 <= n <= texts.len(),
        texts.len() <= 0x1_0000_0000,
    ensures
        key_in(texts, key_of(g, x), n) <==> (x < n && holds(texts[x], g)),
{
    lemma_key(g, x);
    if key_in(texts, key_of(g, x), n) {
        let (s, i) = choose|s: int, i: int|
            0 <= s < n && texts[s] is Some && window(texts[s]->0, i) && key_of(g, x) == key_of(
                le32(texts[s]->0, i),
                s,
            );
        lemma_le32_range(texts[s]->0, i);
        lemma_key(le32(texts[s]->0, i), s);
        assert(has_gram(texts[x]->0, g));
    }
    if x < n && holds(texts[x], g) {
        let i = choose|i: int| window(texts[x]->0, i) && le32(texts[x]->0, i) == g;
        assert(key_in(texts, key_of(g, x), n));
    }
}

proof fn lemma_kept_before_push(d: Seq<(u32, u32, u32)>, e: (u32, u32, u32), j: int)
    requires
        0 <= j <= d.len(),
    ensures
        kept_before(d.push(e), j) == kept_before(d, j),
    decreases j,
{
    if j > 0 {
        lemma_kept_before_push(d, e, j - 1);
    }
}

pub open spec fn text_of(documents: Seq<(String, Option<Vec<u8>>)>, s: int) -> Option<Seq<u8>> {
    doc_texts(documents)[s]
}

/// Every (gram, slot) key of the documents, in no particular order.
fn collect_keys(documents: &Vec<(String, Option<Vec<u8>>)>) -> (keys: Vec<u64>)
    requires
        documents@.len() < 0x1_0000_0000,
        text_bytes(doc_texts(documents@)) <= u32::MAX,
    ensures
        keys@.len() <= text_bytes(doc_texts(documents@)),
        forall|k: u64| #[trigger] keys@.contains(k) <==> key_in(
            doc_texts(documents@),
            k as int,
            documents@.len() as int,
        ),
{
    let ghost texts = doc_texts(documents@);
    let mut keys: Vec<u64> = Vec::new();
    let mut slot: usize = 0;
    while slot < documents.len()
        invariant
            texts == doc_texts(documents@),
            documents@.len() < 0x1_0000_0000,
            text_bytes(texts) <= u32::MAX,
            slot <= documents@.len(),
            keys@.len() <= text_bytes(texts.take(slot as int)),
            forall|k: u64| #[trigger] keys@.contains(k) <==> key_in(texts, k as int, slot as int),
        decreases documents@.len() - slot,
    {
        proof {
            assert(texts.take(slot + 1).drop_last() =~= texts.take(slot as int));
            lemma_text_bytes_prefix(texts, slot + 1);
        }
        match &documents[slot].1 {
            None => {
                proof {
                    assert(texts[slot as int] is None);
                    assert forall|k: u64| #[trigger] keys@.contains(k) <==> key_in(texts, k as int, slot + 1) by {
                        if key_in(texts, k as int, slot + 1) {
                            let (s, w) = choose|s: int, w: int|
                                0 <= s < slot + 1 && texts[s] is Some && window(texts[s]->0, w) && k as int == key_of(le32(texts[s]->0, w), s);
                            assert(key_in(texts, k as int, slot as int));
                        }
                    }
                }
            },
            Some(text) => {
                let ghost t = text@;
                proof {
                    assert(texts[slot as int] == Some(t));
                }
                if text.len() >= 4 {
                    let mut i: usize = 0;
                    while i < text.len() - 3
                        invariant
                            t == text@,
                            t.len() >= 4,
                            texts == doc_texts(documents@),
                            texts[slot as int] == Some(t),
                            slot < documents@.len(),
                            documents@.len() < 0x1_0000_0000,
                            i <= t.len() - 3,
                            keys@.len() <= text_bytes(texts.take(slot as int)) + i,
                            text_bytes(texts.take(slot as int)) + t.len() <= u32::MAX,
                            forall|k: u64| #[trigger] keys@.contains(k) <==> (key_in(texts, k as int, slot as int) || exists|w: int| 0 <= w < i && k as int == key_of(le32(t, w), slot as int)),
                        decreases t.len() - i,
                    {
                        let g: u64 = (text[i] as u64) + 256 * (text[i + 1] as u64) + 65536 * (text[i + 2] as u64)
                            + 16777216 * (text[i + 3] as u64);
                        proof {
                            assert(g == le32(t, i as int));
                            lemma_le32_range(t, i as int);
                            lemma_key(g as int, slot as int);
                        }
                        let ghost before = keys@;
                        keys.push(g * 0x1_0000_0000 + slot as u64);
                        proof {
                            assert forall|k: u64| #[trigger] keys@.contains(k) <==> (key_in(texts, k as int, slot as int) || exists|w: int| 0 <= w < i + 1 && k as int == key_of(le32(t, w), slot as int)) by {
                                if keys@.contains(k) && !before.contains(k) {
                                    let q = choose|q: int| 0 <= q < keys@.len() && keys@[q] == k;
                                    if q < before.len() {
                                        assert(before[q] == k);
                                    }
                                    assert(k as int == key_of(le32(t, i as int), slot as int));
                                }
                                if exists|w: int| 0 <= w < i + 1 && k as int == key_of(le32(t, w), slot as int) {
                                    let w = choose|w: int| 0 <= w < i + 1 && k as int == key_of(le32(t, w), slot as int);
                                    if w == i {
                                        assert(keys@[keys@.len() - 1] == k);
                                    } else {
                                        assert(before.contains(k));
                                        let q = choose|q: int| 0 <= q < before.len() && before[q] == k;
                                        assert(keys@[q] == k);
                                    }
                                }
                                if key_in(texts, k as int, slot as int) {
                                    assert(before.contains(k));
                                    let q = choose|q: int| 0 <= q < before.len() && before[q] == k;
                                    assert(keys@[q] == k);
                                }
                            }
                        }
                        i += 1;
                    }
                    proof {
                        assert forall|k: u64| #[trigger] keys@.contains(k) <==> key_in(texts, k as int, slot + 1) by {
                            if key_in(texts, k as int, slot + 1) {
                                let (s, w) = choose|s: int, w: int|
                                    0 <= s < slot + 1 && texts[s] is Some && window(texts[s]->0, w) && k as int == key_of(le32(texts[s]->0, w), s);
                                if s < slot {
                                    assert(key_in(texts, k as int, slot as int));
                                } else {
                                    assert(exists|w2: int| 0 <= w2 < i && k as int == key_of(le32(t, w2), slot as int));
                                }
                            }
                            if keys@.contains(k) && !key_in(texts, k as int, slot as int) {
                                let w = choose|w: int| 0 <= w < i && k as int == key_of(le32(t, w), slot as int);
                                assert(window(texts[slot as int]->0, w));
                            }
                        }
                    }
                } else {
                    proof {
                        assert forall|k: u64| #[trigger] keys@.contains(k) <==> key_in(texts, k as int, slot + 1) by {
                            if key_in(texts, k as int, slot + 1) {
                                let (s, w) = choose|s: int, w: int|
                                    0 <= s < slot + 1 && texts[s] is Some && window(texts[s]->0, w) && k as int == key_of(le32(texts[s]->0, w), s);
                                if s < slot {
                                    assert(key_in(texts, k as int, slot as int));
                                }
                            }
                        }
                    }
                }
            },
        }
        slot += 1;
    }
    proof {
        assert(texts.take(slot as int) =~= texts);
    }
    keys
}

proof fn lemma_text_bytes_prefix(texts: Seq<Option<Seq<u8>>>, n: int)
    requires
        0 < n <= texts.len(),
    ensures
        text_bytes(texts.take(n)) == text_bytes(texts.take(n - 1)) + match texts[n - 1] {
            Some(t) => t.len() as int,
            None => 0,
        },
        text_bytes(texts.take(n)) <= text_bytes(texts),
        text_bytes(texts.take(n - 1)) >= 0,
    decreases texts.len() - n,
{
    assert(texts.take(n).drop_last() =~= texts.take(n - 1));
    lemma_text_bytes_nonneg(texts.take(n - 1));
    if n < texts.len() {
        lemma_text_bytes_prefix(texts, n + 1);
    } else {
        assert(texts.take(n) =~= texts);
    }
}

proof fn lemma_text_bytes_nonneg(texts: Seq<Option<Seq<u8>>>)
    ensures
        text_bytes(texts) >= 0,
    decreases texts.len(),
{
    if texts.len() > 0 {
        lemma_text_bytes_nonneg(texts.drop_last());
    }
}


proof fn lemma_kept_before_mono(d: Seq<(u32, u32, u32)>, a: int, b: int)
    requires
        0 <= a <= b <= d.len(),
    ensures
        kept_before(d, a) <= kept_before(d, b),
    decreases b - a,
{
    if a < b {
        lemma_kept_before_mono(d, a, b - 1);
    }
}

proof fn lemma_gram_below(keys: Seq<u64>, i: int, k: int)
    requires
        ascending(keys),
        0 <= k < i < keys.len(),
        key_gram(keys[i - 1]) < key_gram(keys[i]),
    ensures
        key_gram(keys[k]) < key_gram(keys[i]),
{
    lemma_key_order(keys[k], keys[i - 1]);
}

proof fn lemma_gram_above(keys: Seq<u64>, j: int, k: int, g: int)
    requires
        ascending(keys),
        0 < j <= k < keys.len(),
        key_gram(keys[j - 1]) == g,
        key_gram(keys[j]) != g,
    ensures
        key_gram(keys[k]) > g,
{
    lemma_key_order(keys[j - 1], keys[j]);
    lemma_key_order(keys[j], keys[k]);
}

/// Lays sorted keys out as a directory and postings.
fn lay_out(keys: &Vec<u64>, Ghost(texts): Ghost<Seq<Option<Seq<u8>>>>, count: usize) -> (r: (
    Vec<(u32, u32, u32)>,
    Vec<u32>,
))
    requires
        ascending(keys@),
        forall|k: u64| #[trigger] keys@.contains(k) <==> key_in(texts, k as int, count as int),
        count == texts.len(),
        count < 0x1_0000_0000,
        keys@.len() <= u32::MAX,
    ensures
        dir_sorted(r.0@),
        forall|g: int| #[trigger] dir_has(r.0@, g) <==> holders(texts, g).len() > 0,
        forall|j: int| 0 <= j < r.0@.len() ==> entry_ok(texts, r.0@, r.1@, j),
        r.1@.len() == kept_before(r.0@, r.0@.len() as int),
        ranges_inside(r.0@, r.1@.len() as int),
        r.0@.len() <= keys@.len(),
        r.1@.len() <= keys@.len(),
{
    let c: u64 = (15 * (count as u64) + 99) / 100;
    let cut: u64 = if c < 1 {
        1
    } else {
        c
    };
    let mut d: Vec<(u32, u32, u32)> = Vec::new();
    let mut p: Vec<u32> = Vec::new();
    let mut i: usize = 0;
    while i < keys.len()
        invariant
            ascending(keys@),
            forall|k: u64| #[trigger] keys@.contains(k) <==> key_in(texts, k as int, count as int),
            count == texts.len(),
            count < 0x1_0000_0000,
            keys@.len() <= u32::MAX,
            cut == cutoff(count as int),
            i <= keys@.len(),
            i == 0 || i == keys@.len() || key_gram(keys@[i - 1]) < key_gram(keys@[i as int]),
            dir_sorted(d@),
            forall|g: int| #[trigger] dir_has(d@, g) <==> keys_have(keys@, i as int, g),
            forall|jj: int| 0 <= jj < d@.len() ==> entry_ok(texts, d@, p@, jj),
            p@.len() == kept_before(d@, d@.len() as int),
            p@.len() <= i,
            d@.len() <= i,
            i < keys@.len() ==> forall|jj: int| 0 <= jj < d@.len() ==> (#[trigger] d@[jj]).0 < key_gram(keys@[i as int]),
        decreases keys@.len() - i,
    {
        let g: u64 = keys[i] / 0x1_0000_0000;
        proof {
            lemma_key_parts(keys@[i as int]);
        }
        let mut group: Vec<u32> = Vec::new();
        let mut j: usize = i;
        while j < keys.len() && keys[j] / 0x1_0000_0000 == g
            invariant
                ascending(keys@),
                i < keys@.len(),
                g == key_gram(keys@[i as int]),
                i <= j <= keys@.len(),
                forall|k: int| i <= k < j ==> key_gram(#[trigger] keys@[k]) == g,
                forall|a: int, b: int| 0 <= a < b < group@.len() ==> group@[a] < group@[b],
                forall|x: u32| group@.contains(x) <==> exists|k: int| i <= k < j && keys@[k] as int == key_of(g as int, x as int),
                group@.len() <= j - i,
                j > i ==> group@.len() > 0 && group@[group@.len() - 1] as int == key_slot(keys@[j - 1]),
            decreases keys@.len() - j,
        {
            let x = (keys[j] % 0x1_0000_0000) as u32;
            proof {
                lemma_key_parts(keys@[j as int]);
                if j > i {
                    lemma_key_order(keys@[j - 1], keys@[j as int]);
                }
            }
            let ghost before = group@;
            if group.len() == 0 || group[group.len() - 1] < x {
                group.push(x);
            }
            proof {
                assert forall|y: u32| group@.contains(y) <==> exists|k: int| i <= k < j + 1 && keys@[k] as int == key_of(g as int, y as int) by {
                    if group@.contains(y) && !before.contains(y) {
                        let q = choose|q: int| 0 <= q < group@.len() && group@[q] == y;
                        if q < before.len() {
                            assert(before[q] == y);
                        }
                        assert(y == x);
                        assert(keys@[j as int] as int == key_of(g as int, y as int));
                    }
                    if exists|k: int| i <= k < j + 1 && keys@[k] as int == key_of(g as int, y as int) {
                        let k = choose|k: int| i <= k < j + 1 && keys@[k] as int == key_of(g as int, y as int);
                        lemma_key(g as int, y as int);
                        if k == j {
                            if before.len() > 0 && before[before.len() - 1] == x {
                                assert(before.contains(y));
                                let q = choose|q: int| 0 <= q < before.len() && before[q] == y;
                                assert(group@[q] == y);
                            } else {
                                assert(group@[group@.len() - 1] == y);
                            }
                        } else {
                            assert(before.contains(y));
                            let q = choose|q: int| 0 <= q < before.len() && before[q] == y;
                            assert(group@[q] == y);
                        }
                    }
                }
            }
            j += 1;
        }
        proof {
            assert(j > i);
            assert forall|x: u32| group@.contains(x) <==> holders(texts, g as int).contains(x) by {
                lemma_key(g as int, x as int);
                lemma_key_in(texts, g as int, x as int, count as int);
                lemma_holders_upto(texts, g as int, count as int);
                let kx = key_of(g as int, x as int);
                if keys@.contains(kx as u64) {
                    let k = choose|k: int| 0 <= k < keys@.len() && keys@[k] == kx as u64;
                    if k < i {
                        lemma_gram_below(keys@, i as int, k);
                    } else if k >= j {
                        lemma_gram_above(keys@, j as int, k, g as int);
                    }
                    assert(group@.contains(x));
                }
                if group@.contains(x) {
                    let k = choose|k: int| i <= k < j && keys@[k] as int == key_of(g as int, x as int);
                    assert(keys@.contains(keys@[k]));
                }
            }
            lemma_holders_upto(texts, g as int, count as int);
            lemma_same_members(group@, holders(texts, g as int));
        }
        let ghost d0 = d@;
        let ghost p0 = p@;
        let entry: (u32, u32, u32) = if (group.len() as u64) > cut {
            (g as u32, 0, DROPPED)
        } else {
            (g as u32, p.len() as u32, group.len() as u32)
        };
        d.push(entry);
        if (group.len() as u64) <= cut {
            let mut m: usize = 0;
            while m < group.len()
                invariant
                    m <= group@.len(),
                    p@ == p0 + group@.take(m as int),
                decreases group@.len() - m,
            {
                p.push(group[m]);
                m += 1;
                proof {
                    assert(p@ =~= p0 + group@.take(m as int));
                }
            }
            proof {
                assert(group@.take(m as int) =~= group@);
            }
        }
        proof {
            lemma_kept_before_push(d0, entry, d0.len() as int);
            assert(d@ =~= d0.push(entry));
            assert(kept_before(d@, d@.len() as int) == kept_before(d0, d0.len() as int) + if entry.2 == DROPPED {
                0
            } else {
                entry.2 as int
            });
            if entry.2 != DROPPED {
                assert(p@ =~= p0 + group@);
            } else {
                assert(p@ == p0);
            }
            assert forall|jj: int| 0 <= jj < d0.len() implies entry_ok(texts, d@, p@, jj) by {
                lemma_kept_before_push(d0, entry, jj);
                assert(d@[jj] == d0[jj]);
                assert(entry_ok(texts, d0, p0, jj));
                if d0[jj].2 != DROPPED {
                    lemma_kept_before_mono(d0, jj + 1, d0.len() as int);
                    assert(list_of(d@, p@, jj) =~= list_of(d0, p0, jj));
                }
            }
            assert(entry_ok(texts, d@, p@, d0.len() as int)) by {
                assert(d@[d0.len() as int] == entry);
                assert(entry.0 as int == g as int);
                if entry.2 != DROPPED {
                    assert(list_of(d@, p@, d0.len() as int) =~= group@);
                }
            }
            assert forall|jj: int| 0 <= jj < d@.len() implies entry_ok(texts, d@, p@, jj) by {
                if jj < d0.len() {
                } else {
                    assert(jj == d0.len());
                }
            }
            assert forall|a: int, b: int| 0 <= a < b < d@.len() implies (#[trigger] d@[a]).0 < (#[trigger] d@[b]).0 by {
                if b == d0.len() {
                    assert(d0[a].0 < key_gram(keys@[i as int]));
                } else {
                    assert(d@[a] == d0[a] && d@[b] == d0[b]);
                }
            }
            assert forall|gg: int| #[trigger] dir_has(d@, gg) <==> keys_have(keys@, j as int, gg) by {
                if dir_has(d@, gg) {
                    let jj = choose|jj: int| 0 <= jj < d@.len() && (#[trigger] d@[jj]).0 == gg;
                    if jj < d0.len() {
                        assert(d0[jj].0 == gg);
                        assert(dir_has(d0, gg));
                        assert(keys_have(keys@, i as int, gg));
                        let k = choose|k: int| 0 <= k < i && key_gram(#[trigger] keys@[k]) == gg;
                        assert(key_gram(keys@[k]) == gg);
                    } else {
                        assert(key_gram(keys@[i as int]) == gg);
                    }
                }
                if keys_have(keys@, j as int, gg) {
                    let k = choose|k: int| 0 <= k < j && key_gram(#[trigger] keys@[k]) == gg;
                    if k < i {
                        assert(keys_have(keys@, i as int, gg));
                        assert(dir_has(d0, gg));
                        let jj = choose|jj: int| 0 <= jj < d0.len() && (#[trigger] d0[jj]).0 == gg;
                        assert(d@[jj] == d0[jj]);
                    } else {
                        assert(d@[d0.len() as int].0 == gg);
                    }
                }
            }
            if j < keys@.len() {
                lemma_gram_above(keys@, j as int, j as int, g as int);
                assert forall|jj: int| 0 <= jj < d@.len() implies (#[trigger] d@[jj]).0 < key_gram(keys@[j as int]) by {
                    if jj < d0.len() {
                        assert(d@[jj] == d0[jj]);
                    }
                }
            }
        }
        i = j;
    }
    proof {
        assert forall|g: int| #[trigger] dir_has(d@, g) <==> holders(texts, g).len() > 0 by {
            if dir_has(d@, g) {
                assert(keys_have(keys@, i as int, g));
                let k = choose|k: int| 0 <= k < i && key_gram(#[trigger] keys@[k]) == g;
                lemma_key_parts(keys@[k]);
                assert(keys@.contains(keys@[k]));
                lemma_key_in(texts, g, key_slot(keys@[k]), count as int);
                lemma_holders_upto(texts, g, count as int);
                assert(holders(texts, g).contains(key_slot(keys@[k]) as u32));
            }
            if holders(texts, g).len() > 0 {
                let x = holders(texts, g)[0];
                assert(holders(texts, g).contains(x));
                lemma_holders_upto(texts, g, count as int);
                let t = texts[x as int]->0;
                let w = choose|w: int| window(t, w) && le32(t, w) == g;
                lemma_le32_range(t, w);
                lemma_key_in(texts, g, x as int, count as int);
                lemma_key(g, x as int);
                assert(keys@.contains(key_of(g, x as int) as u64));
                let k = choose|k: int| 0 <= k < keys@.len() && keys@[k] == key_of(g, x as int) as u64;
                assert(key_gram(keys@[k]) == g);
            }
        }
        assert forall|j: int| 0 <= j < d@.len() implies (#[trigger] d@[j]).2 == DROPPED || d@[j].1 + d@[j].2 <= p@.len() by {
            assert(entry_ok(texts, d@, p@, j));
            if d@[j].2 != DROPPED {
                lemma_kept_before_mono(d@, j + 1, d@.len() as int);
            }
        }
    }
    (d, p)
}


/// Some directory entry is for gram `g`.
pub open spec fn dir_has(d: Seq<(u32, u32, u32)>, g: int) -> bool {
    exists|j: int| 0 <= j < d.len() && (#[trigger] d[j]).0 == g
}

pub open spec fn keys_have(keys: Seq<u64>, n: int, g: int) -> bool {
    exists|k: int| 0 <= k < n && key_gram(#[trigger] keys[k]) == g
}


impl GramIndex {
    /// Builds the index of `documents` when the library fits its stored
    /// form: fewer than 2^32 documents, with at most `u32::MAX` bytes of text
    /// in all. None otherwise.
    pub fn try_build(documents: Vec<(String, Option<Vec<u8>>)>, signature: u64) -> (r: Option<Self>)
        ensures
            r is Some <==> (documents@.len() < 0x1_0000_0000 && text_bytes(doc_texts(documents@))
                <= u32::MAX),
            r matches Some(ix) ==> ix.wf() && ix.paths() == doc_paths(documents@)
                && ix.spec_signature() == signature && indexes(
                doc_texts(documents@),
                ix.dir(),
                ix.posts(),
                ix.unread(),
            ),
            r matches Some(ix) ==> (paths_fit(doc_paths(documents@)) ==> parse_index(
                ser_index(ix.view_parts()),
            ) == Some(ix.view_parts())),
    {
        if documents.len() as u64 >= 0x1_0000_0000 {
            return None;
        }
        let ghost texts = doc_texts(documents@);
        let mut total: u64 = 0;
        let mut k: usize = 0;
        proof {
            assert(texts.take(0) =~= Seq::<Option<Seq<u8>>>::empty());
        }
        while k < documents.len()
            invariant
                k <= documents@.len(),
                texts == doc_texts(documents@),
                total == text_bytes(texts.take(k as int)),
                total <= u32::MAX,
            decreases documents@.len() - k,
        {
            proof {
                lemma_text_bytes_prefix(texts, k + 1);
            }
            let size: usize = match &documents[k].1 {
                Some(t) => t.len(),
                None => 0,
            };
            if size as u64 > u32::MAX as u64 - total {
                proof {
                    lemma_text_bytes_prefix(texts, k + 1);
                }
                return None;
            }
            total = total + size as u64;
            k = k + 1;
        }
        proof {
            assert(texts.take(k as int) =~= texts);
        }
        Some(GramIndex::build(documents, signature))
    }

    /// Builds the index from every document's scan text. A document whose
    /// text is `None` could not be read, and becomes a permanent candidate
    /// rather than a document that quietly stops being findable.
    pub fn build(documents: Vec<(String, Option<Vec<u8>>)>, signature: u64) -> (ix: Self)
        requires
            documents@.len() < 0x1_0000_0000,
            text_bytes(doc_texts(documents@)) <= u32::MAX,
        ensures
            ix.wf(),
            ix.paths() == doc_paths(documents@),
            ix.spec_signature() == signature,
            indexes(doc_texts(documents@), ix.dir(), ix.posts(), ix.unread()),
            paths_fit(doc_paths(documents@)) ==> storable(ix.view_parts()),
            paths_fit(doc_paths(documents@)) ==> parse_index(ser_index(ix.view_parts())) == Some(
                ix.view_parts(),
            ),
    {
        let ghost texts = doc_texts(documents@);
        let count = documents.len();
        let mut paths: Vec<String> = Vec::new();
        let mut always: Vec<u32> = Vec::new();
        let mut slot: usize = 0;
        while slot < count
            invariant
                count == documents@.len(),
                count < 0x1_0000_0000,
                texts == doc_texts(documents@),
                slot <= count,
                paths@.len() == slot,
                string_views(paths@) == doc_paths(documents@).take(slot as int),
                always@ == unread_upto(texts, slot as int),
            decreases count - slot,
        {
            let path = documents[slot].0.clone();
            let ghost before = paths@;
            paths.push(path);
            proof {
                assert(path == documents@[slot as int].0);
                assert forall|j: int| 0 <= j < slot + 1 implies #[trigger] string_views(paths@)[j]
                    == doc_paths(documents@).take(slot + 1)[j] by {
                    if j < slot {
                        assert(paths@[j] == before[j]);
                        assert(string_views(before)[j] == doc_paths(documents@).take(slot as int)[j]);
                    }
                }
                assert(string_views(paths@) =~= doc_paths(documents@).take(slot + 1));
            }
            if documents[slot].1.is_none() {
                always.push(slot as u32);
            }
            proof {
                assert(texts[slot as int] is None == documents@[slot as int].1 is None);
            }
            slot += 1;
        }
        proof {
            assert(doc_paths(documents@).take(slot as int) =~= doc_paths(documents@));
        }
        let mut keys = collect_keys(&documents);
        let ghost collected = keys@;
        sort_keys(&mut keys);
        proof {
            keys@.to_multiset_ensures();
            collected.to_multiset_ensures();
            assert forall|k: u64| #[trigger] keys@.contains(k) <==> key_in(texts, k as int, count as int) by {
                assert(keys@.to_multiset().count(k) == collected.to_multiset().count(k));
                assert(collected.contains(k) <==> key_in(texts, k as int, count as int));
            }
        }
        let (directory, postings) = lay_out(&keys, Ghost(texts), count);
        let ix = GramIndex { documents: paths, directory, postings, always, signature };
        proof {
            lemma_unread_upto(texts, count as int);
            if paths_fit(doc_paths(documents@)) {
                lemma_round_trip(ix);
            }
        }
        ix
    }
}


pub open spec fn string_views(v: Seq<String>) -> Seq<Seq<char>> {
    v.map_values(|s: String| s@)
}


/// The index never loses a document: a document whose text could not be
/// read, or whose text holds the query's bytes, is a candidate for that
/// query whenever the index narrows it at all.
pub proof fn lemma_never_loses_a_document(
    texts: Seq<Option<Seq<u8>>>,
    d: Seq<(u32, u32, u32)>,
    p: Seq<u32>,
    always: Seq<u32>,
    qb: Seq<u8>,
    r: Candidates,
    s: int,
    at: int,
)
    requires
        indexes(texts, d, p, always),
        candidates_ok(d, p, always, qb, r),
        texts.len() < 0x1_0000_0000,
        0 <= s < texts.len(),
        texts[s] is None || (0 <= at && at + qb.len() <= (texts[s]->0).len() && (texts[s]->0).subrange(
            at,
            at + qb.len(),
        ) == qb),
    ensures
        r is Unknown || (r matches Candidates::Only(v) && v@.contains(s as u32)),
{
    lemma_unread_upto_members(texts, texts.len() as int);
    if texts[s] is None {
        assert(always.contains(s as u32));
        assert(in_result(always, d, p, qb, s as u32));
    } else if qb.len() >= 4 {
        let t = texts[s]->0;
        assert forall|w: int| window(qb, w) implies holders(texts, le32(qb, w)).contains(s as u32) && !absent(d, le32(qb, w)) by {
            assert(t.subrange(at, at + qb.len())[w] == t[at + w]);
            assert(t.subrange(at, at + qb.len())[w + 1] == t[at + w + 1]);
            assert(t.subrange(at, at + qb.len())[w + 2] == t[at + w + 2]);
            assert(t.subrange(at, at + qb.len())[w + 3] == t[at + w + 3]);
            assert(le32(t, at + w) == le32(qb, w));
            assert(window(t, at + w));
            assert(holds(texts[s], le32(qb, w)));
            lemma_holders_upto(texts, le32(qb, w), texts.len() as int);
            assert(holders(texts, le32(qb, w)).contains(s as u32));
            assert(holders(texts, le32(qb, w)).len() > 0);
            assert(dir_has(d, le32(qb, w)));
        }
        if !(forall|j: int| !usable(d, qb, j)) {
            assert forall|j: int| usable(d, qb, j) implies list_of(d, p, j).contains(s as u32) by {
                let w = choose|w: int| window(qb, w) && d[j].0 == le32(qb, w);
                assert(entry_ok(texts, d, p, j));
            }
            assert(in_result(always, d, p, qb, s as u32));
        }
        if exists|i: int| window(qb, i) && absent(d, le32(qb, i)) {
            let i = choose|i: int| window(qb, i) && absent(d, le32(qb, i));
            assert(!absent(d, le32(qb, i)));
        }
    }
}

proof fn lemma_unread_upto_members(texts: Seq<Option<Seq<u8>>>, n: int)
    requires
        0 <= n <= texts.len(),
        texts.len() < 0x1_0000_0000,
    ensures
        forall|x: u32| unread_upto(texts, n).contains(x) <==> (x < n && texts[x as int] is None),
    decreases n,
{
    if n > 0 {
        lemma_unread_upto_members(texts, n - 1);
        let prev = unread_upto(texts, n - 1);
        if texts[n - 1] is None {
            let cur = prev.push((n - 1) as u32);
            assert forall|x: u32| cur.contains(x) <==> (x < n && texts[x as int] is None) by {
                if cur.contains(x) && !prev.contains(x) {
                    let k = choose|k: int| 0 <= k < cur.len() && #[trigger] cur[k] == x;
                    if k < prev.len() {
                        assert(cur[k] == prev[k]);
                    }
                }
                if x < n && texts[x as int] is None && x != n - 1 {
                    assert(prev.contains(x));
                    let k = choose|k: int| 0 <= k < prev.len() && #[trigger] prev[k] == x;
                    assert(cur[k] == x);
                }
                if x == n - 1 {
                    assert(cur[prev.len() as int] == x);
                }
            }
        }
    }
}


// ---------------------------------------------------------------------------
// The stored form.

/// The four little-endian bytes of `x`, as `u32::to_le_bytes` gives them.
pub open spec fn u32_le(x: u32) -> Seq<u8> {
    seq![(x % 256) as u8, ((x / 256) % 256) as u8, ((x / 65536) % 256) as u8, (x / 16777216) as u8]
}

/// The eight little-endian bytes of `x`.
pub open spec fn u64_le(x: u64) -> Seq<u8> {
    u32_le((x % 0x1_0000_0000) as u32) + u32_le((x / 0x1_0000_0000) as u32)
}

pub open spec fn ser_u32s(xs: Seq<u32>) -> Seq<u8>
    decreases xs.len(),
{
    if xs.len() == 0 {
        Seq::empty()
    } else {
        ser_u32s(xs.drop_last()) + u32_le(xs.last())
    }
}

pub open spec fn ser_dir(d: Seq<(u32, u32, u32)>) -> Seq<u8>
    decreases d.len(),
{
    if d.len() == 0 {
        Seq::empty()
    } else {
        ser_dir(d.drop_last()) + u32_le(d.last().0) + u32_le(d.last().1) + u32_le(d.last().2)
    }
}

pub open spec fn ser_paths(ps: Seq<Seq<char>>) -> Seq<u8>
    decreases ps.len(),
{
    if ps.len() == 0 {
        Seq::empty()
    } else {
        ser_paths(ps.drop_last()) + u32_le(vstd::utf8::encode_utf8(ps.last()).len() as u32)
            + vstd::utf8::encode_utf8(ps.last())
    }
}

/// An index as plain values: paths, directory, postings, unread slots and
/// signature.
pub type IndexView = (Seq<Seq<char>>, Seq<(u32, u32, u32)>, Seq<u32>, Seq<u32>, u64);

/// The stored form of an index: a magic number and version, the signature,
/// then each part preceded by its length.
pub open spec fn ser_index(v: IndexView) -> Seq<u8> {
    u32_le(MAGIC) + u32_le(VERSION) + u64_le(v.4) + u32_le(v.0.len() as u32) + ser_paths(v.0)
        + u32_le(v.1.len() as u32) + ser_dir(v.1) + u32_le(v.2.len() as u32) + ser_u32s(v.2)
        + u32_le(v.3.len() as u32) + ser_u32s(v.3)
}

pub open spec fn rd_u32(b: Seq<u8>, at: int) -> Option<(u32, int)> {
    if 0 <= at && at + 4 <= b.len() {
        Some((le32(b, at) as u32, at + 4))
    } else {
        None
    }
}

pub open spec fn rd_u32s(b: Seq<u8>, at: int, n: nat) -> Option<(Seq<u32>, int)>
    decreases n,
{
    if n == 0 {
        Some((Seq::empty(), at))
    } else {
        match rd_u32s(b, at, (n - 1) as nat) {
            Some((xs, a)) => match rd_u32(b, a) {
                Some((x, e)) => Some((xs.push(x), e)),
                None => None,
            },
            None => None,
        }
    }
}

pub open spec fn rd_entry(b: Seq<u8>, at: int) -> Option<((u32, u32, u32), int)> {
    match rd_u32(b, at) {
        Some((g, a1)) => match rd_u32(b, a1) {
            Some((st, a2)) => match rd_u32(b, a2) {
                Some((ln, a3)) => Some(((g, st, ln), a3)),
                None => None,
            },
            None => None,
        },
        None => None,
    }
}

pub open spec fn rd_dir(b: Seq<u8>, at: int, n: nat) -> Option<(Seq<(u32, u32, u32)>, int)>
    decreases n,
{
    if n == 0 {
        Some((Seq::empty(), at))
    } else {
        match rd_dir(b, at, (n - 1) as nat) {
            Some((d, a)) => match rd_entry(b, a) {
                Some((e, a2)) => Some((d.push(e), a2)),
                None => None,
            },
            None => None,
        }
    }
}

pub open spec fn rd_path(b: Seq<u8>, at: int) -> Option<(Seq<char>, int)> {
    match rd_u32(b, at) {
        Some((len, a)) => if a + len <= b.len() && vstd::utf8::valid_utf8(b.subrange(a, a + len)) {
            Some((vstd::utf8::decode_utf8(b.subrange(a, a + len)), a + len))
        } else {
            None
        },
        None => None,
    }
}

pub open spec fn rd_paths(b: Seq<u8>, at: int, n: nat) -> Option<(Seq<Seq<char>>, int)>
    decreases n,
{
    if n == 0 {
        Some((Seq::empty(), at))
    } else {
        match rd_paths(b, at, (n - 1) as nat) {
            Some((ps, a)) => match rd_path(b, a) {
                Some((pth, a2)) => Some((ps.push(pth), a2)),
                None => None,
            },
            None => None,
        }
    }
}

/// What reading stored bytes gives: an index only if the bytes start with a
/// complete, consistent one. Every length is checked against what is there.
pub open spec fn parse_index(b: Seq<u8>) -> Option<IndexView> {
    match rd_u32(b, 0) {
        Some((magic, a0)) => if magic != MAGIC {
            None
        } else {
            match rd_u32(b, a0) {
                Some((version, a1)) => if version != VERSION {
                    None
                } else {
                    match (rd_u32(b, a1), rd_u32(b, a1 + 4)) {
                        (Some((lo, _)), Some((hi, a2))) => {
                            let sig = (lo as int + hi as int * 0x1_0000_0000) as u64;
                            match rd_u32(b, a2) {
                                Some((np, a3)) => match rd_paths(b, a3, np as nat) {
                                    Some((ps, a4)) => match rd_u32(b, a4) {
                                        Some((nd, a5)) => match rd_dir(b, a5, nd as nat) {
                                            Some((d, a6)) => match rd_u32(b, a6) {
                                                Some((npo, a7)) => match rd_u32s(b, a7, npo as nat) {
                                                    Some((po, a8)) => match rd_u32(b, a8) {
                                                        Some((na, a9)) => match rd_u32s(b, a9, na as nat) {
                                                            Some((al, _)) => if ranges_inside(d, po.len() as int) && dir_sorted(d) {
                                                                Some((ps, d, po, al, sig))
                                                            } else {
                                                                None
                                                            },
                                                            None => None,
                                                        },
                                                        None => None,
                                                    },
                                                    None => None,
                                                },
                                                None => None,
                                            },
                                            None => None,
                                        },
                                        None => None,
                                    },
                                    None => None,
                                },
                                None => None,
                            }
                        },
                        _ => None,
                    }
                }
                None => None,
            }
        },
        None => None,
    }
}


/// `b` holds `s` at position `at`.
pub open spec fn holds_at(b: Seq<u8>, at: int, s: Seq<u8>) -> bool {
    0 <= at && at + s.len() <= b.len() && b.subrange(at, at + s.len()) == s
}

proof fn lemma_holds_split(b: Seq<u8>, at: int, s1: Seq<u8>, s2: Seq<u8>)
    ensures
        holds_at(b, at, s1 + s2) <==> (holds_at(b, at, s1) && holds_at(b, at + s1.len(), s2)),
{
    if holds_at(b, at, s1 + s2) {
        assert(b.subrange(at, at + s1.len()) =~= (s1 + s2).subrange(0, s1.len() as int));
        assert((s1 + s2).subrange(0, s1.len() as int) =~= s1);
        assert(b.subrange(at + s1.len(), at + s1.len() + s2.len()) =~= (s1 + s2).subrange(
            s1.len() as int,
            (s1.len() + s2.len()) as int,
        ));
        assert((s1 + s2).subrange(s1.len() as int, (s1.len() + s2.len()) as int) =~= s2);
    }
    if holds_at(b, at, s1) && holds_at(b, at + s1.len(), s2) {
        assert forall|k: int| 0 <= k < s1.len() + s2.len() implies b.subrange(
            at,
            at + (s1 + s2).len(),
        )[k] == (s1 + s2)[k] by {
            if k < s1.len() {
                assert(b.subrange(at, at + s1.len())[k] == s1[k]);
            } else {
                assert(b.subrange(at + s1.len(), at + s1.len() + s2.len())[k - s1.len()] == s2[k
                    - s1.len()]);
            }
        }
        assert(b.subrange(at, at + (s1 + s2).len()) =~= s1 + s2);
    }
}

proof fn lemma_le_bytes(b0: u8, b1: u8, b2: u8, b3: u8)
    ensures
        ({
            let x = b0 as int + 256 * (b1 as int) + 65536 * (b2 as int) + 16777216 * (b3 as int);
            &&& 0 <= x < 0x1_0000_0000
            &&& x % 256 == b0 as int
            &&& (x / 256) % 256 == b1 as int
            &&& (x / 65536) % 256 == b2 as int
            &&& x / 16777216 == b3 as int
        }),
{
    let (a, b, c, d) = (b0 as int, b1 as int, b2 as int, b3 as int);
    assert({
        let x = a + 256 * b + 65536 * c + 16777216 * d;
        &&& 0 <= x < 0x1_0000_0000
        &&& x % 256 == a
        &&& (x / 256) % 256 == b
        &&& (x / 65536) % 256 == c
        &&& x / 16777216 == d
    }) by (nonlinear_arith)
        requires
            0 <= a < 256,
            0 <= b < 256,
            0 <= c < 256,
            0 <= d < 256,
    ;
}

proof fn lemma_u32_le(x: u32)
    ensures
        u32_le(x).len() == 4,
        le32(u32_le(x), 0) == x as int,
{
    let v = x as int;
    assert(v % 256 + 256 * ((v / 256) % 256) + 65536 * ((v / 65536) % 256) + 16777216 * (v / 16777216)
        == v) by (nonlinear_arith)
        requires
            0 <= v < 0x1_0000_0000,
    ;
}

/// Reading a `u32` where one was written gives it back.
proof fn lemma_read_u32(b: Seq<u8>, at: int, x: u32)
    requires
        holds_at(b, at, u32_le(x)),
    ensures
        rd_u32(b, at) == Some((x, at + 4)),
{
    lemma_u32_le(x);
    assert(b.subrange(at, at + 4)[0] == b[at]);
    assert(b.subrange(at, at + 4)[1] == b[at + 1]);
    assert(b.subrange(at, at + 4)[2] == b[at + 2]);
    assert(b.subrange(at, at + 4)[3] == b[at + 3]);
    assert(le32(b, at) == le32(u32_le(x), 0));
}

/// What a `u32` was read from is its encoding.
proof fn lemma_u32_read_back(b: Seq<u8>, at: int)
    requires
        rd_u32(b, at) is Some,
    ensures
        holds_at(b, at, u32_le(rd_u32(b, at).unwrap().0)),
{
    lemma_le_bytes(b[at], b[at + 1], b[at + 2], b[at + 3]);
    let x = rd_u32(b, at).unwrap().0;
    assert(b.subrange(at, at + 4) =~= u32_le(x));
}

proof fn lemma_ser_u32s_len(xs: Seq<u32>)
    ensures
        ser_u32s(xs).len() == 4 * xs.len(),
    decreases xs.len(),
{
    if xs.len() > 0 {
        lemma_ser_u32s_len(xs.drop_last());
    }
}

proof fn lemma_rd_u32s(b: Seq<u8>, at: int, xs: Seq<u32>)
    requires
        holds_at(b, at, ser_u32s(xs)),
    ensures
        rd_u32s(b, at, xs.len()) == Some((xs, at + ser_u32s(xs).len())),
    decreases xs.len(),
{
    if xs.len() > 0 {
        let init = xs.drop_last();
        lemma_holds_split(b, at, ser_u32s(init), u32_le(xs.last()));
        lemma_rd_u32s(b, at, init);
        lemma_read_u32(b, at + ser_u32s(init).len(), xs.last());
        assert(init.push(xs.last()) =~= xs);
        lemma_u32_le(xs.last());
    }
}

proof fn lemma_u32s_read_back(b: Seq<u8>, at: int, n: nat)
    requires
        rd_u32s(b, at, n) is Some,
        0 <= at <= b.len(),
    ensures
        rd_u32s(b, at, n).unwrap().0.len() == n,
        holds_at(b, at, ser_u32s(rd_u32s(b, at, n).unwrap().0)),
        rd_u32s(b, at, n).unwrap().1 == at + ser_u32s(rd_u32s(b, at, n).unwrap().0).len(),
    decreases n,
{
    if n > 0 {
        lemma_u32s_read_back(b, at, (n - 1) as nat);
        let (xs, a) = rd_u32s(b, at, (n - 1) as nat).unwrap();
        lemma_u32_read_back(b, a);
        let x = rd_u32(b, a).unwrap().0;
        assert(xs.push(x).drop_last() =~= xs);
        lemma_holds_split(b, at, ser_u32s(xs), u32_le(x));
        lemma_u32_le(x);
    } else {
        assert(b.subrange(at, at) =~= Seq::<u8>::empty());
    }
}

proof fn lemma_ser_dir_len(d: Seq<(u32, u32, u32)>)
    ensures
        ser_dir(d).len() == 12 * d.len(),
    decreases d.len(),
{
    if d.len() > 0 {
        lemma_ser_dir_len(d.drop_last());
        lemma_u32_le(d.last().0);
        lemma_u32_le(d.last().1);
        lemma_u32_le(d.last().2);
    }
}

proof fn lemma_rd_dir(b: Seq<u8>, at: int, d: Seq<(u32, u32, u32)>)
    requires
        holds_at(b, at, ser_dir(d)),
    ensures
        rd_dir(b, at, d.len()) == Some((d, at + ser_dir(d).len())),
    decreases d.len(),
{
    if d.len() > 0 {
        let init = d.drop_last();
        let e = d.last();
        let s0 = ser_dir(init);
        lemma_u32_le(e.0);
        lemma_u32_le(e.1);
        lemma_u32_le(e.2);
        assert(ser_dir(d) == s0 + u32_le(e.0) + u32_le(e.1) + u32_le(e.2));
        lemma_holds_split(b, at, s0 + u32_le(e.0) + u32_le(e.1), u32_le(e.2));
        lemma_holds_split(b, at, s0 + u32_le(e.0), u32_le(e.1));
        lemma_holds_split(b, at, s0, u32_le(e.0));
        lemma_rd_dir(b, at, init);
        let a = at + s0.len();
        lemma_read_u32(b, a, e.0);
        lemma_read_u32(b, a + 4, e.1);
        lemma_read_u32(b, a + 8, e.2);
        assert(init.push(e) =~= d);
    }
}

proof fn lemma_dir_read_back(b: Seq<u8>, at: int, n: nat)
    requires
        rd_dir(b, at, n) is Some,
        0 <= at <= b.len(),
    ensures
        rd_dir(b, at, n).unwrap().0.len() == n,
        holds_at(b, at, ser_dir(rd_dir(b, at, n).unwrap().0)),
        rd_dir(b, at, n).unwrap().1 == at + ser_dir(rd_dir(b, at, n).unwrap().0).len(),
    decreases n,
{
    if n > 0 {
        lemma_dir_read_back(b, at, (n - 1) as nat);
        let (d, a) = rd_dir(b, at, (n - 1) as nat).unwrap();
        lemma_u32_read_back(b, a);
        lemma_u32_read_back(b, a + 4);
        lemma_u32_read_back(b, a + 8);
        let e = rd_entry(b, a).unwrap().0;
        lemma_u32_le(e.0);
        lemma_u32_le(e.1);
        lemma_u32_le(e.2);
        assert(d.push(e).drop_last() =~= d);
        let s0 = ser_dir(d);
        lemma_holds_split(b, at, s0, u32_le(e.0));
        lemma_holds_split(b, at, s0 + u32_le(e.0), u32_le(e.1));
        lemma_holds_split(b, at, s0 + u32_le(e.0) + u32_le(e.1), u32_le(e.2));
    } else {
        assert(b.subrange(at, at) =~= Seq::<u8>::empty());
    }
}

pub open spec fn paths_fit(ps: Seq<Seq<char>>) -> bool {
    forall|k: int| 0 <= k < ps.len() ==> vstd::utf8::encode_utf8(#[trigger] ps[k]).len() <= u32::MAX
}

proof fn lemma_rd_paths(b: Seq<u8>, at: int, ps: Seq<Seq<char>>)
    requires
        holds_at(b, at, ser_paths(ps)),
        paths_fit(ps),
    ensures
        rd_paths(b, at, ps.len()) == Some((ps, at + ser_paths(ps).len())),
    decreases ps.len(),
{
    if ps.len() > 0 {
        let init = ps.drop_last();
        let last = ps.last();
        let enc = vstd::utf8::encode_utf8(last);
        let s0 = ser_paths(init);
        assert(paths_fit(init)) by {
            assert forall|k: int| 0 <= k < init.len() implies vstd::utf8::encode_utf8(#[trigger] init[k]).len() <= u32::MAX by {
                assert(init[k] == ps[k]);
            }
        }
        assert(enc.len() <= u32::MAX) by {
            assert(ps[ps.len() - 1] == last);
        }
        lemma_u32_le(enc.len() as u32);
        lemma_holds_split(b, at, s0 + u32_le(enc.len() as u32), enc);
        lemma_holds_split(b, at, s0, u32_le(enc.len() as u32));
        lemma_rd_paths(b, at, init);
        let a = at + s0.len();
        lemma_read_u32(b, a, enc.len() as u32);
        vstd::utf8::encode_utf8_valid_utf8(last);
        vstd::utf8::encode_utf8_decode_utf8(last);
        assert(init.push(last) =~= ps);
    }
}

proof fn lemma_paths_read_back(b: Seq<u8>, at: int, n: nat)
    requires
        rd_paths(b, at, n) is Some,
        0 <= at <= b.len(),
    ensures
        rd_paths(b, at, n).unwrap().0.len() == n,
        holds_at(b, at, ser_paths(rd_paths(b, at, n).unwrap().0)),
        rd_paths(b, at, n).unwrap().1 == at + ser_paths(rd_paths(b, at, n).unwrap().0).len(),
    decreases n,
{
    if n > 0 {
        lemma_paths_read_back(b, at, (n - 1) as nat);
        let (ps, a) = rd_paths(b, at, (n - 1) as nat).unwrap();
        lemma_u32_read_back(b, a);
        let len = rd_u32(b, a).unwrap().0;
        let raw = b.subrange(a + 4, a + 4 + len);
        let pth = vstd::utf8::decode_utf8(raw);
        vstd::utf8::decode_utf8_encode_utf8(raw);
        lemma_u32_le(len);
        assert(ps.push(pth).drop_last() =~= ps);
        assert(ps.push(pth).last() == pth);
        let s0 = ser_paths(ps);
        lemma_holds_split(b, at, s0, u32_le(len));
        lemma_holds_split(b, at, s0 + u32_le(len), raw);
    } else {
        assert(b.subrange(at, at) =~= Seq::<u8>::empty());
    }
}


proof fn lemma_rd_paths_fit(b: Seq<u8>, at: int, n: nat)
    requires
        rd_paths(b, at, n) is Some,
    ensures
        paths_fit(rd_paths(b, at, n).unwrap().0),
        rd_paths(b, at, n).unwrap().0.len() == n,
    decreases n,
{
    if n > 0 {
        lemma_rd_paths_fit(b, at, (n - 1) as nat);
        let (ps, a) = rd_paths(b, at, (n - 1) as nat).unwrap();
        let (len, a1) = rd_u32(b, a).unwrap();
        let raw = b.subrange(a1, a1 + len);
        vstd::utf8::decode_utf8_encode_utf8(raw);
        let pth = vstd::utf8::decode_utf8(raw);
        let r = ps.push(pth);
        assert forall|k: int| 0 <= k < r.len() implies vstd::utf8::encode_utf8(#[trigger] r[k]).len()
            <= u32::MAX by {
            if k < ps.len() {
                assert(r[k] == ps[k]);
            }
        }
    }
}

proof fn lemma_rd_dir_len(b: Seq<u8>, at: int, n: nat)
    requires
        rd_dir(b, at, n) is Some,
    ensures
        rd_dir(b, at, n).unwrap().0.len() == n,
    decreases n,
{
    if n > 0 {
        lemma_rd_dir_len(b, at, (n - 1) as nat);
    }
}

proof fn lemma_rd_u32s_len(b: Seq<u8>, at: int, n: nat)
    requires
        rd_u32s(b, at, n) is Some,
    ensures
        rd_u32s(b, at, n).unwrap().0.len() == n,
    decreases n,
{
    if n > 0 {
        lemma_rd_u32s_len(b, at, (n - 1) as nat);
    }
}

/// Whatever reads as an index fits the stored form.
proof fn lemma_parsed_storable(b: Seq<u8>)
    requires
        parse_index(b) is Some,
    ensures
        storable(parse_index(b).unwrap()),
{
    let np = rd_u32(b, 16).unwrap().0;
    lemma_rd_paths_fit(b, 20, np as nat);
    let a4 = rd_paths(b, 20, np as nat).unwrap().1;
    let nd = rd_u32(b, a4).unwrap().0;
    lemma_rd_dir_len(b, a4 + 4, nd as nat);
    let a6 = rd_dir(b, a4 + 4, nd as nat).unwrap().1;
    let npo = rd_u32(b, a6).unwrap().0;
    lemma_rd_u32s_len(b, a6 + 4, npo as nat);
    let a8 = rd_u32s(b, a6 + 4, npo as nat).unwrap().1;
    let na = rd_u32(b, a8).unwrap().0;
    lemma_rd_u32s_len(b, a8 + 4, na as nat);
}

/// A byte string that reads as an index reads the same with anything
/// appended: an index is read from the front and never past its end.
pub proof fn lemma_parse_extends(b: Seq<u8>, more: Seq<u8>)
    requires
        parse_index(b) is Some,
    ensures
        parse_index(b + more) == parse_index(b),
{
    let v = parse_index(b).unwrap();
    lemma_parsed_is_serialized(b);
    lemma_parsed_storable(b);
    let s = ser_index(v);
    assert((b + more).subrange(0, s.len() as int) =~= b.subrange(0, s.len() as int));
    lemma_parse_serialized(v, b + more);
}

/// No cut-short copy of a stored index reads as an index: every proper
/// prefix of an index's stored form is refused.
#[verifier::spinoff_prover]
#[verifier::rlimit(80)]
pub proof fn lemma_prefix_refused(v: IndexView, n: int)
    requires
        storable(v),
        0 <= n < ser_index(v).len(),
    ensures
        parse_index(ser_index(v).take(n)) is None,
{
    let b = ser_index(v);
    let p = b.take(n);
    if parse_index(p) is Some {
        assert(parse_index(b) == Some(v)) by {
            assert(b.subrange(0, b.len() as int) =~= b);
            lemma_parse_serialized(v, b);
        }
        assert(parse_index(p) == Some(v)) by {
            lemma_parse_extends(p, b.skip(n));
            assert(p + b.skip(n) =~= b);
        }
        assert(holds_at(p, 0, b)) by {
            lemma_parsed_is_serialized(p);
        }
        assert(false);
    }
}

/// An index whose parts all fit the stored form's 32-bit lengths.
pub open spec fn storable(v: IndexView) -> bool {
    &&& v.0.len() <= u32::MAX
    &&& v.1.len() <= u32::MAX
    &&& v.2.len() <= u32::MAX
    &&& v.3.len() <= u32::MAX
    &&& paths_fit(v.0)
    &&& dir_sorted(v.1)
    &&& ranges_inside(v.1, v.2.len() as int)
}

proof fn lemma_sig_bytes(sig: u64)
    ensures
        ({
            let lo = (sig % 0x1_0000_0000) as u32;
            let hi = (sig / 0x1_0000_0000) as u32;
            (lo as int + hi as int * 0x1_0000_0000) as u64 == sig
        }),
{
    let x = sig as int;
    assert(x % 0x1_0000_0000 + (x / 0x1_0000_0000) * 0x1_0000_0000 == x && 0 <= x / 0x1_0000_0000
        < 0x1_0000_0000) by (nonlinear_arith)
        requires
            0 <= x < 0x1_0000_0000_0000_0000,
    ;
}

/// A stored index reads back as itself, whatever follows it.
#[verifier::spinoff_prover]
#[verifier::rlimit(40)]
pub proof fn lemma_parse_serialized(v: IndexView, b: Seq<u8>)
    requires
        storable(v),
        holds_at(b, 0, ser_index(v)),
    ensures
        parse_index(b) == Some(v),
{
    let lo = (v.4 % 0x1_0000_0000) as u32;
    let hi = (v.4 / 0x1_0000_0000) as u32;
    let p1 = u32_le(MAGIC);
    let p2 = p1 + u32_le(VERSION);
    let p3 = p2 + u32_le(lo);
    let p4 = p3 + u32_le(hi);
    let p5 = p4 + u32_le(v.0.len() as u32);
    let p6 = p5 + ser_paths(v.0);
    let p7 = p6 + u32_le(v.1.len() as u32);
    let p8 = p7 + ser_dir(v.1);
    let p9 = p8 + u32_le(v.2.len() as u32);
    let p10 = p9 + ser_u32s(v.2);
    let p11 = p10 + u32_le(v.3.len() as u32);
    let p12 = p11 + ser_u32s(v.3);
    assert(u64_le(v.4) == u32_le(lo) + u32_le(hi));
    assert(p12 =~= ser_index(v));
    lemma_holds_split(b, 0, p11, ser_u32s(v.3));
    lemma_holds_split(b, 0, p10, u32_le(v.3.len() as u32));
    lemma_holds_split(b, 0, p9, ser_u32s(v.2));
    lemma_holds_split(b, 0, p8, u32_le(v.2.len() as u32));
    lemma_holds_split(b, 0, p7, ser_dir(v.1));
    lemma_holds_split(b, 0, p6, u32_le(v.1.len() as u32));
    lemma_holds_split(b, 0, p5, ser_paths(v.0));
    lemma_holds_split(b, 0, p4, u32_le(v.0.len() as u32));
    lemma_holds_split(b, 0, p3, u32_le(hi));
    lemma_holds_split(b, 0, p2, u32_le(lo));
    lemma_holds_split(b, 0, p1, u32_le(VERSION));
    lemma_u32_le(MAGIC);
    lemma_read_u32(b, 0, MAGIC);
    lemma_read_u32(b, 4, VERSION);
    lemma_read_u32(b, 8, lo);
    lemma_read_u32(b, 12, hi);
    lemma_sig_bytes(v.4);
    lemma_read_u32(b, 16, v.0.len() as u32);
    lemma_rd_paths(b, 20, v.0);
    lemma_read_u32(b, p6.len() as int, v.1.len() as u32);
    lemma_rd_dir(b, p7.len() as int, v.1);
    lemma_read_u32(b, p8.len() as int, v.2.len() as u32);
    lemma_rd_u32s(b, p9.len() as int, v.2);
    lemma_read_u32(b, p10.len() as int, v.3.len() as u32);
    lemma_rd_u32s(b, p11.len() as int, v.3);
}

/// Whatever reads as an index starts with that index's stored form.
pub proof fn lemma_parsed_is_serialized(b: Seq<u8>)
    requires
        parse_index(b) is Some,
    ensures
        holds_at(b, 0, ser_index(parse_index(b).unwrap())),
{
    let v = parse_index(b).unwrap();
    let lo = rd_u32(b, 8).unwrap().0;
    let hi = rd_u32(b, 12).unwrap().0;
    lemma_u32_read_back(b, 0);
    lemma_u32_read_back(b, 4);
    lemma_u32_read_back(b, 8);
    lemma_u32_read_back(b, 12);
    lemma_u32_read_back(b, 16);
    let np = rd_u32(b, 16).unwrap().0;
    lemma_paths_read_back(b, 20, np as nat);
    let a4 = rd_paths(b, 20, np as nat).unwrap().1;
    lemma_u32_read_back(b, a4);
    let nd = rd_u32(b, a4).unwrap().0;
    lemma_dir_read_back(b, a4 + 4, nd as nat);
    let a6 = rd_dir(b, a4 + 4, nd as nat).unwrap().1;
    lemma_u32_read_back(b, a6);
    let npo = rd_u32(b, a6).unwrap().0;
    lemma_u32s_read_back(b, a6 + 4, npo as nat);
    let a8 = rd_u32s(b, a6 + 4, npo as nat).unwrap().1;
    lemma_u32_read_back(b, a8);
    let na = rd_u32(b, a8).unwrap().0;
    lemma_u32s_read_back(b, a8 + 4, na as nat);
    lemma_le_bytes(b[8], b[9], b[10], b[11]);
    lemma_le_bytes(b[12], b[13], b[14], b[15]);
    let sig = v.4;
    assert(sig as int == lo as int + hi as int * 0x1_0000_0000);
    assert((sig % 0x1_0000_0000) as u32 == lo && (sig / 0x1_0000_0000) as u32 == hi) by {
        let x = sig as int;
        assert(x % 0x1_0000_0000 == lo as int && x / 0x1_0000_0000 == hi as int) by (nonlinear_arith)
            requires
                x == lo as int + hi as int * 0x1_0000_0000,
                0 <= lo < 0x1_0000_0000,
        ;
    }
    assert(u64_le(sig) == u32_le(lo) + u32_le(hi));
    let p1 = u32_le(MAGIC);
    let p2 = p1 + u32_le(VERSION);
    let p3 = p2 + u32_le(lo);
    let p4 = p3 + u32_le(hi);
    let p5 = p4 + u32_le(v.0.len() as u32);
    let p6 = p5 + ser_paths(v.0);
    let p7 = p6 + u32_le(v.1.len() as u32);
    let p8 = p7 + ser_dir(v.1);
    let p9 = p8 + u32_le(v.2.len() as u32);
    let p10 = p9 + ser_u32s(v.2);
    let p11 = p10 + u32_le(v.3.len() as u32);
    let p12 = p11 + ser_u32s(v.3);
    assert(p12 =~= ser_index(v));
    lemma_u32_le(MAGIC);
    lemma_u32_le(VERSION);
    lemma_u32_le(lo);
    lemma_u32_le(hi);
    lemma_u32_le(np);
    lemma_u32_le(nd);
    lemma_u32_le(npo);
    lemma_u32_le(na);
    lemma_holds_split(b, 0, p1, u32_le(VERSION));
    lemma_holds_split(b, 0, p2, u32_le(lo));
    lemma_holds_split(b, 0, p3, u32_le(hi));
    lemma_holds_split(b, 0, p4, u32_le(v.0.len() as u32));
    lemma_holds_split(b, 0, p5, ser_paths(v.0));
    lemma_holds_split(b, 0, p6, u32_le(v.1.len() as u32));
    lemma_holds_split(b, 0, p7, ser_dir(v.1));
    lemma_holds_split(b, 0, p8, u32_le(v.2.len() as u32));
    lemma_holds_split(b, 0, p9, ser_u32s(v.2));
    lemma_holds_split(b, 0, p10, u32_le(v.3.len() as u32));
    lemma_holds_split(b, 0, p11, ser_u32s(v.3));
}


/// Calls `std::str::from_utf8`, which std documents as failing exactly when
/// the bytes are not UTF-8; the text it gives is what the bytes encode.
#[verifier::external_body]
pub(crate) fn utf8_text(b: &[u8]) -> (r: Option<String>)
    ensures
        match r {
            Some(s) => vstd::utf8::valid_utf8(b@) && s@ == vstd::utf8::decode_utf8(b@),
            None => !vstd::utf8::valid_utf8(b@),
        },
{
    match std::str::from_utf8(b) {
        Ok(s) => Some(s.to_owned()),
        Err(_) => None,
    }
}

fn push_u32(out: &mut Vec<u8>, x: u32)
    ensures
        final(out)@ == old(out)@ + u32_le(x),
{
    out.push((x % 256) as u8);
    out.push(((x / 256) % 256) as u8);
    out.push(((x / 65536) % 256) as u8);
    out.push((x / 16777216) as u8);
    proof {
        assert(final(out)@ =~= old(out)@ + u32_le(x));
    }
}

fn read_u32(b: &[u8], at: usize) -> (r: Option<(u32, usize)>)
    ensures
        match r {
            Some((x, e)) => rd_u32(b@, at as int) == Some((x, e as int)),
            None => rd_u32(b@, at as int) is None,
        },
{
    if at > b.len() || b.len() - at < 4 {
        return None;
    }
    let x: u32 = (b[at] as u32) + 256 * (b[at + 1] as u32) + 65536 * (b[at + 2] as u32) + 16777216 * (
    b[at + 3] as u32);
    Some((x, at + 4))
}

fn read_u32s(b: &[u8], at: usize, n: u32) -> (r: Option<(Vec<u32>, usize)>)
    ensures
        match r {
            Some((xs, e)) => rd_u32s(b@, at as int, n as nat) == Some((xs@, e as int)),
            None => rd_u32s(b@, at as int, n as nat) is None,
        },
{
    let mut xs: Vec<u32> = Vec::new();
    let mut pos = at;
    let mut k: u32 = 0;
    while k < n
        invariant
            k <= n,
            rd_u32s(b@, at as int, k as nat) == Some((xs@, pos as int)),
        decreases n - k,
    {
        match read_u32(b, pos) {
            None => {
                proof {
                    lemma_rd_u32s_fails(b@, at as int, (k + 1) as nat, n as nat);
                }
                return None;
            },
            Some((x, e)) => {
                xs.push(x);
                pos = e;
            },
        }
        k += 1;
    }
    Some((xs, pos))
}

proof fn lemma_rd_u32s_fails(b: Seq<u8>, at: int, k: nat, n: nat)
    requires
        k <= n,
        rd_u32s(b, at, k) is None,
    ensures
        rd_u32s(b, at, n) is None,
    decreases n - k,
{
    if k < n {
        lemma_rd_u32s_fails(b, at, k + 1, n);
    }
}

proof fn lemma_rd_dir_fails(b: Seq<u8>, at: int, k: nat, n: nat)
    requires
        k <= n,
        rd_dir(b, at, k) is None,
    ensures
        rd_dir(b, at, n) is None,
    decreases n - k,
{
    if k < n {
        lemma_rd_dir_fails(b, at, k + 1, n);
    }
}

proof fn lemma_rd_paths_fails(b: Seq<u8>, at: int, k: nat, n: nat)
    requires
        k <= n,
        rd_paths(b, at, k) is None,
    ensures
        rd_paths(b, at, n) is None,
    decreases n - k,
{
    if k < n {
        lemma_rd_paths_fails(b, at, k + 1, n);
    }
}

fn read_dir(b: &[u8], at: usize, n: u32) -> (r: Option<(Vec<(u32, u32, u32)>, usize)>)
    ensures
        match r {
            Some((d, e)) => rd_dir(b@, at as int, n as nat) == Some((d@, e as int)),
            None => rd_dir(b@, at as int, n as nat) is None,
        },
{
    let mut d: Vec<(u32, u32, u32)> = Vec::new();
    let mut pos = at;
    let mut k: u32 = 0;
    while k < n
        invariant
            k <= n,
            rd_dir(b@, at as int, k as nat) == Some((d@, pos as int)),
        decreases n - k,
    {
        let g = read_u32(b, pos);
        if g.is_none() {
            proof {
                lemma_rd_dir_fails(b@, at as int, (k + 1) as nat, n as nat);
            }
            return None;
        }
        let (gram, p1) = g.unwrap();
        let st = read_u32(b, p1);
        if st.is_none() {
            proof {
                lemma_rd_dir_fails(b@, at as int, (k + 1) as nat, n as nat);
            }
            return None;
        }
        let (start, p2) = st.unwrap();
        let ln = read_u32(b, p2);
        if ln.is_none() {
            proof {
                lemma_rd_dir_fails(b@, at as int, (k + 1) as nat, n as nat);
            }
            return None;
        }
        let (len, p3) = ln.unwrap();
        d.push((gram, start, len));
        pos = p3;
        k += 1;
    }
    Some((d, pos))
}

fn read_paths(b: &[u8], at: usize, n: u32) -> (r: Option<(Vec<String>, usize)>)
    ensures
        match r {
            Some((ps, e)) => rd_paths(b@, at as int, n as nat) == Some((string_views(ps@), e as int)),
            None => rd_paths(b@, at as int, n as nat) is None,
        },
{
    let mut ps: Vec<String> = Vec::new();
    let mut pos = at;
    let mut k: u32 = 0;
    proof {
        assert(string_views(ps@) =~= Seq::<Seq<char>>::empty());
    }
    while k < n
        invariant
            k <= n,
            rd_paths(b@, at as int, k as nat) == Some((string_views(ps@), pos as int)),
        decreases n - k,
    {
        let l = read_u32(b, pos);
        if l.is_none() {
            proof {
                lemma_rd_paths_fails(b@, at as int, (k + 1) as nat, n as nat);
            }
            return None;
        }
        let (len, p1) = l.unwrap();
        if p1 > b.len() || (len as usize) > b.len() - p1 {
            proof {
                lemma_rd_paths_fails(b@, at as int, (k + 1) as nat, n as nat);
            }
            return None;
        }
        let end = p1 + len as usize;
        let text = utf8_text(vstd::slice::slice_subrange(b, p1, end));
        match text {
            None => {
                proof {
                    lemma_rd_paths_fails(b@, at as int, (k + 1) as nat, n as nat);
                }
                return None;
            },
            Some(t) => {
                let ghost before = ps@;
                ps.push(t);
                proof {
                    assert(string_views(ps@) =~= string_views(before).push(t@));
                }
                pos = end;
            },
        }
        k += 1;
    }
    Some((ps, pos))
}

impl GramIndex {
    pub open spec fn view_parts(&self) -> IndexView {
        (self.paths(), self.dir(), self.posts(), self.unread(), self.spec_signature())
    }

    /// The stored form of this index.
    pub fn to_bytes(&self) -> (r: Vec<u8>)
        ensures
            r@ == ser_index(self.view_parts()),
    {
        let mut out: Vec<u8> = Vec::new();
        push_u32(&mut out, MAGIC);
        push_u32(&mut out, VERSION);
        push_u32(&mut out, (self.signature % 0x1_0000_0000) as u32);
        push_u32(&mut out, (self.signature / 0x1_0000_0000) as u32);
        proof {
            assert(out@ =~= u32_le(MAGIC) + u32_le(VERSION) + u64_le(self.signature));
        }
        push_u32(&mut out, #[verifier::truncate] (self.documents.len() as u32));
        let ghost head = out@;
        let mut k: usize = 0;
        while k < self.documents.len()
            invariant
                k <= self.documents@.len(),
                out@ == head + ser_paths(string_views(self.documents@).take(k as int)),
            decreases self.documents@.len() - k,
        {
            let bytes = self.documents[k].as_str().as_bytes();
            push_u32(&mut out, #[verifier::truncate] (bytes.len() as u32));
            let mut m: usize = 0;
            let ghost mid = out@;
            while m < bytes.len()
                invariant
                    m <= bytes@.len(),
                    out@ == mid + bytes@.take(m as int),
                decreases bytes@.len() - m,
            {
                out.push(bytes[m]);
                m += 1;
                proof {
                    assert(out@ =~= mid + bytes@.take(m as int));
                }
            }
            proof {
                let views = string_views(self.documents@);
                assert(views.take(k + 1).drop_last() =~= views.take(k as int));
                assert(views.take(k + 1).last() == self.documents@[k as int]@);
                assert(bytes@.take(m as int) =~= bytes@);
                assert(out@ =~= head + ser_paths(views.take(k + 1)));
            }
            k += 1;
        }
        proof {
            assert(string_views(self.documents@).take(k as int) =~= string_views(self.documents@));
        }
        push_u32(&mut out, #[verifier::truncate] (self.directory.len() as u32));
        let ghost head2 = out@;
        let mut j: usize = 0;
        while j < self.directory.len()
            invariant
                j <= self.directory@.len(),
                out@ == head2 + ser_dir(self.directory@.take(j as int)),
            decreases self.directory@.len() - j,
        {
            let (g, st, ln) = self.directory[j];
            push_u32(&mut out, g);
            push_u32(&mut out, st);
            push_u32(&mut out, ln);
            proof {
                assert(self.directory@.take(j + 1).drop_last() =~= self.directory@.take(j as int));
                assert(out@ =~= head2 + ser_dir(self.directory@.take(j + 1)));
            }
            j += 1;
        }
        proof {
            assert(self.directory@.take(j as int) =~= self.directory@);
        }
        push_u32(&mut out, #[verifier::truncate] (self.postings.len() as u32));
        push_all_u32(&mut out, &self.postings);
        push_u32(&mut out, #[verifier::truncate] (self.always.len() as u32));
        push_all_u32(&mut out, &self.always);
        out
    }

    /// Parses an index, or nothing if it is not one this build understands.
    /// Every length is checked against what is actually there.
    pub fn from_bytes(bytes: &[u8]) -> (r: Option<Self>)
        ensures
            match r {
                Some(ix) => ix.wf() && parse_index(bytes@) == Some(ix.view_parts()),
                None => parse_index(bytes@) is None,
            },
    {
        let m = read_u32(bytes, 0);
        if m.is_none() {
            return None;
        }
        let (magic, a0) = m.unwrap();
        if magic != MAGIC {
            return None;
        }
        let ver = read_u32(bytes, a0);
        if ver.is_none() {
            return None;
        }
        let (version, a1) = ver.unwrap();
        if version != VERSION {
            return None;
        }
        let l = read_u32(bytes, a1);
        if l.is_none() {
            return None;
        }
        let (lo, _) = l.unwrap();
        let h = read_u32(bytes, a1 + 4);
        if h.is_none() {
            return None;
        }
        let (hi, a2) = h.unwrap();
        let signature: u64 = (lo as u64) + (hi as u64) * 0x1_0000_0000;
        let np = read_u32(bytes, a2);
        if np.is_none() {
            return None;
        }
        let (np, a3) = np.unwrap();
        let ps = read_paths(bytes, a3, np);
        if ps.is_none() {
            return None;
        }
        let (documents, a4) = ps.unwrap();
        let nd = read_u32(bytes, a4);
        if nd.is_none() {
            return None;
        }
        let (nd, a5) = nd.unwrap();
        let dr = read_dir(bytes, a5, nd);
        if dr.is_none() {
            return None;
        }
        let (directory, a6) = dr.unwrap();
        let npo = read_u32(bytes, a6);
        if npo.is_none() {
            return None;
        }
        let (npo, a7) = npo.unwrap();
        let po = read_u32s(bytes, a7, npo);
        if po.is_none() {
            return None;
        }
        let (postings, a8) = po.unwrap();
        let na = read_u32(bytes, a8);
        if na.is_none() {
            return None;
        }
        let (na, a9) = na.unwrap();
        let al = read_u32s(bytes, a9, na);
        if al.is_none() {
            return None;
        }
        let (always, _) = al.unwrap();
        if !sound_directory(&directory, postings.len()) {
            return None;
        }
        Some(GramIndex { documents, directory, postings, always, signature })
    }
}

fn push_all_u32(out: &mut Vec<u8>, xs: &Vec<u32>)
    ensures
        final(out)@ == old(out)@ + ser_u32s(xs@),
{
    let ghost head = out@;
    let mut i: usize = 0;
    while i < xs.len()
        invariant
            i <= xs@.len(),
            out@ == head + ser_u32s(xs@.take(i as int)),
        decreases xs@.len() - i,
    {
        push_u32(out, xs[i]);
        proof {
            assert(xs@.take(i + 1).drop_last() =~= xs@.take(i as int));
            assert(out@ =~= head + ser_u32s(xs@.take(i + 1)));
        }
        i += 1;
    }
    proof {
        assert(xs@.take(i as int) =~= xs@);
    }
}

/// Every posting range lies inside the postings and grams increase.
fn sound_directory(d: &Vec<(u32, u32, u32)>, postings_len: usize) -> (r: bool)
    ensures
        r == (ranges_inside(d@, postings_len as int) && dir_sorted(d@)),
{
    let mut j: usize = 0;
    while j < d.len()
        invariant
            j <= d@.len(),
            ranges_inside(d@.take(j as int), postings_len as int),
            dir_sorted(d@.take(j as int)),
        decreases d@.len() - j,
    {
        let (g, st, ln) = d[j];
        if ln != DROPPED && (st as u64) + (ln as u64) > postings_len as u64 {
            proof {
                assert(!ranges_inside(d@, postings_len as int)) by {
                    assert(d@[j as int].2 != DROPPED && d@[j as int].1 + d@[j as int].2 > postings_len);
                }
            }
            return false;
        }
        if j > 0 && d[j - 1].0 >= g {
            proof {
                assert(!dir_sorted(d@)) by {
                    assert(d@[j - 1].0 >= d@[j as int].0);
                }
            }
            return false;
        }
        proof {
            assert forall|a: int| 0 <= a < j + 1 implies (#[trigger] d@.take(j + 1)[a]).2 == DROPPED || d@.take(j + 1)[a].1 + d@.take(j + 1)[a].2 <= postings_len by {
                if a < j {
                    assert(d@.take(j + 1)[a] == d@.take(j as int)[a]);
                }
            }
            assert forall|a: int, c: int| 0 <= a < c < j + 1 implies (#[trigger] d@.take(j + 1)[a]).0 < (#[trigger] d@.take(j + 1)[c]).0 by {
                if c < j {
                    assert(d@.take(j + 1)[a] == d@.take(j as int)[a]);
                    assert(d@.take(j + 1)[c] == d@.take(j as int)[c]);
                } else if a < j - 1 {
                    assert(d@.take(j as int)[a].0 < d@.take(j as int)[j - 1].0);
                }
            }
        }
        j += 1;
    }
    proof {
        assert(d@.take(j as int) =~= d@);
    }
    true
}

/// The stored form of a valid index reads back as the same index: paths,
/// directory, postings, unread slots and signature.
pub proof fn lemma_round_trip(ix: GramIndex)
    requires
        storable(ix.view_parts()),
    ensures
        parse_index(ser_index(ix.view_parts())) == Some(ix.view_parts()),
{
    let b = ser_index(ix.view_parts());
    assert(b.subrange(0, b.len() as int) =~= b);
    lemma_parse_serialized(ix.view_parts(), b);
}

} // verus!
