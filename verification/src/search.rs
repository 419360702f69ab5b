//! Incremental, byte-budgeted search index.
//!
//! The index stores compact normalized text for each page plus a sparse map
//! back to PDFium character indices. It is filled in page order, so a large
//! document gets the broadest prefix coverage the configured budget allows,
//! and the budget is shared by every open document.
//!
//! Text is modelled by the raw characters it was built from: everything the
//! index answers is stated over `normalized`, `origins` and the folded text
//! of those characters.

use crate::chars::{char_vec, is_space, space, string_of};
use crate::types::{DocId, MatchDto, PageMatchesDto, SearchQueryDto};
use std::sync::Arc;
use unicode_normalization::UnicodeNormalization;
use vstd::prelude::*;

verus! {

// ---------------------------------------------------------------------------
// Names for what the Unicode tables give.

/// The NFKC normalization of the single character `c`, as
/// `unicode_normalization` computes it.
pub uninterp spec fn nfkc_of(c: char) -> Seq<char>;

/// The full lowercase mapping of `c`, as `char::to_lowercase` yields it.
pub uninterp spec fn lowercase_of(c: char) -> Seq<char>;

/// Calls `UnicodeNormalization::nfkc` on one character and collects what it
/// yields; the contract only names the result.
#[verifier::external_body]
fn nfkc_chars(c: char) -> (r: Vec<char>)
    ensures
        r@ == nfkc_of(c),
{
    c.nfkc().collect()
}

/// Calls `char::to_lowercase` and collects what it yields; the contract only
/// names the result.
#[verifier::external_body]
pub(crate) fn lowercase_chars(c: char) -> (r: Vec<char>)
    ensures
        r@ == lowercase_of(c),
{
    c.to_lowercase().collect()
}

// ---------------------------------------------------------------------------
// Normalization model.

/// Typographic quotes and primes are matched as their ASCII forms.
pub open spec fn straighten(c: char) -> char {
    if c == '\u{2018}' || c == '\u{2019}' || c == '\u{201A}' || c == '\u{2032}' {
        '\''
    } else if c == '\u{201C}' || c == '\u{201D}' || c == '\u{201E}' || c == '\u{2033}' {
        '"'
    } else {
        c
    }
}

/// One raw character `c` at raw index `i` applied to (text so far, raw index
/// of each text character, inside a whitespace run). Whitespace runs become
/// one space, never a leading one; quotes are straightened; every other
/// character contributes its NFKC form.
pub open spec fn norm_step(st: (Seq<char>, Seq<int>, bool), c: char, i: int) -> (
    Seq<char>,
    Seq<int>,
    bool,
) {
    if is_space(c) {
        if !st.2 && st.0.len() > 0 {
            (st.0.push(' '), st.1.push(i), true)
        } else {
            (st.0, st.1, true)
        }
    } else if straighten(c) != c {
        (st.0.push(straighten(c)), st.1.push(i), false)
    } else {
        (st.0 + nfkc_of(c), st.1 + Seq::new(nfkc_of(c).len(), |k: int| i), false)
    }
}

/// The normalization state after the first `n` raw characters.
pub open spec fn norm_prefix(raw: Seq<char>, n: int) -> (Seq<char>, Seq<int>, bool)
    decreases n,
{
    if n <= 0 || n > raw.len() {
        (Seq::empty(), Seq::empty(), false)
    } else {
        norm_step(norm_prefix(raw, n - 1), raw[n - 1], n - 1)
    }
}

/// The normalized text of `raw`.
pub open spec fn normalized(raw: Seq<char>) -> Seq<char> {
    norm_prefix(raw, raw.len() as int).0
}

/// For each normalized character, the raw index it came from.
pub open spec fn origins(raw: Seq<char>) -> Seq<int> {
    norm_prefix(raw, raw.len() as int).1
}

/// Case-insensitive one-character fold: the first character of the
/// lowercase mapping. Keeping one character per character keeps the raw-index
/// map shared between case-sensitive and folded text.
pub open spec fn fold_char(c: char) -> char {
    if lowercase_of(c).len() > 0 {
        lowercase_of(c)[0]
    } else {
        c
    }
}

pub open spec fn fold_seq(s: Seq<char>) -> Seq<char> {
    s.map_values(|c: char| fold_char(c))
}

/// Number of breakpoints of the offset map: the places where
/// `raw index - normalized index` changes, counting the first character.
pub open spec fn breaks_of(o: Seq<int>) -> nat
    decreases o.len(),
{
    if o.len() == 0 {
        0
    } else {
        let n = o.len() - 1;
        breaks_of(o.drop_last()) + if n == 0 || o[n] - n != o[n - 1] - (n - 1) {
            1nat
        } else {
            0nat
        }
    }
}

/// Bytes of the UTF-8 encoding of `c`, as `char::len_utf8` documents it.
pub open spec fn utf8_width(c: char) -> nat {
    if (c as u32) < 0x80 {
        1
    } else if (c as u32) < 0x800 {
        2
    } else if (c as u32) < 0x10000 {
        3
    } else {
        4
    }
}

pub open spec fn utf8_len(s: Seq<char>) -> nat
    decreases s.len(),
{
    if s.len() == 0 {
        0
    } else {
        utf8_len(s.drop_last()) + utf8_width(s.last())
    }
}

pub open spec fn cap64(x: nat) -> u64 {
    if x <= u64::MAX {
        x as u64
    } else {
        u64::MAX
    }
}

/// Retained bytes of a page entry built from `raw`: a fixed header, both
/// texts in UTF-8, and eight bytes per offset-map breakpoint.
pub open spec fn page_cost(raw: Seq<char>) -> u64 {
    cap64(
        64 + utf8_len(normalized(raw)) + utf8_len(fold_seq(normalized(raw))) + 8 * breaks_of(
            origins(raw),
        ),
    )
}

/// The query text a search looks for.
pub open spec fn prepared(query: Seq<char>, case_sensitive: bool) -> Seq<char> {
    if case_sensitive {
        normalized(query)
    } else {
        fold_seq(normalized(query))
    }
}

// ---------------------------------------------------------------------------
// Offset map.

/// The delta of the last breakpoint at or before `n`.
pub open spec fn lookup(b: Seq<(usize, i128)>, n: int) -> int
    decreases b.len(),
{
    if b.len() == 0 {
        0
    } else if b.last().0 <= n {
        b.last().1 as int
    } else {
        lookup(b.drop_last(), n)
    }
}

/// Piecewise-constant `raw index - normalized index` offsets: most text is
/// identity-mapped, so only a handful of breakpoints per page are kept.
pub struct OffsetMap {
    breaks: Vec<(usize, i128)>,
}

impl OffsetMap {
    /// Every recorded offset is a difference of two `usize` indices.
    #[verifier::type_invariant]
    spec fn bounded(&self) -> bool {
        forall|k: int|
            0 <= k < self.breaks@.len() ==> -0x1_0000_0000_0000_0000 < #[trigger] self.breaks@[k].1
                < 0x1_0000_0000_0000_0000
    }

    /// The map reproduces `origin`: each normalized index maps to its raw index.
    pub closed spec fn maps(&self, origin: Seq<int>) -> bool {
        &&& origin.len() > 0 ==> self.breaks@.len() > 0 && self.breaks@.last().0 < origin.len()
        &&& origin.len() == 0 ==> self.breaks@.len() == 0
        &&& forall|m: int| 0 <= m < origin.len() ==> #[trigger] lookup(self.breaks@, m) == origin[m] - m
        &&& self.breaks@.len() == breaks_of(origin)
    }

    /// What `raw_index` gives for `n`.
    pub closed spec fn index_at(&self, n: int) -> u32 {
        let v = n + lookup(self.breaks@, n);
        if v < 0 {
            0
        } else {
            #[verifier::truncate]
            (v as u32)
        }
    }

    /// Within the mapped range the map gives back the recorded raw index.
    pub proof fn lemma_index_at(&self, origin: Seq<int>, n: int)
        requires
            self.maps(origin),
            0 <= n < origin.len(),
            origin[n] >= 0,
        ensures
            self.index_at(n) == origin[n] as u32,
    {
        assert(lookup(self.breaks@, n) == origin[n] - n);
    }

    fn new() -> (m: Self)
        ensures
            m.maps(Seq::empty()),
    {
        OffsetMap { breaks: Vec::new() }
    }

    fn push(&mut self, norm_index: usize, raw_index: usize, Ghost(origin): Ghost<Seq<int>>)
        requires
            old(self).maps(origin),
            norm_index == origin.len(),
        ensures
            final(self).maps(origin.push(raw_index as int)),
    {
        let delta: i128 = raw_index as i128 - norm_index as i128;
        let ghost o2 = origin.push(raw_index as int);
        let n = self.breaks.len();
        let same = n > 0 && self.breaks[n - 1].1 == delta;
        proof {
            assert(o2.drop_last() =~= origin);
            if origin.len() > 0 {
                let m = origin.len() - 1;
                assert(lookup(self.breaks@, m) == origin[m] - m);
                assert(lookup(self.breaks@, m) == self.breaks@.last().1);
            }
        }
        proof {
            use_type_invariant(&*self);
        }
        if !same {
            let mut b: Vec<(usize, i128)> = Vec::new();
            std::mem::swap(&mut b, &mut self.breaks);
            b.push((norm_index, delta));
            self.breaks = b;
            proof {
                assert forall|m: int| 0 <= m < o2.len() implies #[trigger] lookup(self.breaks@, m)
                    == o2[m] - m by {
                    if m < origin.len() {
                        assert(self.breaks@.drop_last() =~= old(self).breaks@);
                        assert(lookup(old(self).breaks@, m) == origin[m] - m);
                    }
                }
            }
        } else {
            proof {
                assert forall|m: int| 0 <= m < o2.len() implies #[trigger] lookup(self.breaks@, m)
                    == o2[m] - m by {
                    if m < origin.len() {
                        assert(lookup(old(self).breaks@, m) == origin[m] - m);
                    }
                }
            }
        }
    }

    /// The raw character index of normalized index `norm_index`.
    pub fn raw_index(&self, norm_index: u32) -> (r: u32)
        ensures
            r == self.index_at(norm_index as int),
    {
        self.raw_index_at(norm_index as usize)
    }

    fn raw_index_at(&self, norm_index: usize) -> (r: u32)
        ensures
            r == self.index_at(norm_index as int),
    {
        proof {
            use_type_invariant(self);
            assert(self.breaks@.take(self.breaks@.len() as int) =~= self.breaks@);
        }
        let mut k = self.breaks.len();
        while k > 0 && self.breaks[k - 1].0 > norm_index
            invariant
                k <= self.breaks@.len(),
                lookup(self.breaks@, norm_index as int) == lookup(
                    self.breaks@.take(k as int),
                    norm_index as int,
                ),
            decreases k,
        {
            proof {
                assert(self.breaks@.take(k as int).drop_last() =~= self.breaks@.take(k - 1));
            }
            k -= 1;
        }
        let delta: i128 = if k == 0 {
            0
        } else {
            self.breaks[k - 1].1
        };
        proof {
            if k > 0 {
                assert(self.breaks@.take(k as int).last() == self.breaks@[k - 1]);
            }
        }
        proof {
            if k > 0 {
                assert(-0x1_0000_0000_0000_0000 < self.breaks@[k - 1].1 < 0x1_0000_0000_0000_0000);
            }
        }
        let v: i128 = norm_index as i128 + delta;
        if v < 0 {
            0
        } else {
            #[verifier::truncate]
            (v as u32)
        }
    }

    fn cost(&self) -> (c: u64)
        ensures
            c == cap64(8 * self.breaks@.len()),
    {
        let n = self.breaks.len() as u64;
        if n <= u64::MAX / 8 {
            8 * n
        } else {
            u64::MAX
        }
    }
}


/// All raw indices recorded while normalizing the first `n` characters lie
/// below `n`.
pub proof fn lemma_origins_range(raw: Seq<char>, n: int)
    ensures
        norm_prefix(raw, n).0.len() == norm_prefix(raw, n).1.len(),
        forall|m: int|
            0 <= m < norm_prefix(raw, n).1.len() ==> 0 <= #[trigger] norm_prefix(raw, n).1[m] < n,
    decreases n,
{
    if 0 < n <= raw.len() {
        lemma_origins_range(raw, n - 1);
    }
}

// ---------------------------------------------------------------------------
// Normalization.

fn straighten_char(c: char) -> (r: char)
    ensures
        r == straighten(c),
{
    if c == '\u{2018}' || c == '\u{2019}' || c == '\u{201A}' || c == '\u{2032}' {
        '\''
    } else if c == '\u{201C}' || c == '\u{201D}' || c == '\u{201E}' || c == '\u{2033}' {
        '"'
    } else {
        c
    }
}

/// Normalized text together with its map back to raw character indices.
pub struct NormalizedText {
    pub text: String,
    pub map: OffsetMap,
}

fn normalize_chars(v: &[char]) -> (r: (Vec<char>, OffsetMap))
    ensures
        r.0@ == normalized(v@),
        r.1.maps(origins(v@)),
{
    let mut text: Vec<char> = Vec::new();
    let mut map = OffsetMap::new();
    let mut in_ws = false;
    let mut i: usize = 0;
    let ghost mut origin: Seq<int> = Seq::empty();
    while i < v.len()
        invariant
            i <= v@.len(),
            (text@, origin, in_ws) == norm_prefix(v@, i as int),
            map.maps(origin),
            text@.len() == origin.len(),
        decreases v@.len() - i,
    {
        let c = v[i];
        let ghost pre = (text@, origin, in_ws);
        proof {
            assert(norm_prefix(v@, i + 1) == norm_step(pre, c, i as int));
        }
        if space(c) {
            if !in_ws && text.len() > 0 {
                map.push(text.len(), i, Ghost(origin));
                text.push(' ');
                proof {
                    origin = origin.push(i as int);
                }
            }
            in_ws = true;
        } else {
            in_ws = false;
            let s = straighten_char(c);
            if s != c {
                map.push(text.len(), i, Ghost(origin));
                text.push(s);
                proof {
                    origin = origin.push(i as int);
                }
            } else {
                let n = nfkc_chars(c);
                let mut j: usize = 0;
                while j < n.len()
                    invariant
                        j <= n@.len(),
                        n@ == nfkc_of(c),
                        text@ == pre.0 + n@.take(j as int),
                        origin == pre.1 + Seq::new(j as nat, |k: int| i as int),
                        map.maps(origin),
                        text@.len() == origin.len(),
                    decreases n@.len() - j,
                {
                    map.push(text.len(), i, Ghost(origin));
                    text.push(n[j]);
                    proof {
                        origin = origin.push(i as int);
                        assert(text@ =~= pre.0 + n@.take(j + 1));
                        assert(origin =~= pre.1 + Seq::new((j + 1) as nat, |k: int| i as int));
                    }
                    j += 1;
                }
                proof {
                    assert(n@.take(j as int) =~= n@);
                }
            }
        }
        i += 1;
    }
    (text, map)
}

/// Normalize one raw character stream while retaining a compact mapping back
/// to PDFium's character indices.
pub fn normalize(raw: &str) -> (r: NormalizedText)
    ensures
        r.text@ == normalized(raw@),
        r.map.maps(origins(raw@)),
{
    let v = char_vec(raw);
    let (text, map) = normalize_chars(&v);
    NormalizedText { text: string_of(&text), map }
}

fn fold(c: char) -> (r: char)
    ensures
        r == fold_char(c),
{
    let l = lowercase_chars(c);
    if l.len() > 0 {
        l[0]
    } else {
        c
    }
}

fn fold_chars(v: &[char]) -> (r: Vec<char>)
    ensures
        r@ == fold_seq(v@),
{
    let mut r: Vec<char> = Vec::new();
    let mut i: usize = 0;
    while i < v.len()
        invariant
            i <= v@.len(),
            r@ == fold_seq(v@.take(i as int)),
        decreases v@.len() - i,
    {
        r.push(fold(v[i]));
        i += 1;
        proof {
            assert(r@ =~= fold_seq(v@.take(i as int)));
        }
    }
    proof {
        assert(v@.take(i as int) =~= v@);
    }
    r
}

pub(crate) fn utf8_width_of(c: char) -> (w: u64)
    ensures
        w == utf8_width(c),
{
    let x = c as u32;
    if x < 0x80 {
        1
    } else if x < 0x800 {
        2
    } else if x < 0x10000 {
        3
    } else {
        4
    }
}

fn sat_add(a: u64, b: u64) -> (c: u64)
    ensures
        c == cap64((a + b) as nat),
{
    if a <= u64::MAX - b {
        a + b
    } else {
        u64::MAX
    }
}

proof fn lemma_cap_add(x: nat, y: nat)
    ensures
        cap64((cap64(x) + y) as nat) == cap64(x + y),
{
}

/// Bytes of the UTF-8 encoding of `v`.
fn utf8_bytes(v: &[char]) -> (n: u64)
    ensures
        n == cap64(utf8_len(v@)),
{
    let mut n: u64 = 0;
    let mut i: usize = 0;
    while i < v.len()
        invariant
            i <= v@.len(),
            n == cap64(utf8_len(v@.take(i as int))),
        decreases v@.len() - i,
    {
        let w = utf8_width_of(v[i]);
        proof {
            assert(v@.take(i + 1).drop_last() =~= v@.take(i as int));
            lemma_cap_add(utf8_len(v@.take(i as int)), w as nat);
        }
        n = sat_add(n, w);
        i += 1;
    }
    proof {
        assert(v@.take(i as int) =~= v@);
    }
    n
}

// ---------------------------------------------------------------------------
// Page entries.

/// Compact search text for one page: its normalized and case-folded forms
/// and the map back to raw character indices.
pub struct PageEntry {
    normalized: String,
    folded: String,
    map: OffsetMap,
    raw: Ghost<Seq<char>>,
    pub char_count: u32,
    pub cost: u64,
}

impl PageEntry {
    /// The raw characters the entry was built from.
    pub closed spec fn raw_text(&self) -> Seq<char> {
        self.raw@
    }

    pub closed spec fn spec_char_count(&self) -> u32 {
        self.char_count
    }

    pub closed spec fn spec_cost(&self) -> u64 {
        self.cost
    }

    pub closed spec fn wf(&self) -> bool {
        &&& self.normalized@ == normalized(self.raw@)
        &&& self.folded@ == fold_seq(normalized(self.raw@))
        &&& self.map.maps(origins(self.raw@))
        &&& self.cost == page_cost(self.raw@)
    }

    pub fn new(raw: &str, char_count: u32) -> (e: Self)
        ensures
            e.wf(),
            e.raw_text() == raw@,
            e.spec_char_count() == char_count,
            e.spec_cost() == page_cost(raw@),
    {
        let v = char_vec(raw);
        let (text, map) = normalize_chars(&v);
        let folded = fold_chars(&text);
        let a = utf8_bytes(&text);
        let b = utf8_bytes(&folded);
        let c = map.cost();
        proof {
            let x = utf8_len(normalized(raw@));
            let y = utf8_len(fold_seq(normalized(raw@)));
            let z = 8 * breaks_of(origins(raw@));
            lemma_cap_add(x, 64);
            lemma_cap_add((64 + x) as nat, y);
            assert(cap64((cap64((64 + x) as nat) + y) as nat) == cap64((64 + x + y) as nat));
            lemma_cap_add(z, (64 + x + y) as nat);
            lemma_cap_add((64 + x + y) as nat, z);
        }
        let cost = sat_add(sat_add(sat_add(64, a), b), c);
        PageEntry {
            normalized: string_of(&text),
            folded: string_of(&folded),
            map,
            raw: Ghost(raw@),
            char_count,
            cost,
        }
    }

    /// The page's text as searched case-insensitively: normalized, then
    /// folded.
    pub fn folded_text(&self) -> (r: &str)
        requires
            self.wf(),
        ensures
            r@ == fold_seq(normalized(self.raw_text())),
    {
        self.folded.as_str()
    }

    /// The page's text normalized, which is what snippets are cut from.
    pub fn normalized_text(&self) -> (r: &str)
        requires
            self.wf(),
        ensures
            r@ == normalized(self.raw_text()),
    {
        self.normalized.as_str()
    }
}


// ---------------------------------------------------------------------------
// Matching.

pub open spec fn occurs_at(t: Seq<char>, q: Seq<char>, i: int) -> bool {
    0 <= i && i + q.len() <= t.len() && t.subrange(i, i + q.len()) == q
}

/// Start positions of the non-overlapping occurrences of `q` in `t` from `i`
/// on, each search resuming after the previous match.
pub open spec fn match_starts(t: Seq<char>, q: Seq<char>, i: int) -> Seq<int>
    decreases t.len() - i,
{
    if q.len() == 0 || i < 0 || i + q.len() > t.len() {
        Seq::empty()
    } else if occurs_at(t, q, i) {
        seq![i] + match_starts(t, q, i + q.len())
    } else {
        match_starts(t, q, i + 1)
    }
}

/// The text a search runs over: normalized, and folded unless the search is
/// case sensitive.
pub open spec fn search_target(raw: Seq<char>, case_sensitive: bool) -> Seq<char> {
    if case_sensitive {
        normalized(raw)
    } else {
        fold_seq(normalized(raw))
    }
}

/// One match at normalized position `p` of a query of `qlen` characters:
/// its raw start, its raw length, and a snippet of up to thirty normalized
/// characters on either side.
pub open spec fn match_view(raw: Seq<char>, p: int, qlen: int) -> (u32, u32, Seq<char>) {
    let o = origins(raw);
    let n = normalized(raw);
    let rs = o[p] as u32;
    let re = o[p + qlen - 1] as u32;
    let len: u32 = if re < rs {
        1
    } else if re - rs < u32::MAX {
        (re - rs + 1) as u32
    } else {
        u32::MAX
    };
    let from = if p >= 30 {
        p - 30
    } else {
        0
    };
    let to = if p + qlen + 30 <= n.len() {
        p + qlen + 30
    } else {
        n.len() as int
    };
    (rs, len, n.subrange(from, to))
}

pub open spec fn min_int(a: int, b: int) -> int {
    if a <= b {
        a
    } else {
        b
    }
}

/// The first `limit` matches of prepared query `q` in a page built from `raw`.
pub open spec fn page_matches(raw: Seq<char>, q: Seq<char>, cs: bool, limit: int) -> Seq<
    (u32, u32, Seq<char>),
> {
    if q.len() == 0 || limit <= 0 {
        Seq::empty()
    } else {
        let all = match_starts(search_target(raw, cs), q, 0);
        all.take(min_int(limit, all.len() as int)).map_values(
            |p: int| match_view(raw, p, q.len() as int),
        )
    }
}

pub open spec fn found_view(t: (u32, u32, String)) -> (u32, u32, Seq<char>) {
    (t.0, t.1, t.2@)
}

fn occurs(t: &[char], q: &[char], i: usize) -> (r: bool)
    requires
        i + q@.len() <= t@.len(),
    ensures
        r == occurs_at(t@, q@, i as int),
{
    let tl = t.len();
    let mut j: usize = 0;
    while j < q.len()
        invariant
            tl == t@.len(),
            i + q@.len() <= t@.len(),
            j <= q@.len(),
            forall|k: int| 0 <= k < j ==> t@[i + k] == q@[k],
        decreases q@.len() - j,
    {
        if t[i + j] != q[j] {
            assert(t@.subrange(i as int, i + q@.len())[j as int] != q@[j as int]);
            return false;
        }
        j += 1;
    }
    assert(t@.subrange(i as int, i + q@.len()) =~= q@);
    true
}

/// Matches of an already prepared query in one page, at most `limit`.
pub fn find_prepared_matches(
    entry: &PageEntry,
    prepared_query: &str,
    case_sensitive: bool,
    limit: usize,
) -> (out: Vec<(u32, u32, String)>)
    requires
        entry.wf(),
    ensures
        out@.map_values(|t: (u32, u32, String)| found_view(t)) == page_matches(
            entry.raw_text(),
            prepared_query@,
            case_sensitive,
            limit as int,
        ),
{
    let ghost raw = entry.raw@;
    let q = char_vec(prepared_query);
    let mut out: Vec<(u32, u32, String)> = Vec::new();
    if q.len() == 0 || limit == 0 {
        proof {
            assert(out@.map_values(|t: (u32, u32, String)| found_view(t)) =~= Seq::empty());
        }
        return out;
    }
    let t = if case_sensitive {
        char_vec(entry.normalized.as_str())
    } else {
        char_vec(entry.folded.as_str())
    };
    let n = char_vec(entry.normalized.as_str());
    let ghost qv = q@;
    let ghost tv = t@;
    let ghost all = match_starts(tv, qv, 0);
    proof {
        lemma_origins_range(raw, raw.len() as int);
        assert(tv == search_target(raw, case_sensitive));
        assert(tv.len() == n@.len());
    }
    let mut i: usize = 0;
    let ghost mut found: Seq<int> = Seq::empty();
    while out.len() < limit && i <= t.len() && q.len() <= t.len() - i
        invariant
            q@ == qv,
            t@ == tv,
            qv.len() > 0,
            n@ == normalized(raw),
            tv.len() == n@.len(),
            entry.wf(),
            raw == entry.raw@,
            origins(raw).len() == n@.len(),
            forall|m: int| 0 <= m < origins(raw).len() ==> 0 <= #[trigger] origins(raw)[m],
            all == match_starts(tv, qv, 0),
            all == found + match_starts(tv, qv, i as int),
            out@.map_values(|t: (u32, u32, String)| found_view(t)) == found.map_values(
                |p: int| match_view(raw, p, qv.len() as int),
            ),
            out@.len() == found.len(),
            out@.len() <= limit,
            i <= tv.len() + 1,
        decreases tv.len() + 1 - i,
    {
        if occurs(&t, &q, i) {
            let e = i + q.len() - 1;
            proof {
                entry.map.lemma_index_at(origins(raw), i as int);
                entry.map.lemma_index_at(origins(raw), e as int);
            }
            let rs = entry.map.raw_index_at(i);
            let re = entry.map.raw_index_at(e);
            let len: u32 = if re < rs {
                1
            } else if re - rs < u32::MAX {
                re - rs + 1
            } else {
                u32::MAX
            };
            let from = if i >= 30 {
                i - 30
            } else {
                0
            };
            let to = if n.len() - (i + q.len()) >= 30 {
                i + q.len() + 30
            } else {
                n.len()
            };
            let snippet = string_of(&crate::chars::slice_chars(&n, from, to));
            let ghost before = out@;
            out.push((rs, len, snippet));
            proof {
                assert(match_starts(tv, qv, i as int) == seq![i as int] + match_starts(
                    tv,
                    qv,
                    i + qv.len(),
                ));
                assert(found_view((rs, len, snippet)) == match_view(raw, i as int, qv.len() as int));
                assert(out@.map_values(|t: (u32, u32, String)| found_view(t)) =~= before.map_values(
                    |t: (u32, u32, String)| found_view(t),
                ).push(found_view((rs, len, snippet))));
                assert(found.push(i as int).map_values(|p: int| match_view(raw, p, qv.len() as int))
                    =~= found.map_values(|p: int| match_view(raw, p, qv.len() as int)).push(
                    match_view(raw, i as int, qv.len() as int),
                ));
                assert(found + match_starts(tv, qv, i as int) =~= found.push(i as int)
                    + match_starts(tv, qv, i + qv.len()));
                found = found.push(i as int);
            }
            i = i + q.len();
        } else {
            proof {
                assert(match_starts(tv, qv, i as int) == match_starts(tv, qv, i + 1));
            }
            i += 1;
        }
    }
    proof {
        if out@.len() < limit {
            assert(match_starts(tv, qv, i as int) =~= Seq::<int>::empty());
            assert(all =~= found);
        }
        assert(all.take(min_int(limit as int, all.len() as int)) =~= found);
    }
    out
}

/// The query text to look for, normalized the way page text is.
pub fn prepare_query(query: &str, case_sensitive: bool) -> (r: String)
    ensures
        r@ == prepared(query@, case_sensitive),
{
    let v = char_vec(query);
    let (text, _map) = normalize_chars(&v);
    if case_sensitive {
        string_of(&text)
    } else {
        string_of(&fold_chars(&text))
    }
}


// ---------------------------------------------------------------------------
// Querying a set of pages.

pub open spec fn sat_inc(m: int) -> int {
    if m < usize::MAX {
        m + 1
    } else {
        m
    }
}

/// Walks the pages in order, keeping at most `ppl` matches per page and
/// `gl` in all. Each page is asked for one match more than may be kept, which
/// is enough to tell that something was left out. Gives the pages with
/// matches and whether anything was left out.
pub open spec fn query_walk(
    pages: Seq<(u32, Seq<char>)>,
    q: Seq<char>,
    cs: bool,
    ppl: int,
    gl: int,
    returned: int,
) -> (Seq<(u32, Seq<(u32, u32, Seq<char>)>)>, bool)
    decreases pages.len(),
{
    if pages.len() == 0 {
        (Seq::empty(), false)
    } else {
        let src = pages[0].0;
        let raw = pages[0].1;
        let rest = pages.drop_first();
        let remaining = if gl >= returned {
            gl - returned
        } else {
            0
        };
        let found = page_matches(raw, q, cs, sat_inc(min_int(ppl, remaining)));
        if returned >= gl {
            if found.len() > 0 {
                (Seq::empty(), true)
            } else {
                query_walk(rest, q, cs, ppl, gl, returned)
            }
        } else {
            let cut = found.len() > ppl || found.len() > remaining;
            let kept = if cut {
                found.take(min_int(ppl, remaining))
            } else {
                found
            };
            if kept.len() == 0 {
                let r = query_walk(rest, q, cs, ppl, gl, returned);
                (r.0, cut || r.1)
            } else {
                let r = query_walk(rest, q, cs, ppl, gl, returned + kept.len());
                (seq![(src, kept)] + r.0, cut || r.1)
            }
        }
    }
}

pub open spec fn pages_view(pages: Seq<(u32, Arc<PageEntry>)>) -> Seq<(u32, Seq<char>)> {
    pages.map_values(|p: (u32, Arc<PageEntry>)| (p.0, p.1.raw_text()))
}

pub open spec fn match_dto_view(m: MatchDto) -> (u32, u32, Seq<char>) {
    (m.start, m.len, m.snippet@)
}

pub open spec fn page_matches_view(p: PageMatchesDto) -> (u32, Seq<(u32, u32, Seq<char>)>) {
    (p.src, p.matches@.map_values(|m: MatchDto| match_dto_view(m)))
}

/// What a query over `pages` answers: the pages with matches and whether the
/// limits left matches out.
pub open spec fn query_result(
    pages: Seq<(u32, Seq<char>)>,
    query: Seq<char>,
    cs: bool,
    ppl: int,
    gl: int,
) -> (Seq<(u32, Seq<(u32, u32, Seq<char>)>)>, bool) {
    if prepared(query, cs).len() == 0 || gl == 0 {
        (Seq::empty(), false)
    } else {
        query_walk(pages, prepared(query, cs), cs, ppl, gl, 0)
    }
}

// ---------------------------------------------------------------------------
// What a query over pages promises, stated directly.

/// Every match of prepared query `q` on the page built from `raw`, in order.
pub open spec fn all_page_matches(raw: Seq<char>, q: Seq<char>, cs: bool) -> Seq<(u32, u32, Seq<char>)> {
    match_starts(search_target(raw, cs), q, 0).map_values(|p: int| match_view(raw, p, q.len() as int))
}

/// Every page that holds the query, in order, with all of its matches.
pub open spec fn all_found(pages: Seq<(u32, Seq<char>)>, q: Seq<char>, cs: bool) -> Seq<
    (u32, Seq<(u32, u32, Seq<char>)>),
>
    decreases pages.len(),
{
    if pages.len() == 0 {
        Seq::empty()
    } else {
        let m = all_page_matches(pages[0].1, q, cs);
        let rest = all_found(pages.drop_first(), q, cs);
        if m.len() > 0 {
            seq![(pages[0].0, m)] + rest
        } else {
            rest
        }
    }
}

/// How many matches a list of pages holds in all.
pub open spec fn matches_in(r: Seq<(u32, Seq<(u32, u32, Seq<char>)>)>) -> int
    decreases r.len(),
{
    if r.len() == 0 {
        0
    } else {
        r[0].1.len() + matches_in(r.drop_first())
    }
}

proof fn lemma_matches_in_front(x: (u32, Seq<(u32, u32, Seq<char>)>), r: Seq<(u32, Seq<(u32, u32, Seq<char>)>)>)
    ensures
        matches_in(seq![x] + r) == x.1.len() + matches_in(r),
{
    assert((seq![x] + r).drop_first() =~= r);
}

/// Asking a page for up to `limit` matches gives the first of all its matches.
proof fn lemma_page_matches_take(raw: Seq<char>, q: Seq<char>, cs: bool, limit: int)
    requires
        limit > 0,
    ensures
        page_matches(raw, q, cs, limit) == all_page_matches(raw, q, cs).take(
            min_int(limit, all_page_matches(raw, q, cs).len() as int),
        ),
{
    let all = match_starts(search_target(raw, cs), q, 0);
    if q.len() == 0 {
        assert(all =~= Seq::<int>::empty());
        assert(all_page_matches(raw, q, cs).take(0) =~= Seq::<(u32, u32, Seq<char>)>::empty());
    } else {
        let f = |p: int| match_view(raw, p, q.len() as int);
        assert(all.take(min_int(limit, all.len() as int)).map_values(f) =~= all.map_values(f).take(
            min_int(limit, all.len() as int),
        ));
    }
}

proof fn lemma_walk_limits(
    pages: Seq<(u32, Seq<char>)>,
    q: Seq<char>,
    cs: bool,
    ppl: int,
    gl: int,
    ret: int,
)
    requires
        0 <= ppl,
        0 <= ret,
    ensures
        forall|k: int|
            0 <= k < query_walk(pages, q, cs, ppl, gl, ret).0.len() ==> 0 < (#[trigger] query_walk(
                pages,
                q,
                cs,
                ppl,
                gl,
                ret,
            ).0[k]).1.len() <= ppl,
        ret <= gl ==> matches_in(query_walk(pages, q, cs, ppl, gl, ret).0) <= gl - ret,
        ret > gl ==> matches_in(query_walk(pages, q, cs, ppl, gl, ret).0) == 0,
    decreases pages.len(),
{
    if pages.len() > 0 {
        let rest = pages.drop_first();
        let remaining = if gl >= ret {
            gl - ret
        } else {
            0
        };
        let found = page_matches(pages[0].1, q, cs, sat_inc(min_int(ppl, remaining)));
        if ret >= gl {
            lemma_walk_limits(rest, q, cs, ppl, gl, ret);
            assert(matches_in(Seq::<(u32, Seq<(u32, u32, Seq<char>)>)>::empty()) == 0);
        } else {
            let cut = found.len() > ppl || found.len() > remaining;
            let kept = if cut {
                found.take(min_int(ppl, remaining))
            } else {
                found
            };
            if kept.len() == 0 {
                lemma_walk_limits(rest, q, cs, ppl, gl, ret);
            } else {
                lemma_walk_limits(rest, q, cs, ppl, gl, ret + kept.len());
                let r = query_walk(rest, q, cs, ppl, gl, ret + kept.len());
                lemma_matches_in_front((pages[0].0, kept), r.0);
                let w = query_walk(pages, q, cs, ppl, gl, ret);
                assert(w.0 == seq![(pages[0].0, kept)] + r.0);
                assert forall|k: int| 0 <= k < w.0.len() implies 0 < (#[trigger] w.0[k]).1.len() <= ppl by {
                    if k > 0 {
                        assert(w.0[k] == r.0[k - 1]);
                    }
                }
            }
        }
    }
}

/// A query never returns more than its limits allow: every page it lists
/// has at least one match and at most the per-page limit, and all the
/// matches together are at most the global limit.
pub proof fn lemma_query_within_limits(
    pages: Seq<(u32, Seq<char>)>,
    query: Seq<char>,
    cs: bool,
    ppl: int,
    gl: int,
)
    requires
        0 <= ppl,
        0 <= gl,
    ensures
        forall|k: int|
            0 <= k < query_result(pages, query, cs, ppl, gl).0.len() ==> 0 < (
            #[trigger] query_result(pages, query, cs, ppl, gl).0[k]).1.len() <= ppl,
        matches_in(query_result(pages, query, cs, ppl, gl).0) <= gl,
{
    if !(prepared(query, cs).len() == 0 || gl == 0) {
        lemma_walk_limits(pages, prepared(query, cs), cs, ppl, gl, 0);
    } else {
        assert(matches_in(Seq::<(u32, Seq<(u32, u32, Seq<char>)>)>::empty()) == 0);
    }
}

proof fn lemma_walk_complete(
    pages: Seq<(u32, Seq<char>)>,
    q: Seq<char>,
    cs: bool,
    ppl: int,
    gl: int,
    ret: int,
)
    requires
        0 <= ppl,
        0 <= ret,
        forall|j: int| 0 <= j < pages.len() ==> all_page_matches((#[trigger] pages[j]).1, q, cs).len() < usize::MAX,
    ensures
        !query_walk(pages, q, cs, ppl, gl, ret).1 ==> query_walk(pages, q, cs, ppl, gl, ret).0 == all_found(
            pages,
            q,
            cs,
        ),
    decreases pages.len(),
{
    if pages.len() > 0 {
        let rest = pages.drop_first();
        assert forall|j: int| 0 <= j < rest.len() implies all_page_matches((#[trigger] rest[j]).1, q, cs).len()
            < usize::MAX by {
            assert(rest[j] == pages[j + 1]);
        }
        let raw = pages[0].1;
        let all = all_page_matches(raw, q, cs);
        assert(all.len() < usize::MAX) by {
            assert(pages[0] == pages[0]);
        }
        let remaining = if gl >= ret {
            gl - ret
        } else {
            0
        };
        let m = min_int(ppl, remaining);
        let found = page_matches(raw, q, cs, sat_inc(m));
        lemma_page_matches_take(raw, q, cs, sat_inc(m));
        if ret >= gl {
            lemma_walk_complete(rest, q, cs, ppl, gl, ret);
        } else {
            let cut = found.len() > ppl || found.len() > remaining;
            if !cut {
                assert(found == all);
                if found.len() == 0 {
                    lemma_walk_complete(rest, q, cs, ppl, gl, ret);
                } else {
                    lemma_walk_complete(rest, q, cs, ppl, gl, ret + found.len());
                }
            }
        }
    }
}

/// A query that says it left nothing out returned every match of every
/// page, in page order. A global limit of zero returns nothing at all, so it
/// is left out.
pub proof fn lemma_query_complete_unless_truncated(
    pages: Seq<(u32, Seq<char>)>,
    query: Seq<char>,
    cs: bool,
    ppl: int,
    gl: int,
)
    requires
        0 <= ppl,
        0 < gl,
        forall|j: int|
            0 <= j < pages.len() ==> all_page_matches((#[trigger] pages[j]).1, prepared(query, cs), cs).len()
                < usize::MAX,
    ensures
        !query_result(pages, query, cs, ppl, gl).1 ==> query_result(pages, query, cs, ppl, gl).0
            == all_found(pages, prepared(query, cs), cs),
{
    let q = prepared(query, cs);
    if q.len() == 0 {
        lemma_all_found_empty_query(pages, q, cs);
    } else {
        lemma_walk_complete(pages, q, cs, ppl, gl, 0);
    }
}

proof fn lemma_all_found_empty_query(pages: Seq<(u32, Seq<char>)>, q: Seq<char>, cs: bool)
    requires
        q.len() == 0,
    ensures
        all_found(pages, q, cs) == Seq::<(u32, Seq<(u32, u32, Seq<char>)>)>::empty(),
    decreases pages.len(),
{
    if pages.len() > 0 {
        lemma_all_found_empty_query(pages.drop_first(), q, cs);
        assert(all_page_matches(pages[0].1, q, cs) =~= Seq::<(u32, u32, Seq<char>)>::empty());
    }
}

proof fn lemma_walk_left_out(
    pages: Seq<(u32, Seq<char>)>,
    q: Seq<char>,
    cs: bool,
    ppl: int,
    gl: int,
    ret: int,
)
    requires
        0 <= ppl,
        0 <= ret,
    ensures
        matches_in(query_walk(pages, q, cs, ppl, gl, ret).0) <= matches_in(all_found(pages, q, cs)),
        query_walk(pages, q, cs, ppl, gl, ret).1 ==> matches_in(query_walk(pages, q, cs, ppl, gl, ret).0)
            < matches_in(all_found(pages, q, cs)),
    decreases pages.len(),
{
    if pages.len() > 0 {
        let rest = pages.drop_first();
        let raw = pages[0].1;
        let all = all_page_matches(raw, q, cs);
        let remaining = if gl >= ret {
            gl - ret
        } else {
            0
        };
        let m = min_int(ppl, remaining);
        let found = page_matches(raw, q, cs, sat_inc(m));
        lemma_page_matches_take(raw, q, cs, sat_inc(m));
        let af = all_found(pages, q, cs);
        let ar = all_found(rest, q, cs);
        lemma_matches_in_nonneg(ar);
        if all.len() > 0 {
            lemma_matches_in_front((pages[0].0, all), ar);
            assert(af == seq![(pages[0].0, all)] + ar);
            assert(matches_in(af) == all.len() + matches_in(ar));
        } else {
            assert(af == ar);
        }
        assert(matches_in(Seq::<(u32, Seq<(u32, u32, Seq<char>)>)>::empty()) == 0);
        assert(sat_inc(m) >= 1);
        if ret >= gl {
            lemma_walk_left_out(rest, q, cs, ppl, gl, ret);
            if found.len() > 0 {
                assert(all.len() > 0);
            } else {
                assert(all.len() == 0);
            }
        } else {
            let cut = found.len() > ppl || found.len() > remaining;
            let kept = if cut {
                found.take(m)
            } else {
                found
            };
            if kept.len() == 0 {
                lemma_walk_left_out(rest, q, cs, ppl, gl, ret);
            } else {
                lemma_walk_left_out(rest, q, cs, ppl, gl, ret + kept.len());
                let r = query_walk(rest, q, cs, ppl, gl, ret + kept.len());
                lemma_matches_in_front((pages[0].0, kept), r.0);
                assert(kept.len() <= all.len());
                assert(cut ==> kept.len() < all.len());
            }
        }
    } else {
        assert(matches_in(Seq::<(u32, Seq<(u32, u32, Seq<char>)>)>::empty()) == 0);
    }
}

/// A query that says it left matches out returned fewer matches than the
/// pages hold, and never does it return more.
pub proof fn lemma_truncated_left_matches_out(
    pages: Seq<(u32, Seq<char>)>,
    query: Seq<char>,
    cs: bool,
    ppl: int,
    gl: int,
)
    requires
        0 <= ppl,
    ensures
        matches_in(query_result(pages, query, cs, ppl, gl).0) <= matches_in(
            all_found(pages, prepared(query, cs), cs),
        ),
        query_result(pages, query, cs, ppl, gl).1 ==> matches_in(query_result(pages, query, cs, ppl, gl).0)
            < matches_in(all_found(pages, prepared(query, cs), cs)),
{
    let q = prepared(query, cs);
    if q.len() == 0 || gl == 0 {
        assert(matches_in(Seq::<(u32, Seq<(u32, u32, Seq<char>)>)>::empty()) == 0);
        lemma_matches_in_nonneg(all_found(pages, q, cs));
    } else {
        lemma_walk_left_out(pages, q, cs, ppl, gl, 0);
    }
}

proof fn lemma_matches_in_nonneg(r: Seq<(u32, Seq<(u32, u32, Seq<char>)>)>)
    ensures
        matches_in(r) >= 0,
    decreases r.len(),
{
    if r.len() > 0 {
        lemma_matches_in_nonneg(r.drop_first());
    }
}

fn to_match_dtos(found: Vec<(u32, u32, String)>, keep: usize) -> (r: Vec<MatchDto>)
    requires
        keep <= found@.len(),
    ensures
        r@.map_values(|m: MatchDto| match_dto_view(m)) == found@.take(keep as int).map_values(
            |t: (u32, u32, String)| found_view(t),
        ),
{
    let mut r: Vec<MatchDto> = Vec::new();
    let mut i: usize = 0;
    while i < keep
        invariant
            keep <= found@.len(),
            i <= keep,
            r@.len() == i,
            r@.map_values(|m: MatchDto| match_dto_view(m)) == found@.take(i as int).map_values(
                |t: (u32, u32, String)| found_view(t),
            ),
        decreases keep - i,
    {
        let (start, len, snippet) = (found[i].0, found[i].1, found[i].2.clone());
        let ghost before = r@;
        r.push(MatchDto { start, len, snippet });
        proof {
            assert(match_dto_view(r@[i as int]) == found_view(found@[i as int]));
            assert(found@.take(i + 1) =~= found@.take(i as int).push(found@[i as int]));
            assert forall|j: int| 0 <= j < i implies match_dto_view(#[trigger] r@[j]) == found_view(
                found@[j],
            ) by {
                assert(r@[j] == before[j]);
                assert(before.map_values(|m: MatchDto| match_dto_view(m))[j] == found@.take(
                    i as int,
                ).map_values(|t: (u32, u32, String)| found_view(t))[j]);
            }
        }
        i += 1;
        proof {
            assert(r@.map_values(|m: MatchDto| match_dto_view(m)) =~= found@.take(
                i as int,
            ).map_values(|t: (u32, u32, String)| found_view(t)));
        }
    }
    r
}

/// Searches `pages` in the given order, with a per-page and a global bound
/// on the number of matches returned.
pub fn query_pages(
    pages: &[(u32, Arc<PageEntry>)],
    query: &str,
    case_sensitive: bool,
    per_page_limit: usize,
    global_limit: usize,
) -> (r: SearchQueryDto)
    requires
        forall|k: int| 0 <= k < pages@.len() ==> (#[trigger] pages@[k]).1.wf(),
    ensures
        r.pages@.map_values(|p: PageMatchesDto| page_matches_view(p)) == query_result(
            pages_view(pages@),
            query@,
            case_sensitive,
            per_page_limit as int,
            global_limit as int,
        ).0,
        r.truncated == query_result(
            pages_view(pages@),
            query@,
            case_sensitive,
            per_page_limit as int,
            global_limit as int,
        ).1,
        r.limit == global_limit as u32,
{
    let prepared_query = prepare_query(query, case_sensitive);
    let mut output: Vec<PageMatchesDto> = Vec::new();
    if prepared_query.as_str().is_empty() || global_limit == 0 {
        proof {
            assert(output@.map_values(|p: PageMatchesDto| page_matches_view(p)) =~= Seq::empty());
        }
        return SearchQueryDto {
            pages: output,
            truncated: false,
            #[verifier::truncate]
            limit: global_limit as u32,
        };
    }
    let ghost pv = pages_view(pages@);
    let ghost q = prepared_query@;
    let ghost ppl = per_page_limit as int;
    let ghost gl = global_limit as int;
    let ghost total = query_walk(pv, q, case_sensitive, ppl, gl, 0);
    let mut returned: usize = 0;
    let mut truncated = false;
    let mut k: usize = 0;
    proof {
        assert(pv.skip(0) =~= pv);
        assert(output@.map_values(|p: PageMatchesDto| page_matches_view(p)) =~= Seq::empty());
    }
    while k < pages.len()
        invariant
            k <= pages@.len(),
            forall|j: int| 0 <= j < pages@.len() ==> (#[trigger] pages@[j]).1.wf(),
            pv == pages_view(pages@),
            q == prepared_query@,
            ppl == per_page_limit as int,
            gl == global_limit as int,
            total == query_walk(pv, q, case_sensitive, ppl, gl, 0),
            returned <= global_limit,
            total.0 == output@.map_values(|p: PageMatchesDto| page_matches_view(p)) + query_walk(
                pv.skip(k as int),
                q,
                case_sensitive,
                ppl,
                gl,
                returned as int,
            ).0,
            total.1 == (truncated || query_walk(
                pv.skip(k as int),
                q,
                case_sensitive,
                ppl,
                gl,
                returned as int,
            ).1),
        ensures
            total.0 == output@.map_values(|p: PageMatchesDto| page_matches_view(p)),
            total.1 == truncated,
        decreases pages@.len() - k,
    {
        let ghost rest = pv.skip(k as int);
        let ghost before = output@.map_values(|p: PageMatchesDto| page_matches_view(p));
        proof {
            assert(rest[0] == pv[k as int]);
            assert(rest.drop_first() =~= pv.skip(k + 1));
        }
        let src = pages[k].0;
        let entry: &PageEntry = &pages[k].1;
        let remaining = global_limit - returned;
        let m = if per_page_limit < remaining {
            per_page_limit
        } else {
            remaining
        };
        let requested = if m < usize::MAX {
            m + 1
        } else {
            m
        };
        let found = find_prepared_matches(entry, prepared_query.as_str(), case_sensitive, requested);
        let ghost fv = found@.map_values(|t: (u32, u32, String)| found_view(t));
        proof {
            assert(pv[k as int] == (src, entry.raw_text()));
            assert(fv == page_matches(rest[0].1, q, case_sensitive, sat_inc(min_int(ppl, gl - returned))));
        }
        if returned >= global_limit {
            if found.len() > 0 {
                truncated = true;
                proof {
                    assert(fv.len() > 0);
                    assert(query_walk(rest, q, case_sensitive, ppl, gl, returned as int) == (
                        Seq::<(u32, Seq<(u32, u32, Seq<char>)>)>::empty(),
                        true,
                    ));
                    assert(total.0 =~= before);
                }
                break;
            }
            k += 1;
            continue;
        }
        let cut = found.len() > per_page_limit || found.len() > remaining;
        let keep = if cut {
            m
        } else {
            found.len()
        };
        if cut {
            truncated = true;
        }
        if keep == 0 {
            proof {
                assert(fv.len() == 0 || fv.take(0).len() == 0);
            }
            k += 1;
            continue;
        }
        let matches = to_match_dtos(found, keep);
        let ghost kept = fv.take(keep as int);
        proof {
            assert(cut ==> kept == fv.take(min_int(ppl, gl - returned)));
            assert(!cut ==> kept =~= fv);
        }
        returned = returned + keep;
        let page = PageMatchesDto { src, matches };
        output.push(page);
        proof {
            assert(page_matches_view(page) == (src, kept));
            assert(output@.map_values(|p: PageMatchesDto| page_matches_view(p)) =~= before.push(
                (src, kept),
            ));
            assert(before.push((src, kept)) + query_walk(
                pv.skip(k + 1),
                q,
                case_sensitive,
                ppl,
                gl,
                returned as int,
            ).0 =~= before + (seq![(src, kept)] + query_walk(
                pv.skip(k + 1),
                q,
                case_sensitive,
                ppl,
                gl,
                returned as int,
            ).0));
        }
        k += 1;
    }
    SearchQueryDto {
        pages: output,
        truncated,
        #[verifier::truncate]
        limit: global_limit as u32,
    }
}


// ---------------------------------------------------------------------------
// Store model.

/// A stored page: its index, raw text, PDFium character count and cost.
pub type PageModel = (u32, Seq<char>, u32, u64);

/// A document's index: its id, its pages in increasing page order, and
/// whether pages were ever left out or dropped for lack of budget.
pub type DocModel = (DocId, Seq<PageModel>, bool);

pub open spec fn sum_by<T>(s: Seq<T>, f: spec_fn(T) -> int) -> int
    decreases s.len(),
{
    if s.len() == 0 {
        0
    } else {
        sum_by(s.drop_last(), f) + f(s.last())
    }
}

pub proof fn lemma_sum_push<T>(s: Seq<T>, x: T, f: spec_fn(T) -> int)
    ensures
        sum_by(s.push(x), f) == sum_by(s, f) + f(x),
{
    assert(s.push(x).drop_last() =~= s);
}

pub proof fn lemma_sum_insert<T>(s: Seq<T>, i: int, x: T, f: spec_fn(T) -> int)
    requires
        0 <= i <= s.len(),
    ensures
        sum_by(s.insert(i, x), f) == sum_by(s, f) + f(x),
    decreases s.len(),
{
    if i == s.len() {
        assert(s.insert(i, x) =~= s.push(x));
        lemma_sum_push(s, x, f);
    } else {
        lemma_sum_insert(s.drop_last(), i, x, f);
        assert(s.insert(i, x).drop_last() =~= s.drop_last().insert(i, x));
        assert(s.insert(i, x).last() == s.last());
    }
}

pub proof fn lemma_sum_remove<T>(s: Seq<T>, i: int, f: spec_fn(T) -> int)
    requires
        0 <= i < s.len(),
    ensures
        sum_by(s.remove(i), f) == sum_by(s, f) - f(s[i]),
{
    lemma_sum_insert(s.remove(i), i, s[i], f);
    assert(s.remove(i).insert(i, s[i]) =~= s);
}

pub proof fn lemma_sum_update<T>(s: Seq<T>, i: int, x: T, f: spec_fn(T) -> int)
    requires
        0 <= i < s.len(),
    ensures
        sum_by(s.update(i, x), f) == sum_by(s, f) - f(s[i]) + f(x),
{
    lemma_sum_remove(s, i, f);
    lemma_sum_insert(s.remove(i), i, x, f);
    assert(s.remove(i).insert(i, x) =~= s.update(i, x));
}

pub proof fn lemma_sum_bounds<T>(s: Seq<T>, f: spec_fn(T) -> int, c: int)
    requires
        forall|i: int| 0 <= i < s.len() ==> 0 <= #[trigger] f(s[i]) <= c,
    ensures
        0 <= sum_by(s, f) <= s.len() * c,
    decreases s.len(),
{
    if s.len() > 0 {
        assert forall|i: int| 0 <= i < s.drop_last().len() implies 0 <= #[trigger] f(
            s.drop_last()[i],
        ) <= c by {
            assert(s.drop_last()[i] == s[i]);
        }
        lemma_sum_bounds(s.drop_last(), f, c);
        assert(f(s[s.len() - 1]) <= c);
        assert((s.len() - 1) * c + c == s.len() * c) by (nonlinear_arith);
    }
}

pub proof fn lemma_sum_part<T>(s: Seq<T>, i: int, f: spec_fn(T) -> int)
    requires
        0 <= i < s.len(),
        forall|j: int| 0 <= j < s.len() ==> 0 <= #[trigger] f(s[j]),
    ensures
        f(s[i]) <= sum_by(s, f),
{
    lemma_sum_remove(s, i, f);
    assert forall|j: int| 0 <= j < s.remove(i).len() implies 0 <= #[trigger] f(s.remove(i)[j]) by {
        if j < i {
            assert(s.remove(i)[j] == s[j]);
        } else {
            assert(s.remove(i)[j] == s[j + 1]);
        }
    }
    lemma_sum_nonneg(s.remove(i), f);
}

pub proof fn lemma_sum_nonneg<T>(s: Seq<T>, f: spec_fn(T) -> int)
    requires
        forall|j: int| 0 <= j < s.len() ==> 0 <= #[trigger] f(s[j]),
    ensures
        0 <= sum_by(s, f),
    decreases s.len(),
{
    if s.len() > 0 {
        assert forall|j: int| 0 <= j < s.drop_last().len() implies 0 <= #[trigger] f(
            s.drop_last()[j],
        ) by {
            assert(s.drop_last()[j] == s[j]);
        }
        lemma_sum_nonneg(s.drop_last(), f);
        assert(0 <= f(s[s.len() - 1]));
    }
}

pub open spec fn page_cost_w() -> spec_fn(PageModel) -> int {
    |p: PageModel| p.3 as int
}

pub open spec fn page_chars_w() -> spec_fn(PageModel) -> int {
    |p: PageModel| p.2 as int
}

pub open spec fn page_count_w() -> spec_fn(DocModel) -> int {
    |d: DocModel| d.1.len() as int
}

/// Bytes retained for one document.
pub open spec fn doc_bytes(pages: Seq<PageModel>) -> int {
    sum_by(pages, page_cost_w())
}

/// Characters indexed for one document.
pub open spec fn doc_chars(pages: Seq<PageModel>) -> int {
    sum_by(pages, page_chars_w())
}

pub open spec fn doc_bytes_w() -> spec_fn(DocModel) -> int {
    |d: DocModel| doc_bytes(d.1)
}

/// Bytes retained for every document together.
pub open spec fn store_bytes(m: Seq<DocModel>) -> int {
    sum_by(m, doc_bytes_w())
}

pub open spec fn page_total(m: Seq<DocModel>) -> int {
    sum_by(m, page_count_w())
}

pub open spec fn pages_sorted(pages: Seq<PageModel>) -> bool {
    forall|i: int, j: int| 0 <= i < j < pages.len() ==> (#[trigger] pages[i]).0 < (#[trigger] pages[j]).0
}

pub open spec fn docs_sorted(m: Seq<DocModel>) -> bool {
    forall|i: int, j: int| 0 <= i < j < m.len() ==> (#[trigger] m[i]).0 < (#[trigger] m[j]).0
}

/// Position of `doc` in the store, or -1.
pub open spec fn doc_pos(m: Seq<DocModel>, doc: DocId) -> int
    decreases m.len(),
{
    if m.len() == 0 {
        -1
    } else if m.last().0 == doc {
        m.len() - 1
    } else {
        doc_pos(m.drop_last(), doc)
    }
}

/// Position of page `src` among `pages`, or -1.
pub open spec fn page_pos(pages: Seq<PageModel>, src: u32) -> int
    decreases pages.len(),
{
    if pages.len() == 0 {
        -1
    } else if pages.last().0 == src {
        pages.len() - 1
    } else {
        page_pos(pages.drop_last(), src)
    }
}

pub open spec fn doc_pages(m: Seq<DocModel>, doc: DocId) -> Seq<PageModel> {
    if doc_pos(m, doc) >= 0 {
        m[doc_pos(m, doc)].1
    } else {
        Seq::empty()
    }
}

pub open spec fn doc_truncated(m: Seq<DocModel>, doc: DocId) -> bool {
    doc_pos(m, doc) >= 0 && m[doc_pos(m, doc)].2
}

pub open spec fn has_page(m: Seq<DocModel>, doc: DocId, src: u32) -> bool {
    page_pos(doc_pages(m, doc), src) >= 0
}

pub proof fn lemma_doc_pos(m: Seq<DocModel>, doc: DocId)
    ensures
        -1 <= doc_pos(m, doc) < m.len(),
        doc_pos(m, doc) >= 0 ==> m[doc_pos(m, doc)].0 == doc,
        doc_pos(m, doc) < 0 ==> forall|i: int| 0 <= i < m.len() ==> (#[trigger] m[i]).0 != doc,
    decreases m.len(),
{
    if m.len() > 0 {
        lemma_doc_pos(m.drop_last(), doc);
        if m.last().0 != doc {
            assert forall|i: int| 0 <= i < m.len() - 1 implies m.drop_last()[i] == m[i] by {}
        }
    }
}

pub proof fn lemma_page_pos(pages: Seq<PageModel>, src: u32)
    ensures
        -1 <= page_pos(pages, src) < pages.len(),
        page_pos(pages, src) >= 0 ==> pages[page_pos(pages, src)].0 == src,
        page_pos(pages, src) < 0 ==> forall|i: int| 0 <= i < pages.len() ==> (#[trigger] pages[i]).0 != src,
    decreases pages.len(),
{
    if pages.len() > 0 {
        lemma_page_pos(pages.drop_last(), src);
        if pages.last().0 != src {
            assert forall|i: int| 0 <= i < pages.len() - 1 implies pages.drop_last()[i] == pages[i] by {}
        }
    }
}

/// In a store with distinct ids, the position of `doc` is the one holding it.
pub proof fn lemma_doc_pos_unique(m: Seq<DocModel>, doc: DocId, i: int)
    requires
        docs_sorted(m),
        0 <= i < m.len(),
        m[i].0 == doc,
    ensures
        doc_pos(m, doc) == i,
{
    lemma_doc_pos(m, doc);
    let p = doc_pos(m, doc);
    if p != i {
        if p < i {
            assert(m[p].0 < m[i].0);
        } else {
            assert(m[i].0 < m[p].0);
        }
    }
}

pub proof fn lemma_page_pos_unique(pages: Seq<PageModel>, src: u32, i: int)
    requires
        pages_sorted(pages),
        0 <= i < pages.len(),
        pages[i].0 == src,
    ensures
        page_pos(pages, src) == i,
{
    lemma_page_pos(pages, src);
    let p = page_pos(pages, src);
    if p != i {
        if p < i {
            assert(pages[p].0 < pages[i].0);
        } else {
            assert(pages[i].0 < pages[p].0);
        }
    }
}

/// A strictly increasing sequence of page indices has at most 2^32 entries.
pub proof fn lemma_sorted_len(pages: Seq<PageModel>)
    requires
        pages_sorted(pages),
    ensures
        pages.len() <= 0x1_0000_0000,
{
    if pages.len() > 0 {
        assert forall|i: int| 0 <= i < pages.len() implies (#[trigger] pages[i]).0 >= i by {
            lemma_sorted_at_least(pages, i);
        }
        assert(pages[pages.len() - 1].0 >= pages.len() - 1);
    }
}

proof fn lemma_sorted_at_least(pages: Seq<PageModel>, i: int)
    requires
        pages_sorted(pages),
        0 <= i < pages.len(),
    ensures
        pages[i].0 >= i,
    decreases i,
{
    if i > 0 {
        lemma_sorted_at_least(pages, i - 1);
        assert(pages[i - 1].0 < pages[i].0);
    }
}

/// The characters indexed for a document fit in 64 bits.
pub proof fn lemma_doc_chars_bound(pages: Seq<PageModel>)
    requires
        pages_sorted(pages),
    ensures
        0 <= doc_chars(pages) <= 0x1_0000_0000 * 0xffff_ffff,
{
    lemma_sorted_len(pages);
    lemma_sum_bounds(pages, page_chars_w(), 0xffff_ffff);
    assert(pages.len() * 0xffff_ffff <= 0x1_0000_0000 * 0xffff_ffff) by (nonlinear_arith)
        requires
            pages.len() <= 0x1_0000_0000,
    ;
}


// ---------------------------------------------------------------------------
// The store.

pub open spec fn page_model(p: (u32, Arc<PageEntry>)) -> PageModel {
    (p.0, p.1.raw_text(), p.1.spec_char_count(), p.1.spec_cost())
}

pub open spec fn model_pages_view(pages: Seq<PageModel>) -> Seq<(u32, Seq<char>)> {
    pages.map_values(|p: PageModel| (p.0, p.1))
}

/// The search index of one document.
pub struct DocIndex {
    pages: Vec<(u32, Arc<PageEntry>)>,
    truncated: bool,
    chars_indexed: u64,
    /// Retained bytes for this document alone, so the shared budget can be
    /// rebalanced between documents without summing every page.
    used: u64,
}

impl DocIndex {
    pub closed spec fn model_pages(&self) -> Seq<PageModel> {
        self.pages@.map_values(|p: (u32, Arc<PageEntry>)| page_model(p))
    }

    pub closed spec fn spec_truncated(&self) -> bool {
        self.truncated
    }

    pub closed spec fn wf(&self) -> bool {
        &&& pages_sorted(self.model_pages())
        &&& forall|k: int| 0 <= k < self.pages@.len() ==> (#[trigger] self.pages@[k]).1.wf()
        &&& self.used == doc_bytes(self.model_pages())
        &&& self.chars_indexed == doc_chars(self.model_pages())
    }

    fn empty() -> (d: Self)
        ensures
            d.wf(),
            d.model_pages() == Seq::<PageModel>::empty(),
            !d.spec_truncated(),
    {
        let d = DocIndex { pages: Vec::new(), truncated: false, chars_indexed: 0, used: 0 };
        proof {
            assert(d.model_pages() =~= Seq::<PageModel>::empty());
        }
        d
    }
}

pub open spec fn doc_model(d: (DocId, DocIndex)) -> DocModel {
    (d.0, d.1.model_pages(), d.1.spec_truncated())
}

/// Byte-budgeted search text of every open document. The budget is shared:
/// a document that needs room takes it from whichever document holds the
/// most, dropping that document's highest pages first.
pub struct SearchStore {
    docs: Vec<(DocId, DocIndex)>,
    budget: u64,
    used: u64,
}

impl SearchStore {
    /// The documents in increasing id order.
    pub closed spec fn model(&self) -> Seq<DocModel> {
        self.docs@.map_values(|d: (DocId, DocIndex)| doc_model(d))
    }

    pub closed spec fn spec_budget(&self) -> u64 {
        self.budget
    }

    pub closed spec fn spec_used(&self) -> u64 {
        self.used
    }

    spec fn wf_shape(&self) -> bool {
        &&& docs_sorted(self.model())
        &&& forall|k: int| 0 <= k < self.docs@.len() ==> (#[trigger] self.docs@[k]).1.wf()
        &&& self.used == store_bytes(self.model())
    }

    pub closed spec fn wf(&self) -> bool {
        &&& self.wf_shape()
        &&& self.used <= self.budget
    }

    /// Whatever was stored or dropped, the bytes held never exceed the
    /// budget, and they are exactly the costs of the pages held.
    pub proof fn lemma_within_budget(&self)
        requires
            self.wf(),
        ensures
            self.spec_used() <= self.spec_budget(),
            self.spec_used() == store_bytes(self.model()),
    {
    }

    pub fn new(budget: u64) -> (s: Self)
        ensures
            s.wf(),
            s.model() == Seq::<DocModel>::empty(),
            s.spec_budget() == budget,
            s.spec_used() == 0,
    {
        let s = SearchStore { docs: Vec::new(), budget, used: 0 };
        proof {
            assert(s.model() =~= Seq::<DocModel>::empty());
        }
        s
    }

    pub fn used(&self) -> (r: u64)
        ensures
            r == self.spec_used(),
    {
        self.used
    }

    pub fn budget(&self) -> (r: u64)
        ensures
            r == self.spec_budget(),
    {
        self.budget
    }

    fn find(&self, doc: DocId) -> (r: Option<usize>)
        ensures
            match r {
                Some(i) => i as int == doc_pos(self.model(), doc) && i < self.docs@.len(),
                None => doc_pos(self.model(), doc) < 0,
            },
    {
        let mut k = self.docs.len();
        proof {
            assert(self.model().take(k as int) =~= self.model());
        }
        while k > 0
            invariant
                k <= self.docs@.len(),
                doc_pos(self.model(), doc) == doc_pos(self.model().take(k as int), doc),
            decreases k,
        {
            proof {
                assert(self.model().take(k as int).last() == doc_model(self.docs@[k - 1]));
                assert(self.model().take(k as int).drop_last() =~= self.model().take(k - 1));
            }
            if self.docs[k - 1].0 == doc {
                return Some(k - 1);
            }
            k -= 1;
        }
        None
    }

    pub fn contains_page(&self, doc: DocId, src: u32) -> (r: bool)
        requires
            self.wf(),
        ensures
            r == has_page(self.model(), doc, src),
    {
        match self.find(doc) {
            None => false,
            Some(i) => {
                let pages = &self.docs[i].1.pages;
                let ghost mp = self.model()[i as int].1;
                proof {
                    assert(mp == self.docs@[i as int].1.model_pages());
                    assert(doc_pages(self.model(), doc) == mp);
                }
                let mut k = pages.len();
                proof {
                    assert(mp.take(k as int) =~= mp);
                }
                while k > 0
                    invariant
                        k <= pages@.len(),
                        mp == pages@.map_values(|p: (u32, Arc<PageEntry>)| page_model(p)),
                        doc_pages(self.model(), doc) == mp,
                        page_pos(mp, src) == page_pos(mp.take(k as int), src),
                    decreases k,
                {
                    proof {
                        assert(mp.take(k as int).last() == page_model(pages@[k - 1]));
                        assert(mp.take(k as int).drop_last() =~= mp.take(k - 1));
                    }
                    if pages[k - 1].0 == src {
                        proof {
                            assert(page_pos(mp.take(k as int), src) == k - 1);
                        }
                        return true;
                    }
                    k -= 1;
                }
                false
            },
        }
    }

    pub fn indexed_count(&self, doc: DocId) -> (r: u32)
        ensures
            r == doc_pages(self.model(), doc).len() as u32,
    {
        match self.find(doc) {
            None => 0,
            Some(i) => {
                proof {
                    assert(self.model()[i as int].1.len() == self.docs@[i as int].1.pages@.len());
                }
                #[verifier::truncate]
                (self.docs[i].1.pages.len() as u32)
            },
        }
    }

    pub fn chars_indexed(&self, doc: DocId) -> (r: u64)
        requires
            self.wf(),
        ensures
            r == doc_chars(doc_pages(self.model(), doc)),
    {
        match self.find(doc) {
            None => 0,
            Some(i) => {
                proof {
                    assert(self.docs@[i as int].1.wf());
                }
                self.docs[i].1.chars_indexed
            },
        }
    }

    pub fn is_truncated(&self, doc: DocId) -> (r: bool)
        ensures
            r == doc_truncated(self.model(), doc),
    {
        match self.find(doc) {
            None => false,
            Some(i) => self.docs[i].1.truncated,
        }
    }

    /// Each document's pages are held in strictly increasing page order, so
    /// there are at most 2^32 of them.
    pub proof fn lemma_doc_pages_sorted(&self, doc: DocId)
        requires
            self.wf(),
        ensures
            pages_sorted(doc_pages(self.model(), doc)),
            doc_pages(self.model(), doc).len() <= 0x1_0000_0000,
    {
        lemma_doc_pos(self.model(), doc);
        let p = doc_pos(self.model(), doc);
        if p >= 0 {
            assert(self.docs@[p].1.wf());
            assert(self.model()[p].1 == self.docs@[p].1.model_pages());
        }
        lemma_sorted_len(doc_pages(self.model(), doc));
    }

    /// The pages of `doc` in increasing page order.
    pub fn snapshot(&self, doc: DocId) -> (r: Vec<(u32, Arc<PageEntry>)>)
        requires
            self.wf(),
        ensures
            r@.map_values(|p: (u32, Arc<PageEntry>)| page_model(p)) == doc_pages(self.model(), doc),
            forall|k: int| 0 <= k < r@.len() ==> (#[trigger] r@[k]).1.wf(),
            forall|a: int, b: int| 0 <= a < b < r@.len() ==> (#[trigger] r@[a]).0 < (#[trigger] r@[b]).0,
            r@.len() <= 0x1_0000_0000,
            r@.len() as u32 == doc_pages(self.model(), doc).len() as u32,
    {
        proof {
            self.lemma_doc_pages_sorted(doc);
        }
        let mut out: Vec<(u32, Arc<PageEntry>)> = Vec::new();
        match self.find(doc) {
            None => {
                proof {
                    assert(out@.map_values(|p: (u32, Arc<PageEntry>)| page_model(p)) =~= Seq::<
                        PageModel,
                    >::empty());
                }
                out
            },
            Some(i) => {
                let pages = &self.docs[i].1.pages;
                proof {
                    assert(self.docs@[i as int].1.wf());
                }
                let mut k: usize = 0;
                while k < pages.len()
                    invariant
                        k <= pages@.len(),
                        pages@ == self.docs@[i as int].1.pages@,
                        self.docs@[i as int].1.wf(),
                        out@.len() == k,
                        forall|j: int| 0 <= j < k ==> #[trigger] out@[j] == pages@[j],
                    decreases pages@.len() - k,
                {
                    let src = pages[k].0;
                    let entry = Arc::clone(&pages[k].1);
                    out.push((src, entry));
                    k += 1;
                }
                proof {
                    assert(out@ =~= pages@);
                    assert forall|j: int| 0 <= j < out@.len() implies (#[trigger] out@[j]).1.wf() by {
                        assert(out@[j] == pages@[j]);
                    }
                    let mv = out@.map_values(|p: (u32, Arc<PageEntry>)| page_model(p));
                    assert(mv == doc_pages(self.model(), doc));
                    assert forall|a: int, b: int| 0 <= a < b < out@.len() implies (#[trigger] out@[a]).0
                        < (#[trigger] out@[b]).0 by {
                        assert(mv[a].0 == out@[a].0 && mv[b].0 == out@[b].0);
                    }
                }
                out
            },
        }
    }

    /// Matches of `query` in every indexed page of `doc`, in page order.
    pub fn query(&self, doc: DocId, query: &str, case_sensitive: bool, per_page_limit: usize) -> (r:
        Vec<PageMatchesDto>)
        requires
            self.wf(),
        ensures
            r@.map_values(|p: PageMatchesDto| page_matches_view(p)) == query_result(
                model_pages_view(doc_pages(self.model(), doc)),
                query@,
                case_sensitive,
                per_page_limit as int,
                usize::MAX as int,
            ).0,
    {
        let pages = self.snapshot(doc);
        proof {
            assert(pages_view(pages@) =~= model_pages_view(doc_pages(self.model(), doc)));
        }
        query_pages(pages.as_slice(), query, case_sensitive, per_page_limit, usize::MAX).pages
    }

    /// Matches of `query` in `doc`, with a document-wide bound as well.
    pub fn query_limited(
        &self,
        doc: DocId,
        query: &str,
        case_sensitive: bool,
        per_page_limit: usize,
        global_limit: usize,
    ) -> (r: SearchQueryDto)
        requires
            self.wf(),
        ensures
            r.pages@.map_values(|p: PageMatchesDto| page_matches_view(p)) == query_result(
                model_pages_view(doc_pages(self.model(), doc)),
                query@,
                case_sensitive,
                per_page_limit as int,
                global_limit as int,
            ).0,
            r.truncated == query_result(
                model_pages_view(doc_pages(self.model(), doc)),
                query@,
                case_sensitive,
                per_page_limit as int,
                global_limit as int,
            ).1,
            r.limit == global_limit as u32,
    {
        let pages = self.snapshot(doc);
        proof {
            assert(pages_view(pages@) =~= model_pages_view(doc_pages(self.model(), doc)));
        }
        query_pages(pages.as_slice(), query, case_sensitive, per_page_limit, global_limit)
    }

    /// Forgets `doc` and releases its bytes.
    pub fn remove_doc(&mut self, doc: DocId)
        requires
            old(self).wf(),
        ensures
            final(self).wf(),
            final(self).model() == (if doc_pos(old(self).model(), doc) >= 0 {
                old(self).model().remove(doc_pos(old(self).model(), doc))
            } else {
                old(self).model()
            }),
            final(self).spec_budget() == old(self).spec_budget(),
    {
        match self.find(doc) {
            None => {},
            Some(i) => {
                let ghost m = self.model();
                let (_, index) = self.docs.remove(i);
                proof {
                    assert(self.model() =~= m.remove(i as int));
                    lemma_sum_remove(m, i as int, doc_bytes_w());
                    lemma_store_bytes_nonneg(m.remove(i as int));
                    assert(index.wf());
                    assert(doc_bytes_w()(m[i as int]) == index.used);
                }
                self.used = self.used - index.used;
            },
        }
    }
}

pub proof fn lemma_doc_bytes_nonneg(pages: Seq<PageModel>)
    ensures
        0 <= doc_bytes(pages),
{
    lemma_sum_nonneg(pages, page_cost_w());
}

pub proof fn lemma_store_bytes_nonneg(m: Seq<DocModel>)
    ensures
        0 <= store_bytes(m),
        forall|j: int| 0 <= j < m.len() ==> 0 <= #[trigger] doc_bytes_w()(m[j]) <= store_bytes(m),
{
    assert forall|j: int| 0 <= j < m.len() implies 0 <= #[trigger] doc_bytes_w()(m[j]) by {
        lemma_doc_bytes_nonneg(m[j].1);
    }
    lemma_sum_nonneg(m, doc_bytes_w());
    assert forall|j: int| 0 <= j < m.len() implies #[trigger] doc_bytes_w()(m[j]) <= store_bytes(m) by {
        lemma_sum_part(m, j, doc_bytes_w());
    }
}


// ---------------------------------------------------------------------------
// How the store sheds pages.

/// The store with the highest page of document `i` dropped and that document
/// marked as no longer completely indexed.
pub open spec fn remove_last_page(m: Seq<DocModel>, i: int) -> Seq<DocModel> {
    m.update(i, (m[i].0, m[i].1.drop_last(), true))
}

/// Among the first `n` documents, the one holding the highest page index,
/// ties going to the larger document id; -1 when none holds a page.
pub open spec fn top_page_doc(m: Seq<DocModel>, n: int) -> int
    decreases n,
{
    if n <= 0 || n > m.len() {
        -1
    } else {
        let p = top_page_doc(m, n - 1);
        let i = n - 1;
        if m[i].1.len() > 0 && (p < 0 || m[p].1.last().0 <= m[i].1.last().0) {
            i
        } else {
            p
        }
    }
}

/// Among the first `n` documents other than `doc` that hold pages, the one
/// holding the most bytes, ties going to the larger document id; -1 when
/// there is none.
pub open spec fn largest_other(m: Seq<DocModel>, doc: DocId, n: int) -> int
    decreases n,
{
    if n <= 0 || n > m.len() {
        -1
    } else {
        let p = largest_other(m, doc, n - 1);
        let i = n - 1;
        if m[i].0 != doc && m[i].1.len() > 0 && (p < 0 || doc_bytes(m[p].1) <= doc_bytes(m[i].1)) {
            i
        } else {
            p
        }
    }
}

pub proof fn lemma_top_page_doc(m: Seq<DocModel>, n: int)
    requires
        0 <= n <= m.len(),
    ensures
        -1 <= top_page_doc(m, n) < n,
        top_page_doc(m, n) >= 0 ==> m[top_page_doc(m, n)].1.len() > 0,
        top_page_doc(m, n) < 0 ==> forall|i: int| 0 <= i < n ==> (#[trigger] m[i]).1.len() == 0,
    decreases n,
{
    if n > 0 {
        lemma_top_page_doc(m, n - 1);
    }
}

pub proof fn lemma_largest_other(m: Seq<DocModel>, doc: DocId, n: int)
    requires
        0 <= n <= m.len(),
    ensures
        -1 <= largest_other(m, doc, n) < n,
        largest_other(m, doc, n) >= 0 ==> m[largest_other(m, doc, n)].1.len() > 0 && m[largest_other(
            m,
            doc,
            n,
        )].0 != doc,
    decreases n,
{
    if n > 0 {
        lemma_largest_other(m, doc, n - 1);
    }
}

pub proof fn lemma_remove_last_page(m: Seq<DocModel>, i: int)
    requires
        0 <= i < m.len(),
        m[i].1.len() > 0,
    ensures
        page_total(remove_last_page(m, i)) == page_total(m) - 1,
        0 <= page_total(remove_last_page(m, i)),
        store_bytes(remove_last_page(m, i)) == store_bytes(m) - m[i].1.last().3,
{
    let d = (m[i].0, m[i].1.drop_last(), true);
    lemma_sum_update(m, i, d, page_count_w());
    lemma_sum_update(m, i, d, doc_bytes_w());
    lemma_sum_nonneg(remove_last_page(m, i), page_count_w());
}

pub proof fn lemma_no_pages_no_bytes(m: Seq<DocModel>)
    requires
        forall|i: int| 0 <= i < m.len() ==> (#[trigger] m[i]).1.len() == 0,
    ensures
        store_bytes(m) == 0,
    decreases m.len(),
{
    if m.len() > 0 {
        assert forall|i: int| 0 <= i < m.drop_last().len() implies (#[trigger] m.drop_last()[i]).1.len()
            == 0 by {
            assert(m.drop_last()[i] == m[i]);
        }
        lemma_no_pages_no_bytes(m.drop_last());
        assert(m.last().1.len() == 0);
        assert(doc_bytes(m.last().1) == 0);
    }
}

/// What shrinking the budget to `b` leaves: the highest pages go first until
/// the rest fits.
pub open spec fn evict(m: Seq<DocModel>, b: int) -> Seq<DocModel>
    decreases page_total(m),
{
    if store_bytes(m) <= b {
        m
    } else {
        let v = top_page_doc(m, m.len() as int);
        if v < 0 || page_total(m) <= 0 {
            m
        } else {
            proof {
                lemma_top_page_doc(m, m.len() as int);
                lemma_remove_last_page(m, v);
            }
            evict(remove_last_page(m, v), b)
        }
    }
}

/// What reclaiming at least `need` bytes for `doc` leaves, `freed` bytes
/// having been freed already: the highest page of the largest other holder
/// goes, until enough is freed or `doc` itself holds as much as any other.
pub open spec fn reclaim(m: Seq<DocModel>, doc: DocId, need: int, freed: int) -> Seq<DocModel>
    decreases page_total(m),
{
    if freed >= need {
        m
    } else {
        let v = largest_other(m, doc, m.len() as int);
        if v < 0 || page_total(m) <= 0 {
            m
        } else if doc_bytes(m[v].1) <= doc_bytes(doc_pages(m, doc)) {
            m
        } else {
            proof {
                lemma_largest_other(m, doc, m.len() as int);
                lemma_remove_last_page(m, v);
            }
            reclaim(remove_last_page(m, v), doc, need, freed + m[v].1.last().3)
        }
    }
}

impl SearchStore {
    /// Drops the highest page of document `i`.
    fn drop_last_page(&mut self, i: usize) -> (cost: u64)
        requires
            old(self).wf_shape(),
            i < old(self).docs@.len(),
            old(self).model()[i as int].1.len() > 0,
        ensures
            final(self).wf_shape(),
            final(self).model() == remove_last_page(old(self).model(), i as int),
            cost == old(self).model()[i as int].1.last().3,
            final(self).spec_budget() == old(self).spec_budget(),
    {
        let ghost m = self.model();
        let (id, mut d) = self.docs.remove(i);
        let ghost mp = d.model_pages();
        proof {
            assert(d.wf());
            assert(doc_model((id, d)) == m[i as int]);
        }
        let (_src, entry) = d.pages.pop().unwrap();
        proof {
            assert(d.model_pages() =~= mp.drop_last());
            assert(page_model((_src, entry)) == mp.last());
            lemma_store_bytes_nonneg(m);
            lemma_doc_bytes_nonneg(mp.drop_last());
            lemma_sum_nonneg(mp.drop_last(), page_chars_w());
            assert forall|k: int| 0 <= k < d.pages@.len() implies (#[trigger] d.pages@[k]).1.wf() by {
                assert(d.pages@[k] == old(self).docs@[i as int].1.pages@[k]);
            }
        }
        let cost = entry.cost;
        proof {
            assert(doc_bytes(mp) == doc_bytes(mp.drop_last()) + mp.last().3);
            assert(doc_bytes_w()(m[i as int]) <= store_bytes(m));
            assert(doc_chars(mp) == doc_chars(mp.drop_last()) + mp.last().2);
        }
        d.used = d.used - cost;
        d.chars_indexed = d.chars_indexed - entry.char_count as u64;
        d.truncated = true;
        self.docs.insert(i, (id, d));
        self.used = self.used - cost;
        proof {
            assert(self.model() =~= remove_last_page(m, i as int));
            lemma_remove_last_page(m, i as int);
            assert forall|a: int, b: int| 0 <= a < b < self.model().len() implies (
            #[trigger] self.model()[a]).0 < (#[trigger] self.model()[b]).0 by {
                assert(m[a].0 == self.model()[a].0);
                assert(m[b].0 == self.model()[b].0);
            }
            assert forall|k: int| 0 <= k < self.docs@.len() implies (
            #[trigger] self.docs@[k]).1.wf() by {
                if k != i {
                    assert(self.docs@[k] == old(self).docs@[k]);
                }
            }
        }
        cost
    }

    fn top_page_holder(&self) -> (r: Option<usize>)
        ensures
            match r {
                Some(i) => i as int == top_page_doc(self.model(), self.model().len() as int),
                None => top_page_doc(self.model(), self.model().len() as int) < 0,
            },
    {
        let mut best: Option<usize> = None;
        let mut k: usize = 0;
        while k < self.docs.len()
            invariant
                k <= self.docs@.len(),
                match best {
                    Some(b) => b as int == top_page_doc(self.model(), k as int) && b < k,
                    None => top_page_doc(self.model(), k as int) < 0,
                },
            decreases self.docs@.len() - k,
        {
            let n = self.docs[k].1.pages.len();
            proof {
                assert(self.model()[k as int] == doc_model(self.docs@[k as int]));
            }
            if n > 0 {
                let top = self.docs[k].1.pages[n - 1].0;
                proof {
                    assert(self.model()[k as int].1.last().0 == top);
                }
                match best {
                    None => {
                        best = Some(k);
                    },
                    Some(b) => {
                        let bn = self.docs[b].1.pages.len();
                        proof {
                            assert(self.model()[b as int] == doc_model(self.docs@[b as int]));
                            lemma_top_page_doc(self.model(), k as int);
                        }
                        if self.docs[b].1.pages[bn - 1].0 <= top {
                            best = Some(k);
                        }
                    },
                }
            }
            k += 1;
        }
        best
    }

    /// Changes the budget, dropping the highest pages while over it.
    pub fn set_budget(&mut self, budget: u64)
        requires
            old(self).wf(),
        ensures
            final(self).wf(),
            final(self).spec_budget() == budget,
            final(self).model() == evict(old(self).model(), budget as int),
    {
        self.budget = budget;
        while self.used > self.budget
            invariant
                self.wf_shape(),
                self.budget == budget,
                evict(old(self).model(), budget as int) == evict(self.model(), budget as int),
            ensures
                self.wf(),
                evict(old(self).model(), budget as int) == self.model(),
            decreases page_total(self.model()),
        {
            match self.top_page_holder() {
                None => {
                    proof {
                        lemma_top_page_doc(self.model(), self.model().len() as int);
                        lemma_no_pages_no_bytes(self.model());
                    }
                    break;
                },
                Some(i) => {
                    let ghost m = self.model();
                    proof {
                        lemma_top_page_doc(m, m.len() as int);
                        lemma_remove_last_page(m, i as int);
                        lemma_sum_nonneg(m, page_count_w());
                    }
                    self.drop_last_page(i);
                },
            }
        }
    }
}


// ---------------------------------------------------------------------------
// How the store takes a page.

/// Cost of the page `src` of `doc` already held, or 0.
pub open spec fn held_cost(m: Seq<DocModel>, doc: DocId, src: u32) -> int {
    let ps = doc_pages(m, doc);
    if page_pos(ps, src) >= 0 {
        ps[page_pos(ps, src)].3 as int
    } else {
        0
    }
}

/// Where a new document goes to keep ids increasing.
pub open spec fn doc_insert_pos(m: Seq<DocModel>, doc: DocId) -> int
    decreases m.len(),
{
    if m.len() == 0 {
        0
    } else if m.last().0 < doc {
        m.len() as int
    } else {
        doc_insert_pos(m.drop_last(), doc)
    }
}

/// Where a new page goes to keep page indices increasing.
pub open spec fn page_insert_pos(pages: Seq<PageModel>, src: u32) -> int
    decreases pages.len(),
{
    if pages.len() == 0 {
        0
    } else if pages.last().0 < src {
        pages.len() as int
    } else {
        page_insert_pos(pages.drop_last(), src)
    }
}

/// The store with an (empty, complete) index for `doc` if it had none.
pub open spec fn with_doc(m: Seq<DocModel>, doc: DocId) -> Seq<DocModel> {
    if doc_pos(m, doc) >= 0 {
        m
    } else {
        m.insert(doc_insert_pos(m, doc), (doc, Seq::empty(), false))
    }
}

/// The store with page `p` put into `doc`, replacing a page of the same index.
pub open spec fn put_page(m: Seq<DocModel>, doc: DocId, p: PageModel) -> Seq<DocModel> {
    let i = doc_pos(m, doc);
    let pages = m[i].1;
    let k = page_pos(pages, p.0);
    let np = if k >= 0 {
        pages.update(k, p)
    } else {
        pages.insert(page_insert_pos(pages, p.0), p)
    };
    m.update(i, (doc, np, m[i].2))
}

pub open spec fn mark_truncated(m: Seq<DocModel>, doc: DocId) -> Seq<DocModel> {
    let i = doc_pos(m, doc);
    m.update(i, (m[i].0, m[i].1, true))
}

/// What storing page `src` of `doc`, built from `raw`, does to store `m`
/// under budget `b`: whether the page was taken, and the store after.
/// When the page would not fit, room is first reclaimed from the largest
/// other holder; if it still does not fit, the document is marked as not
/// completely indexed.
pub open spec fn store_outcome(
    m: Seq<DocModel>,
    b: int,
    doc: DocId,
    src: u32,
    raw: Seq<char>,
    chars: u32,
) -> (bool, Seq<DocModel>) {
    let c = page_cost(raw) as int;
    let projected = store_bytes(m) - held_cost(m, doc, src) + c;
    let m1 = if projected > b {
        reclaim(m, doc, projected - b, 0)
    } else {
        m
    };
    let m2 = with_doc(m1, doc);
    if store_bytes(m2) - held_cost(m2, doc, src) + c <= b {
        (true, put_page(m2, doc, (src, raw, chars, page_cost(raw))))
    } else {
        (false, mark_truncated(m2, doc))
    }
}

pub proof fn lemma_doc_insert_pos(m: Seq<DocModel>, doc: DocId)
    requires
        docs_sorted(m),
        forall|i: int| 0 <= i < m.len() ==> (#[trigger] m[i]).0 != doc,
    ensures
        0 <= doc_insert_pos(m, doc) <= m.len(),
        forall|i: int| 0 <= i < doc_insert_pos(m, doc) ==> (#[trigger] m[i]).0 < doc,
        forall|i: int| doc_insert_pos(m, doc) <= i < m.len() ==> (#[trigger] m[i]).0 > doc,
    decreases m.len(),
{
    if m.len() > 0 {
        let d = m.drop_last();
        assert forall|i: int, j: int| 0 <= i < j < d.len() implies (#[trigger] d[i]).0 < (
        #[trigger] d[j]).0 by {
            assert(d[i] == m[i] && d[j] == m[j]);
        }
        assert forall|i: int| 0 <= i < d.len() implies (#[trigger] d[i]).0 != doc by {
            assert(d[i] == m[i]);
        }
        lemma_doc_insert_pos(d, doc);
        if m.last().0 < doc {
            assert forall|i: int| 0 <= i < m.len() implies (#[trigger] m[i]).0 < doc by {
                if i < m.len() - 1 {
                    assert(m[i].0 < m[m.len() - 1].0);
                }
            }
        } else {
            assert(m.last().0 != doc);
            assert forall|i: int| doc_insert_pos(m, doc) <= i < m.len() implies (#[trigger] m[i]).0
                > doc by {
                if i < m.len() - 1 {
                    assert(d[i] == m[i]);
                }
            }
            assert forall|i: int| 0 <= i < doc_insert_pos(m, doc) implies (#[trigger] m[i]).0 < doc by {
                assert(d[i] == m[i]);
            }
        }
    }
}

pub proof fn lemma_page_insert_pos(pages: Seq<PageModel>, src: u32)
    requires
        pages_sorted(pages),
        forall|i: int| 0 <= i < pages.len() ==> (#[trigger] pages[i]).0 != src,
    ensures
        0 <= page_insert_pos(pages, src) <= pages.len(),
        forall|i: int| 0 <= i < page_insert_pos(pages, src) ==> (#[trigger] pages[i]).0 < src,
        forall|i: int| page_insert_pos(pages, src) <= i < pages.len() ==> (#[trigger] pages[i]).0 > src,
    decreases pages.len(),
{
    if pages.len() > 0 {
        let d = pages.drop_last();
        assert forall|i: int, j: int| 0 <= i < j < d.len() implies (#[trigger] d[i]).0 < (
        #[trigger] d[j]).0 by {
            assert(d[i] == pages[i] && d[j] == pages[j]);
        }
        assert forall|i: int| 0 <= i < d.len() implies (#[trigger] d[i]).0 != src by {
            assert(d[i] == pages[i]);
        }
        lemma_page_insert_pos(d, src);
        if pages.last().0 < src {
            assert forall|i: int| 0 <= i < pages.len() implies (#[trigger] pages[i]).0 < src by {
                if i < pages.len() - 1 {
                    assert(pages[i].0 < pages[pages.len() - 1].0);
                }
            }
        } else {
            assert(pages.last().0 != src);
            assert forall|i: int| page_insert_pos(pages, src) <= i < pages.len() implies (
            #[trigger] pages[i]).0 > src by {
                if i < pages.len() - 1 {
                    assert(d[i] == pages[i]);
                }
            }
            assert forall|i: int| 0 <= i < page_insert_pos(pages, src) implies (#[trigger] pages[i]).0
                < src by {
                assert(d[i] == pages[i]);
            }
        }
    }
}

impl SearchStore {
    fn largest_other_holder(&self, doc: DocId) -> (r: Option<usize>)
        requires
            self.wf_shape(),
        ensures
            match r {
                Some(i) => i as int == largest_other(self.model(), doc, self.model().len() as int),
                None => largest_other(self.model(), doc, self.model().len() as int) < 0,
            },
    {
        let mut best: Option<usize> = None;
        let mut k: usize = 0;
        while k < self.docs.len()
            invariant
                self.wf_shape(),
                k <= self.docs@.len(),
                match best {
                    Some(b) => b as int == largest_other(self.model(), doc, k as int) && b < k,
                    None => largest_other(self.model(), doc, k as int) < 0,
                },
            decreases self.docs@.len() - k,
        {
            proof {
                assert(self.model()[k as int] == doc_model(self.docs@[k as int]));
                assert(self.docs@[k as int].1.wf());
            }
            if self.docs[k].0 != doc && self.docs[k].1.pages.len() > 0 {
                match best {
                    None => {
                        best = Some(k);
                    },
                    Some(b) => {
                        proof {
                            assert(self.model()[b as int] == doc_model(self.docs@[b as int]));
                            assert(self.docs@[b as int].1.wf());
                        }
                        if self.docs[b].1.used <= self.docs[k].1.used {
                            best = Some(k);
                        }
                    },
                }
            }
            k += 1;
        }
        best
    }

    fn doc_used(&self, doc: DocId) -> (r: u64)
        requires
            self.wf_shape(),
        ensures
            r == doc_bytes(doc_pages(self.model(), doc)),
    {
        match self.find(doc) {
            None => {
                proof {
                    assert(doc_bytes(Seq::<PageModel>::empty()) == 0);
                }
                0
            },
            Some(i) => {
                proof {
                    assert(self.docs@[i as int].1.wf());
                }
                self.docs[i].1.used
            },
        }
    }

    /// Frees at least `need` bytes on behalf of `doc` by trimming whichever
    /// other document currently holds the most, dropping its highest page
    /// indices first. Stops once `doc` itself holds as much as any other, so
    /// the steady state is an even split.
    fn reclaim_for(&mut self, doc: DocId, need: u128)
        requires
            old(self).wf_shape(),
        ensures
            final(self).wf_shape(),
            final(self).model() == reclaim(old(self).model(), doc, need as int, 0),
            final(self).spec_budget() == old(self).spec_budget(),
            final(self).spec_used() <= old(self).spec_used(),
    {
        let mut freed: u128 = 0;
        proof {
            lemma_store_bytes_nonneg(self.model());
        }
        while freed < need
            invariant
                self.wf_shape(),
                self.budget == old(self).budget,
                reclaim(old(self).model(), doc, need as int, 0) == reclaim(
                    self.model(),
                    doc,
                    need as int,
                    freed as int,
                ),
                freed + store_bytes(self.model()) == store_bytes(old(self).model()),
                store_bytes(old(self).model()) <= u64::MAX,
                0 <= store_bytes(self.model()),
            ensures
                self.wf_shape(),
                self.budget == old(self).budget,
                reclaim(old(self).model(), doc, need as int, 0) == self.model(),
                store_bytes(self.model()) <= store_bytes(old(self).model()),
            decreases page_total(self.model()),
        {
            let ghost m = self.model();
            let found = self.largest_other_holder(doc);
            if found.is_none() {
                break;
            }
            let v = found.unwrap();
            let own = self.doc_used(doc);
            proof {
                lemma_largest_other(m, doc, m.len() as int);
                assert(self.docs@[v as int].1.wf());
                assert(m[v as int] == doc_model(self.docs@[v as int]));
            }
            if self.docs[v].1.used <= own {
                break;
            }
            proof {
                lemma_remove_last_page(m, v as int);
                lemma_sum_nonneg(m, page_count_w());
                lemma_store_bytes_nonneg(remove_last_page(m, v as int));
            }
            let c = self.drop_last_page(v);
            freed = freed + c as u128;
        }
    }

    fn held_cost_of(&self, doc: DocId, src: u32) -> (r: u64)
        requires
            self.wf_shape(),
        ensures
            r == held_cost(self.model(), doc, src),
            r <= store_bytes(self.model()),
    {
        proof {
            lemma_store_bytes_nonneg(self.model());
        }
        match self.find(doc) {
            None => 0,
            Some(i) => {
                let pages = &self.docs[i].1.pages;
                let ghost mp = self.model()[i as int].1;
                proof {
                    assert(mp == self.docs@[i as int].1.model_pages());
                    assert(doc_pages(self.model(), doc) == mp);
                    assert(mp.take(pages@.len() as int) =~= mp);
                    lemma_doc_bytes_nonneg(mp);
                    assert(doc_bytes_w()(self.model()[i as int]) <= store_bytes(self.model()));
                }
                let mut k = pages.len();
                while k > 0
                    invariant
                        k <= pages@.len(),
                        mp == pages@.map_values(|p: (u32, Arc<PageEntry>)| page_model(p)),
                        page_pos(mp, src) == page_pos(mp.take(k as int), src),
                        doc_pages(self.model(), doc) == mp,
                        doc_bytes(mp) <= store_bytes(self.model()),
                    decreases k,
                {
                    proof {
                        assert(mp.take(k as int).last() == page_model(pages@[k - 1]));
                        assert(mp.take(k as int).drop_last() =~= mp.take(k - 1));
                    }
                    if pages[k - 1].0 == src {
                        proof {
                            assert(page_pos(mp.take(k as int), src) == k - 1);
                            lemma_sum_nonneg(mp, page_cost_w());
                            assert forall|j: int| 0 <= j < mp.len() implies 0 <= #[trigger] page_cost_w()(mp[j]) by {}
                            lemma_sum_part(mp, k - 1, page_cost_w());
                        }
                        return pages[k - 1].1.cost;
                    }
                    k -= 1;
                }
                0
            },
        }
    }

    /// Position of `doc`, adding an empty index for it if it had none.
    fn ensure_doc(&mut self, doc: DocId) -> (i: usize)
        requires
            old(self).wf_shape(),
        ensures
            final(self).wf_shape(),
            final(self).model() == with_doc(old(self).model(), doc),
            i as int == doc_pos(final(self).model(), doc),
            i < final(self).docs@.len(),
            final(self).spec_budget() == old(self).spec_budget(),
            final(self).spec_used() == old(self).spec_used(),
    {
        match self.find(doc) {
            Some(i) => {
                proof {
                    lemma_doc_pos(self.model(), doc);
                }
                i
            },
            None => {
                let ghost m = self.model();
                proof {
                    lemma_doc_pos(m, doc);
                    lemma_doc_insert_pos(m, doc);
                }
                let mut k = self.docs.len();
                proof {
                    assert(m.take(k as int) =~= m);
                }
                while k > 0 && self.docs[k - 1].0 > doc
                    invariant
                        k <= self.docs@.len(),
                        m == self.model(),
                        doc_insert_pos(m, doc) == doc_insert_pos(m.take(k as int), doc),
                    decreases k,
                {
                    proof {
                        assert(m.take(k as int).last() == doc_model(self.docs@[k - 1]));
                        assert(m.take(k as int).drop_last() =~= m.take(k - 1));
                    }
                    k -= 1;
                }
                proof {
                    if k > 0 {
                        assert(m.take(k as int).last() == doc_model(self.docs@[k - 1]));
                        assert(m[k - 1].0 != doc);
                    }
                    assert(doc_insert_pos(m.take(k as int), doc) == k);
                }
                let d = DocIndex::empty();
                self.docs.insert(k, (doc, d));
                let ghost nd: DocModel = (doc, Seq::empty(), false);
                proof {
                    assert(doc_model((doc, d)) == nd);
                    assert(self.model() =~= m.insert(k as int, nd));
                    lemma_insert_doc(m, k as int, doc);
                    assert forall|j: int| 0 <= j < self.docs@.len() implies (
                    #[trigger] self.docs@[j]).1.wf() by {
                        if j < k {
                            assert(self.docs@[j] == old(self).docs@[j]);
                        } else if j > k {
                            assert(self.docs@[j] == old(self).docs@[j - 1]);
                        }
                    }
                    lemma_doc_pos_unique(self.model(), doc, k as int);
                }
                k
            },
        }
    }
}


proof fn lemma_insert_doc(m: Seq<DocModel>, k: int, doc: DocId)
    requires
        docs_sorted(m),
        forall|i: int| 0 <= i < m.len() ==> (#[trigger] m[i]).0 != doc,
        k == doc_insert_pos(m, doc),
    ensures
        docs_sorted(m.insert(k, (doc, Seq::empty(), false))),
        store_bytes(m.insert(k, (doc, Seq::empty(), false))) == store_bytes(m),
        page_total(m.insert(k, (doc, Seq::empty(), false))) == page_total(m),
{
    let nd: DocModel = (doc, Seq::empty(), false);
    let n = m.insert(k, nd);
    lemma_doc_insert_pos(m, doc);
    lemma_sum_insert(m, k, nd, doc_bytes_w());
    lemma_sum_insert(m, k, nd, page_count_w());
    assert(doc_bytes(nd.1) == 0);
    assert forall|a: int, b: int| 0 <= a < b < n.len() implies (#[trigger] n[a]).0 < (
    #[trigger] n[b]).0 by {
        if a < k && b < k {
            assert(n[a] == m[a] && n[b] == m[b]);
        } else if a < k && b == k {
            assert(n[a] == m[a]);
        } else if a < k {
            assert(n[a] == m[a] && n[b] == m[b - 1]);
        } else if a == k {
            assert(n[b] == m[b - 1]);
        } else {
            assert(n[a] == m[a - 1] && n[b] == m[b - 1]);
        }
    }
}


impl DocIndex {
    /// Where page `src` is, or where it would go.
    fn locate(&self, src: u32) -> (r: (bool, usize))
        requires
            self.wf(),
        ensures
            r.1 <= self.pages@.len(),
            r.0 ==> r.1 < self.pages@.len() && r.1 as int == page_pos(self.model_pages(), src),
            !r.0 ==> page_pos(self.model_pages(), src) < 0 && r.1 as int == page_insert_pos(
                self.model_pages(),
                src,
            ),
    {
        let ghost mp = self.model_pages();
        let mut k = self.pages.len();
        proof {
            assert(mp.take(k as int) =~= mp);
        }
        while k > 0 && self.pages[k - 1].0 > src
            invariant
                k <= self.pages@.len(),
                mp == self.model_pages(),
                page_insert_pos(mp, src) == page_insert_pos(mp.take(k as int), src),
                forall|j: int| k <= j < mp.len() ==> (#[trigger] mp[j]).0 > src,
            decreases k,
        {
            proof {
                assert(mp.take(k as int).last() == page_model(self.pages@[k - 1]));
                assert(mp.take(k as int).drop_last() =~= mp.take(k - 1));
                assert(mp[k - 1] == page_model(self.pages@[k - 1]));
            }
            k -= 1;
        }
        if k > 0 && self.pages[k - 1].0 == src {
            proof {
                assert(mp[k - 1] == page_model(self.pages@[k - 1]));
                lemma_page_pos_unique(mp, src, k - 1);
            }
            (true, k - 1)
        } else {
            proof {
                if k > 0 {
                    assert(mp[k - 1] == page_model(self.pages@[k - 1]));
                    assert(mp.take(k as int).last() == mp[k - 1]);
                    assert(mp[k - 1].0 < src);
                }
                assert(page_insert_pos(mp.take(k as int), src) == k);
                assert forall|j: int| 0 <= j < mp.len() implies (#[trigger] mp[j]).0 != src by {
                    if j < k - 1 {
                        assert(mp[j].0 < mp[k - 1].0);
                    }
                }
                lemma_page_pos(mp, src);
            }
            (false, k)
        }
    }
}

impl SearchStore {
    fn mark_truncated_at(&mut self, i: usize)
        requires
            old(self).wf_shape(),
            i < old(self).docs@.len(),
        ensures
            final(self).wf_shape(),
            final(self).model() == old(self).model().update(
                i as int,
                (old(self).model()[i as int].0, old(self).model()[i as int].1, true),
            ),
            final(self).spec_budget() == old(self).spec_budget(),
            final(self).spec_used() == old(self).spec_used(),
    {
        let ghost m = self.model();
        let (id, mut d) = self.docs.remove(i);
        proof {
            assert(d.wf());
        }
        d.truncated = true;
        self.docs.insert(i, (id, d));
        proof {
            let nd = (m[i as int].0, m[i as int].1, true);
            assert(self.model() =~= m.update(i as int, nd));
            lemma_sum_update(m, i as int, nd, doc_bytes_w());
            assert forall|a: int, b: int| 0 <= a < b < self.model().len() implies (
            #[trigger] self.model()[a]).0 < (#[trigger] self.model()[b]).0 by {
                assert(m[a].0 == self.model()[a].0);
                assert(m[b].0 == self.model()[b].0);
            }
            assert forall|k: int| 0 <= k < self.docs@.len() implies (#[trigger] self.docs@[k]).1.wf() by {
                if k != i {
                    assert(self.docs@[k] == old(self).docs@[k]);
                }
            }
        }
    }

    /// Puts a page into document `i`, replacing a page of the same index.
    fn put_page_at(&mut self, i: usize, src: u32, entry: Arc<PageEntry>)
        requires
            old(self).wf_shape(),
            i < old(self).docs@.len(),
            entry.wf(),
            store_bytes(old(self).model()) - held_cost(
                old(self).model(),
                old(self).model()[i as int].0,
                src,
            ) + entry.spec_cost() <= u64::MAX,
        ensures
            final(self).wf_shape(),
            final(self).model() == put_page(
                old(self).model(),
                old(self).model()[i as int].0,
                page_model((src, entry)),
            ),
            final(self).spec_budget() == old(self).spec_budget(),
            final(self).spec_used() == old(self).spec_used() - held_cost(
                old(self).model(),
                old(self).model()[i as int].0,
                src,
            ) + entry.spec_cost(),
    {
        let ghost m = self.model();
        let ghost doc = m[i as int].0;
        let ghost p = page_model((src, entry));
        proof {
            lemma_doc_pos_unique(m, doc, i as int);
            lemma_store_bytes_nonneg(m);
        }
        let (id, mut d) = self.docs.remove(i);
        let ghost mp = d.model_pages();
        proof {
            assert(d.wf());
            assert(doc_model((id, d)) == m[i as int]);
            assert(doc_pages(m, doc) == mp);
            lemma_doc_bytes_nonneg(mp);
            assert(doc_bytes_w()(m[i as int]) <= store_bytes(m));
        }
        let cost = entry.cost;
        let chars = entry.char_count as u64;
        let (found, k) = d.locate(src);
        let ghost np: Seq<PageModel>;
        if found {
            let old_entry = d.pages.remove(k);
            let old_cost = old_entry.1.cost;
            let old_chars = old_entry.1.char_count as u64;
            d.pages.insert(k, (src, entry));
            proof {
                np = mp.update(k as int, p);
                assert(d.model_pages() =~= np);
                assert(page_model(old_entry) == mp[k as int]);
                lemma_page_pos(mp, src);
                lemma_put_replace(mp, k as int, p);
                assert(held_cost(m, doc, src) == mp[k as int].3);
            }
            d.used = d.used - old_cost + cost;
            d.chars_indexed = d.chars_indexed - old_chars + chars;
            self.used = self.used - old_cost + cost;
        } else {
            d.pages.insert(k, (src, entry));
            proof {
                np = mp.insert(k as int, p);
                assert(d.model_pages() =~= np);
                lemma_page_pos(mp, src);
                lemma_put_insert(mp, k as int, p);
                assert(held_cost(m, doc, src) == 0);
            }
            d.used = d.used + cost;
            d.chars_indexed = d.chars_indexed + chars;
            self.used = self.used + cost;
        }
        proof {
            assert forall|j: int| 0 <= j < d.pages@.len() implies (#[trigger] d.pages@[j]).1.wf() by {
                if found {
                    if j != k {
                        assert(d.pages@[j] == old(self).docs@[i as int].1.pages@[j]);
                    }
                } else {
                    if j < k {
                        assert(d.pages@[j] == old(self).docs@[i as int].1.pages@[j]);
                    } else if j > k {
                        assert(d.pages@[j] == old(self).docs@[i as int].1.pages@[j - 1]);
                    }
                }
            }
        }
        let truncated = d.truncated;
        self.docs.insert(i, (id, d));
        proof {
            let nd = (doc, np, m[i as int].2);
            assert(self.model() =~= m.update(i as int, nd));
            assert(put_page(m, doc, p) == m.update(i as int, nd));
            lemma_store_update(m, i as int, nd);
            assert forall|j: int| 0 <= j < self.docs@.len() implies (#[trigger] self.docs@[j]).1.wf() by {
                if j != i {
                    assert(self.docs@[j] == old(self).docs@[j]);
                }
            }
        }
    }

    /// Stores compact search text for one page. Returns whether the page was
    /// taken; a page that does not fit even after reclaiming room leaves the
    /// document marked as not completely indexed.
    pub fn store_page(&mut self, doc: DocId, src: u32, raw: &str, char_count: u32) -> (ok: bool)
        requires
            old(self).wf(),
        ensures
            final(self).wf(),
            final(self).spec_budget() == old(self).spec_budget(),
            (ok, final(self).model()) == store_outcome(
                old(self).model(),
                old(self).spec_budget() as int,
                doc,
                src,
                raw@,
                char_count,
            ),
    {
        let e = PageEntry::new(raw, char_count);
        let cost = e.cost;
        let entry = Arc::new(e);
        let ghost m0 = self.model();
        let old_cost = self.held_cost_of(doc, src);
        let projected: u128 = (self.used - old_cost) as u128 + cost as u128;
        if projected > self.budget as u128 {
            self.reclaim_for(doc, projected - self.budget as u128);
        }
        let ghost m1 = self.model();
        let i = self.ensure_doc(doc);
        let ghost m2 = self.model();
        let old_cost = self.held_cost_of(doc, src);
        proof {
            lemma_doc_pos(m2, doc);
        }
        if (self.used - old_cost) as u128 + cost as u128 > self.budget as u128 {
            self.mark_truncated_at(i);
            return false;
        }
        self.put_page_at(i, src, entry);
        true
    }
}


proof fn lemma_put_replace(mp: Seq<PageModel>, k: int, p: PageModel)
    requires
        pages_sorted(mp),
        0 <= k < mp.len(),
        mp[k].0 == p.0,
    ensures
        pages_sorted(mp.update(k, p)),
        doc_bytes(mp.update(k, p)) == doc_bytes(mp) - mp[k].3 + p.3,
        doc_chars(mp.update(k, p)) == doc_chars(mp) - mp[k].2 + p.2,
        mp[k].3 <= doc_bytes(mp),
        mp[k].2 <= doc_chars(mp),
        doc_chars(mp.update(k, p)) <= u64::MAX,
{
    let np = mp.update(k, p);
    lemma_sum_update(mp, k, p, page_cost_w());
    lemma_sum_update(mp, k, p, page_chars_w());
    assert forall|a: int, b: int| 0 <= a < b < np.len() implies (#[trigger] np[a]).0 < (
    #[trigger] np[b]).0 by {
        assert(np[a].0 == mp[a].0 && np[b].0 == mp[b].0);
    }
    lemma_doc_chars_bound(np);
    lemma_sum_part(mp, k, page_cost_w());
    lemma_sum_part(mp, k, page_chars_w());
}

proof fn lemma_put_insert(mp: Seq<PageModel>, k: int, p: PageModel)
    requires
        pages_sorted(mp),
        forall|i: int| 0 <= i < mp.len() ==> (#[trigger] mp[i]).0 != p.0,
        k == page_insert_pos(mp, p.0),
    ensures
        0 <= k <= mp.len(),
        pages_sorted(mp.insert(k, p)),
        doc_bytes(mp.insert(k, p)) == doc_bytes(mp) + p.3,
        doc_chars(mp.insert(k, p)) == doc_chars(mp) + p.2,
        doc_chars(mp.insert(k, p)) <= u64::MAX,
{
    let np = mp.insert(k, p);
    lemma_page_insert_pos(mp, p.0);
    lemma_sum_insert(mp, k, p, page_cost_w());
    lemma_sum_insert(mp, k, p, page_chars_w());
    assert forall|a: int, b: int| 0 <= a < b < np.len() implies (#[trigger] np[a]).0 < (
    #[trigger] np[b]).0 by {
        if a < k && b < k {
            assert(np[a] == mp[a] && np[b] == mp[b]);
        } else if a < k && b == k {
            assert(np[a] == mp[a]);
        } else if a < k {
            assert(np[a] == mp[a] && np[b] == mp[b - 1]);
        } else if a == k {
            assert(np[b] == mp[b - 1]);
        } else {
            assert(np[a] == mp[a - 1] && np[b] == mp[b - 1]);
        }
    }
    lemma_doc_chars_bound(np);
}

proof fn lemma_store_update(m: Seq<DocModel>, i: int, nd: DocModel)
    requires
        docs_sorted(m),
        0 <= i < m.len(),
        nd.0 == m[i].0,
    ensures
        docs_sorted(m.update(i, nd)),
        store_bytes(m.update(i, nd)) == store_bytes(m) - doc_bytes(m[i].1) + doc_bytes(nd.1),
{
    let n = m.update(i, nd);
    lemma_sum_update(m, i, nd, doc_bytes_w());
    assert forall|a: int, b: int| 0 <= a < b < n.len() implies (#[trigger] n[a]).0 < (#[trigger] n[b]).0 by {
        assert(m[a].0 == n[a].0);
        assert(m[b].0 == n[b].0);
    }
}

} // verus!
