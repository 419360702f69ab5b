//! The library's own search index: one text sidecar per document, on disk.
//!
//! Reading and writing the files is the caller's; where each file lives,
//! when one is worth reading, what a search of a loaded document answers and
//! how the hits are reported are decided here, with the same matching the
//! open documents use.

use crate::chars::{char_vec, string_of};
use crate::gramindex::{fnv, fnv_bytes, signature_of, signature_spec, utf8_text};
use crate::library::{file_name, opt_view, path_file_name};
use crate::search::{
    find_prepared_matches, match_dto_view, min_int, page_matches, page_matches_view, PageEntry,
};
use crate::types::{LibraryHitDto, MatchDto, PageMatchesDto};
use vstd::multiset::Multiset;
use vstd::prelude::*;

verus! {

// ---------------------------------------------------------------------------
// Where the files live.

/// `PathBuf::join` of a relative `name` onto `dir`: a separator goes between
/// them unless `dir` is empty or already ends in one.
pub open spec fn join(dir: Seq<char>, name: Seq<char>) -> Seq<char> {
    if dir.len() == 0 || dir.last() == '/' {
        dir + name
    } else {
        dir + seq!['/'] + name
    }
}

pub open spec fn hex_char(d: int) -> char {
    if d < 10 {
        ('0' as int + d) as char
    } else {
        ('a' as int + d - 10) as char
    }
}

/// The last `n` hexadecimal digits of `h`, lowercase, most significant first.
pub open spec fn hex_digits(h: nat, n: nat) -> Seq<char>
    decreases n,
{
    if n == 0 {
        Seq::empty()
    } else {
        hex_digits(h / 16, (n - 1) as nat).push(hex_char((h % 16) as int))
    }
}

/// The name a document's files share: the FNV-1a hash of its path's UTF-8
/// bytes, as sixteen hexadecimal digits. A hash rather than the path itself,
/// because a path holds separators a file name cannot, and runs longer than
/// most file systems allow.
pub open spec fn doc_stem(document: Seq<char>) -> Seq<char> {
    hex_digits(fnv(vstd::utf8::encode_utf8(document)) as nat, 16)
}

pub open spec fn text_dir(app_data_dir: Seq<char>) -> Seq<char> {
    join(app_data_dir, seq!['t', 'e', 'x', 't'])
}

/// Where a file with extension `ext` for `document` lives.
pub open spec fn doc_file(app_data_dir: Seq<char>, document: Seq<char>, ext: Seq<char>) -> Seq<char> {
    join(text_dir(app_data_dir), doc_stem(document) + seq!['.'] + ext)
}

fn join_path(dir: &str, name: &[char]) -> (r: String)
    ensures
        r@ == join(dir@, name@),
{
    let mut v = char_vec(dir);
    if v.len() > 0 && v[v.len() - 1] != '/' {
        v.push('/');
    }
    crate::chars::push_all(&mut v, name);
    proof {
        if dir@.len() == 0 || dir@.last() == '/' {
            assert(v@ =~= dir@ + name@);
        } else {
            assert(v@ =~= dir@ + seq!['/'] + name@);
        }
    }
    string_of(&v)
}

fn hex_digit(d: u64) -> (c: char)
    requires
        d < 16,
    ensures
        c == hex_char(d as int),
{
    if d < 10 {
        ((d as u8) + 48) as char
    } else {
        ((d as u8) + 87) as char
    }
}

fn hex16(h: u64) -> (r: Vec<char>)
    ensures
        r@ == hex_digits(h as nat, 16),
{
    let mut low_first: Vec<char> = Vec::new();
    let mut m = h;
    let mut k: usize = 0;
    let ghost mut tail: Seq<char> = Seq::empty();
    while k < 16
        invariant
            k <= 16,
            hex_digits(h as nat, 16) == hex_digits(m as nat, (16 - k) as nat) + tail,
            low_first@ == tail.reverse(),
        decreases 16 - k,
    {
        let c = hex_digit(m % 16);
        proof {
            assert(hex_digits(m as nat, (16 - k) as nat) == hex_digits((m / 16) as nat, (16 - k - 1) as nat).push(
                c,
            ));
            assert(hex_digits((m / 16) as nat, (16 - k - 1) as nat) + (seq![c] + tail) =~= hex_digits(
                m as nat,
                (16 - k) as nat,
            ) + tail);
            assert((seq![c] + tail).reverse() =~= tail.reverse().push(c));
            tail = seq![c] + tail;
        }
        low_first.push(c);
        m = m / 16;
        k += 1;
    }
    proof {
        assert(hex_digits(m as nat, 0) =~= Seq::<char>::empty());
        assert(hex_digits(h as nat, 16) =~= tail);
    }
    let mut out: Vec<char> = Vec::new();
    let mut i = low_first.len();
    while i > 0
        invariant
            i <= low_first@.len(),
            out@ == low_first@.skip(i as int).reverse(),
        decreases i,
    {
        i -= 1;
        out.push(low_first[i]);
        proof {
            assert(out@ =~= low_first@.skip(i as int).reverse());
        }
    }
    proof {
        assert(low_first@.skip(0) =~= low_first@);
        assert(tail.reverse().reverse() =~= tail);
    }
    out
}

fn doc_file_path(app_data_dir: &str, document: &str, ext: &[char]) -> (r: String)
    ensures
        r@ == doc_file(app_data_dir@, document@, ext@),
{
    let mut tc: Vec<char> = Vec::new();
    tc.push('t');
    tc.push('e');
    tc.push('x');
    tc.push('t');
    proof {
        assert(tc@ =~= seq!['t', 'e', 'x', 't']);
    }
    let dir = join_path(app_data_dir, &tc);
    let mut name = hex16(fnv_bytes(document.as_bytes()));
    name.push('.');
    crate::chars::push_all(&mut name, ext);
    join_path(dir.as_str(), &name)
}

/// Where a document's sidecar lives: its normalized text, folded text and
/// offset maps.
pub fn sidecar_path(app_data_dir: &str, document: &str) -> (r: String)
    ensures
        r@ == doc_file(app_data_dir@, document@, seq!['j', 's', 'o', 'n']),
{
    let mut ext: Vec<char> = Vec::new();
    ext.push('j');
    ext.push('s');
    ext.push('o');
    ext.push('n');
    proof {
        assert(ext@ =~= seq!['j', 's', 'o', 'n']);
    }
    doc_file_path(app_data_dir, document, &ext)
}

/// Where a document's scan copy lives: its folded text and nothing else, a
/// third the size of the sidecar and needing no parsing.
pub fn scan_path(app_data_dir: &str, document: &str) -> (r: String)
    ensures
        r@ == doc_file(app_data_dir@, document@, seq!['f', 'o', 'l', 'd']),
{
    let mut ext: Vec<char> = Vec::new();
    ext.push('f');
    ext.push('o');
    ext.push('l');
    ext.push('d');
    proof {
        assert(ext@ =~= seq!['f', 'o', 'l', 'd']);
    }
    doc_file_path(app_data_dir, document, &ext)
}

/// Where a document's trigram filter lives, beside the text it stands for.
pub fn filter_path(app_data_dir: &str, document: &str) -> (r: String)
    ensures
        r@ == doc_file(app_data_dir@, document@, seq!['t', 'r', 'i']),
{
    let mut ext: Vec<char> = Vec::new();
    ext.push('t');
    ext.push('r');
    ext.push('i');
    proof {
        assert(ext@ =~= seq!['t', 'r', 'i']);
    }
    doc_file_path(app_data_dir, document, &ext)
}

/// Where the library's inverted gram index lives: one file for the whole
/// library, beside the per-document files.
pub fn gram_index_path(app_data_dir: &str) -> (r: String)
    ensures
        r@ == join(text_dir(app_data_dir@), seq!['g', 'r', 'a', 'm', 's', '.', 'i', 'd', 'x']),
{
    let mut tc: Vec<char> = Vec::new();
    tc.push('t');
    tc.push('e');
    tc.push('x');
    tc.push('t');
    let mut name: Vec<char> = Vec::new();
    name.push('g');
    name.push('r');
    name.push('a');
    name.push('m');
    name.push('s');
    name.push('.');
    name.push('i');
    name.push('d');
    name.push('x');
    proof {
        assert(tc@ =~= seq!['t', 'e', 'x', 't']);
        assert(name@ =~= seq!['g', 'r', 'a', 'm', 's', '.', 'i', 'd', 'x']);
    }
    let dir = join_path(app_data_dir, &tc);
    join_path(dir.as_str(), &name)
}

// ---------------------------------------------------------------------------
// Documents.

/// A document to search: where it is, what it is called, and the state it
/// was in when indexed.
#[derive(Debug)]
pub struct LibraryDocument {
    pub path: String,
    pub title: Option<String>,
    pub mtime_ms: u64,
    pub size: u64,
}

/// One document's pages, ready to search.
pub struct IndexedDocument {
    pub pages: Vec<(u32, PageEntry)>,
}

pub open spec fn fingerprints(documents: Seq<LibraryDocument>) -> Seq<(String, u64, u64)> {
    documents.map_values(|d: LibraryDocument| (d.path, d.mtime_ms, d.size))
}

/// The identity of the current document set, so that an index built for a
/// different one can be spotted rather than trusted.
pub fn library_signature(documents: &[LibraryDocument]) -> (r: u64)
    ensures
        r == signature_spec(fingerprints(documents@)),
{
    let mut prints: Vec<(String, u64, u64)> = Vec::new();
    let mut k: usize = 0;
    while k < documents.len()
        invariant
            k <= documents@.len(),
            prints@ == fingerprints(documents@).take(k as int),
        decreases documents@.len() - k,
    {
        let d = &documents[k];
        prints.push((d.path.clone(), d.mtime_ms, d.size));
        k += 1;
        proof {
            assert(prints@ =~= fingerprints(documents@).take(k as int));
        }
    }
    proof {
        assert(fingerprints(documents@).take(k as int) =~= fingerprints(documents@));
    }
    signature_of(prints.as_slice())
}

// ---------------------------------------------------------------------------
// Searching one document.

/// The pages of a document with matches: at most twenty from one page, and
/// `budget` in all.
pub open spec fn document_matches(
    pages: Seq<(u32, Seq<char>)>,
    q: Seq<char>,
    cs: bool,
    budget: int,
) -> Seq<(u32, Seq<(u32, u32, Seq<char>)>)>
    decreases pages.len(),
{
    if pages.len() == 0 || budget <= 0 {
        Seq::empty()
    } else {
        let found = page_matches(pages[0].1, q, cs, min_int(budget, 20));
        let rest = pages.drop_first();
        if found.len() == 0 {
            document_matches(rest, q, cs, budget)
        } else {
            seq![(pages[0].0, found)] + document_matches(rest, q, cs, budget - found.len())
        }
    }
}

pub open spec fn indexed_view(pages: Seq<(u32, PageEntry)>) -> Seq<(u32, Seq<char>)> {
    pages.map_values(|p: (u32, PageEntry)| (p.0, p.1.raw_text()))
}

pub(crate) proof fn lemma_page_matches_len(raw: Seq<char>, q: Seq<char>, cs: bool, limit: int)
    ensures
        page_matches(raw, q, cs, limit).len() <= if limit > 0 {
            limit
        } else {
            0
        },
{
}

fn to_dtos(found: Vec<(u32, u32, String)>) -> (r: Vec<MatchDto>)
    ensures
        r@.map_values(|m: MatchDto| match_dto_view(m)) == found@.map_values(
            |t: (u32, u32, String)| crate::search::found_view(t),
        ),
{
    let mut r: Vec<MatchDto> = Vec::new();
    let mut i: usize = 0;
    while i < found.len()
        invariant
            i <= found@.len(),
            r@.map_values(|m: MatchDto| match_dto_view(m)) == found@.take(i as int).map_values(
                |t: (u32, u32, String)| crate::search::found_view(t),
            ),
        decreases found@.len() - i,
    {
        let ghost before = r@;
        r.push(MatchDto { start: found[i].0, len: found[i].1, snippet: found[i].2.clone() });
        i += 1;
        proof {
            assert(r@.map_values(|m: MatchDto| match_dto_view(m)) =~= before.map_values(
                |m: MatchDto| match_dto_view(m),
            ).push(crate::search::found_view(found@[i - 1])));
            assert(found@.take(i as int).map_values(|t: (u32, u32, String)| crate::search::found_view(t))
                =~= found@.take(i - 1).map_values(|t: (u32, u32, String)| crate::search::found_view(t)).push(
                crate::search::found_view(found@[i - 1]),
            ));
        }
    }
    proof {
        assert(found@.take(i as int) =~= found@);
    }
    r
}

/// Matches within one loaded document: pages in order, at most twenty
/// matches from a page and `limit` in all.
pub fn search_document(document: &IndexedDocument, prepared: &str, case_sensitive: bool, limit: usize) -> (r: Vec<PageMatchesDto>)
    requires
        forall|k: int| 0 <= k < document.pages@.len() ==> (#[trigger] document.pages@[k]).1.wf(),
    ensures
        r@.map_values(|p: PageMatchesDto| page_matches_view(p)) == document_matches(
            indexed_view(document.pages@),
            prepared@,
            case_sensitive,
            limit as int,
        ),
{
    let ghost pv = indexed_view(document.pages@);
    let mut out: Vec<PageMatchesDto> = Vec::new();
    let mut budget = limit;
    let mut k: usize = 0;
    proof {
        assert(pv.skip(0) =~= pv);
        assert(out@.map_values(|p: PageMatchesDto| page_matches_view(p)) =~= Seq::<
            (u32, Seq<(u32, u32, Seq<char>)>),
        >::empty());
    }
    while k < document.pages.len()
        invariant
            k <= document.pages@.len(),
            pv == indexed_view(document.pages@),
            budget <= limit,
            forall|j: int| 0 <= j < document.pages@.len() ==> (#[trigger] document.pages@[j]).1.wf(),
            document_matches(pv, prepared@, case_sensitive, limit as int) == out@.map_values(
                |p: PageMatchesDto| page_matches_view(p),
            ) + document_matches(pv.skip(k as int), prepared@, case_sensitive, budget as int),
        decreases document.pages@.len() - k,
    {
        if budget == 0 {
            proof {
                assert(document_matches(pv.skip(k as int), prepared@, case_sensitive, 0) =~= Seq::empty());
                assert(out@.map_values(|p: PageMatchesDto| page_matches_view(p)) + Seq::<
                    (u32, Seq<(u32, u32, Seq<char>)>),
                >::empty() =~= out@.map_values(|p: PageMatchesDto| page_matches_view(p)));
            }
            return out;
        }
        let src = document.pages[k].0;
        let entry = &document.pages[k].1;
        let cap: usize = if budget < 20 {
            budget
        } else {
            20
        };
        let found = find_prepared_matches(entry, prepared, case_sensitive, cap);
        let ghost fv = found@.map_values(|t: (u32, u32, String)| crate::search::found_view(t));
        proof {
            let rest = pv.skip(k as int);
            assert(rest[0] == (src, entry.raw_text()));
            assert(rest.drop_first() =~= pv.skip(k + 1));
            assert(min_int(budget as int, 20) == cap);
            lemma_page_matches_len(entry.raw_text(), prepared@, case_sensitive, cap as int);
            assert(fv.len() == found@.len());
        }
        if found.len() == 0 {
            k += 1;
            continue;
        }
        let n = found.len();
        let ghost before = out@;
        let matches = to_dtos(found);
        let page = PageMatchesDto { src, matches };
        proof {
            assert(page_matches_view(page) == (src, fv));
        }
        out.push(page);
        budget = budget - n;
        k += 1;
        proof {
            assert(out@.map_values(|p: PageMatchesDto| page_matches_view(p)) =~= before.map_values(
                |p: PageMatchesDto| page_matches_view(p),
            ).push((src, fv)));
            assert(before.map_values(|p: PageMatchesDto| page_matches_view(p)).push((src, fv)) + document_matches(
                pv.skip(k as int),
                prepared@,
                case_sensitive,
                budget as int,
            ) =~= before.map_values(|p: PageMatchesDto| page_matches_view(p)) + (seq![(src, fv)]
                + document_matches(pv.skip(k as int), prepared@, case_sensitive, budget as int)));
        }
    }
    proof {
        assert(pv.skip(k as int) =~= Seq::<(u32, Seq<char>)>::empty());
        assert(out@.map_values(|p: PageMatchesDto| page_matches_view(p)) + Seq::<
            (u32, Seq<(u32, u32, Seq<char>)>),
        >::empty() =~= out@.map_values(|p: PageMatchesDto| page_matches_view(p)));
    }
    out
}

// ---------------------------------------------------------------------------
// Reporting a library search.

/// How many matches `pages` hold in all.
pub open spec fn match_total(pages: Seq<PageMatchesDto>) -> int
    decreases pages.len(),
{
    if pages.len() == 0 {
        0
    } else {
        match_total(pages.drop_last()) + pages.last().matches@.len()
    }
}

/// A document's hit: its path, its file name (empty when the path has
/// none), its title, how many matches it has, and the pages they are on; no
/// hit when nothing matched.
pub fn library_hit(document: &LibraryDocument, pages: Vec<PageMatchesDto>) -> (r: Option<LibraryHitDto>)
    requires
        match_total(pages@) <= u32::MAX,
    ensures
        pages@.len() == 0 ==> r is None,
        pages@.len() > 0 ==> (r matches Some(h) && {
            &&& h.path@ == document.path@
            &&& h.name@ == match path_file_name(document.path@) {
                Some(n) => n,
                None => Seq::<char>::empty(),
            }
            &&& opt_view(h.title) == opt_view(document.title)
            &&& h.total_matches == match_total(pages@)
            &&& h.pages@ == pages@
        }),
{
    if pages.len() == 0 {
        return None;
    }
    let mut total: u32 = 0;
    let mut k: usize = 0;
    while k < pages.len()
        invariant
            k <= pages@.len(),
            match_total(pages@) <= u32::MAX,
            total == match_total(pages@.take(k as int)),
        decreases pages@.len() - k,
    {
        proof {
            assert(pages@.take(k + 1).drop_last() =~= pages@.take(k as int));
            lemma_match_total_prefix(pages@, k + 1);
        }
        total = total + pages[k].matches.len() as u32;
        k += 1;
    }
    proof {
        assert(pages@.take(k as int) =~= pages@);
    }
    let name = match file_name(document.path.as_str()) {
        Some(n) => n,
        None => {
            let empty = String::new();
            proof {
                assert(empty@ =~= Seq::<char>::empty());
            }
            empty
        },
    };
    let title = match &document.title {
        Some(t) => Some(t.clone()),
        None => None,
    };
    Some(LibraryHitDto { path: document.path.clone(), name, title, total_matches: total, pages })
}

proof fn lemma_match_total_prefix(pages: Seq<PageMatchesDto>, n: int)
    requires
        0 <= n <= pages.len(),
    ensures
        0 <= match_total(pages.take(n)) <= match_total(pages),
    decreases pages.len(),
{
    if n < pages.len() {
        assert(pages.drop_last().take(n) =~= pages.take(n));
        lemma_match_total_prefix(pages.drop_last(), n);
    } else {
        assert(pages.take(n) =~= pages);
        lemma_match_total_nonneg(pages);
    }
}

proof fn lemma_match_total_nonneg(pages: Seq<PageMatchesDto>)
    ensures
        match_total(pages) >= 0,
    decreases pages.len(),
{
    if pages.len() > 0 {
        lemma_match_total_nonneg(pages.drop_last());
    }
}

/// `a` sorts before `b` the way `String` compares: character by character,
/// a proper prefix first.
pub open spec fn text_less(a: Seq<char>, b: Seq<char>) -> bool
    decreases a.len(),
{
    if a.len() == 0 {
        b.len() > 0
    } else if b.len() == 0 {
        false
    } else if a[0] == b[0] {
        text_less(a.drop_first(), b.drop_first())
    } else {
        a[0] < b[0]
    }
}

pub proof fn lemma_text_less_asymmetric(a: Seq<char>, b: Seq<char>)
    ensures
        text_less(a, b) ==> !text_less(b, a),
    decreases a.len(),
{
    if a.len() > 0 && b.len() > 0 && a[0] == b[0] {
        lemma_text_less_asymmetric(a.drop_first(), b.drop_first());
    }
}

pub proof fn lemma_text_less_transitive(a: Seq<char>, b: Seq<char>, c: Seq<char>)
    ensures
        text_less(a, b) && text_less(b, c) ==> text_less(a, c),
    decreases a.len(),
{
    if a.len() > 0 && b.len() > 0 && c.len() > 0 && a[0] == b[0] && b[0] == c[0] {
        lemma_text_less_transitive(a.drop_first(), b.drop_first(), c.drop_first());
    }
}

/// `a` is listed before `b`: more matches, or as many and a name that sorts
/// first.
pub open spec fn hit_before(a: LibraryHitDto, b: LibraryHitDto) -> bool {
    a.total_matches > b.total_matches || (a.total_matches == b.total_matches && text_less(a.name@, b.name@))
}

pub open spec fn hits_ranked(h: Seq<LibraryHitDto>) -> bool {
    forall|i: int, j: int| 0 <= i < j < h.len() ==> !hit_before(#[trigger] h[j], #[trigger] h[i])
}

proof fn lemma_hit_order(a: LibraryHitDto, b: LibraryHitDto, c: LibraryHitDto)
    ensures
        hit_before(a, b) ==> !hit_before(b, a),
        hit_before(a, b) && hit_before(b, c) ==> hit_before(a, c),
{
    lemma_text_less_asymmetric(a.name@, b.name@);
    lemma_text_less_transitive(a.name@, b.name@, c.name@);
}

fn text_before(a: &str, b: &str) -> (r: bool)
    ensures
        r == text_less(a@, b@),
{
    let x = char_vec(a);
    let y = char_vec(b);
    let mut i: usize = 0;
    proof {
        assert(x@.skip(0) =~= x@);
        assert(y@.skip(0) =~= y@);
    }
    while i < x.len() && i < y.len() && x[i] == y[i]
        invariant
            i <= x@.len(),
            i <= y@.len(),
            x@ == a@,
            y@ == b@,
            text_less(a@, b@) == text_less(x@.skip(i as int), y@.skip(i as int)),
        decreases x@.len() - i,
    {
        proof {
            assert(x@.skip(i as int).drop_first() =~= x@.skip(i + 1));
            assert(y@.skip(i as int).drop_first() =~= y@.skip(i + 1));
        }
        i += 1;
    }
    proof {
        if i < x.len() {
            assert(x@.skip(i as int)[0] == x@[i as int]);
        }
        if i < y.len() {
            assert(y@.skip(i as int)[0] == y@[i as int]);
        }
    }
    if i < x.len() && i < y.len() {
        x[i] < y[i]
    } else {
        i == x.len() && i < y.len()
    }
}

fn hit_first(a: &LibraryHitDto, b: &LibraryHitDto) -> (r: bool)
    ensures
        r == hit_before(*a, *b),
{
    a.total_matches > b.total_matches || (a.total_matches == b.total_matches && text_before(
        a.name.as_str(),
        b.name.as_str(),
    ))
}

/// Two hits rank alike: as many matches, and the same name.
pub open spec fn same_rank(a: LibraryHitDto, b: LibraryHitDto) -> bool {
    a.total_matches == b.total_matches && a.name@ == b.name@
}

/// The hits of `s` that rank alike with `k`, in the order `s` has them.
pub open spec fn ties_of(s: Seq<LibraryHitDto>, k: LibraryHitDto) -> Seq<LibraryHitDto>
    decreases s.len(),
{
    if s.len() == 0 {
        Seq::empty()
    } else {
        let rest = ties_of(s.drop_last(), k);
        if same_rank(s.last(), k) {
            rest.push(s.last())
        } else {
            rest
        }
    }
}

proof fn lemma_ties_of_append(a: Seq<LibraryHitDto>, b: Seq<LibraryHitDto>, k: LibraryHitDto)
    ensures
        ties_of(a + b, k) == ties_of(a, k) + ties_of(b, k),
    decreases b.len(),
{
    if b.len() == 0 {
        assert(a + b =~= a);
        assert(ties_of(a, k) + ties_of(b, k) =~= ties_of(a, k));
    } else {
        lemma_ties_of_append(a, b.drop_last(), k);
        assert((a + b).drop_last() =~= a + b.drop_last());
        assert((a + b).last() == b.last());
        if same_rank(b.last(), k) {
            assert(ties_of(a + b, k) =~= ties_of(a, k) + ties_of(b, k));
        }
    }
}

proof fn lemma_ties_of_none(s: Seq<LibraryHitDto>, k: LibraryHitDto)
    requires
        forall|i: int| 0 <= i < s.len() ==> !same_rank(#[trigger] s[i], k),
    ensures
        ties_of(s, k) == Seq::<LibraryHitDto>::empty(),
    decreases s.len(),
{
    if s.len() > 0 {
        let rest = s.drop_last();
        assert forall|i: int| 0 <= i < rest.len() implies !same_rank(#[trigger] rest[i], k) by {
            assert(rest[i] == s[i]);
        }
        lemma_ties_of_none(rest, k);
        assert(!same_rank(s[s.len() - 1], k));
    }
}

proof fn lemma_text_less_total(a: Seq<char>, b: Seq<char>)
    ensures
        text_less(a, b) || a == b || text_less(b, a),
    decreases a.len(),
{
    if a.len() > 0 && b.len() > 0 && a[0] == b[0] {
        lemma_text_less_total(a.drop_first(), b.drop_first());
        if a.drop_first() == b.drop_first() {
            assert(a =~= seq![a[0]] + a.drop_first());
            assert(b =~= seq![b[0]] + b.drop_first());
        }
    } else if a.len() == 0 && b.len() == 0 {
        assert(a =~= b);
    }
}

/// A hit listed before `b` is listed before anything `b` is not listed after.
proof fn lemma_hit_before_what_follows(a: LibraryHitDto, b: LibraryHitDto, c: LibraryHitDto)
    requires
        hit_before(a, b),
        !hit_before(c, b),
    ensures
        hit_before(a, c),
{
    lemma_text_less_total(c.name@, b.name@);
    lemma_text_less_transitive(a.name@, b.name@, c.name@);
}

/// The hits of a library search, most matches first, then by name: among
/// hundreds of papers, the one that mentions a phrase most is nearly always
/// the one being looked for. Hits that tie keep the order they came in.
pub fn rank_hits(hits: Vec<LibraryHitDto>) -> (r: Vec<LibraryHitDto>)
    ensures
        r@.to_multiset() == hits@.to_multiset(),
        hits_ranked(r@),
        forall|k: LibraryHitDto| #[trigger] ties_of(r@, k) == ties_of(hits@, k),
{
    broadcast use vstd::multiset::group_multiset_axioms;
    broadcast use vstd::seq_lib::to_multiset_insert;
    broadcast use vstd::seq_lib::to_multiset_remove;

    let mut out: Vec<LibraryHitDto> = Vec::new();
    let mut rest = hits;
    let ghost all = rest@;
    proof {
        assert(out@.to_multiset() =~= Multiset::<LibraryHitDto>::empty()) by {
            broadcast use vstd::seq_lib::group_to_multiset_ensures;

        }
        assert(all.to_multiset() =~= rest@.to_multiset().add(out@.to_multiset()));
    }
    let ghost mut n: int = 0;
    proof {
        assert(rest@ =~= all.skip(0));
        assert forall|k: LibraryHitDto| #[trigger] ties_of(out@, k) == ties_of(all.take(0), k) by {
            assert(out@ =~= all.take(0));
        }
    }
    while rest.len() > 0
        invariant
            all.to_multiset() == rest@.to_multiset().add(out@.to_multiset()),
            hits_ranked(out@),
            0 <= n <= all.len(),
            rest@ == all.skip(n),
            forall|k: LibraryHitDto| #[trigger] ties_of(out@, k) == ties_of(all.take(n), k),
        decreases rest@.len(),
    {
        let ghost rs = rest@;
        let x = rest.remove(0);
        let ghost before = out@;
        let mut p: usize = 0;
        while p < out.len() && !hit_first(&x, &out[p])
            invariant
                p <= out@.len(),
                out@ == before,
                forall|i: int| 0 <= i < p ==> !hit_before(x, #[trigger] out@[i]),
            decreases out@.len() - p,
        {
            p += 1;
        }
        out.insert(p, x);
        proof {
            let after = out@;
            assert(rest@ == rs.remove(0));
            assert(rs[0] == x);
            vstd::seq_lib::to_multiset_remove(rs, 0);
            assert(rs.contains(x));
            vstd::seq_lib::to_multiset_contains(rs, x);
            assert(rs.to_multiset().count(x) > 0);
            vstd::seq_lib::to_multiset_insert(before, p as int, x);
            assert(rest@.to_multiset() == rs.to_multiset().remove(x));
            assert(after.to_multiset() == before.to_multiset().insert(x));
            assert(all.to_multiset() =~= rest@.to_multiset().add(after.to_multiset()));
            assert forall|i: int, j: int| 0 <= i < j < after.len() implies !hit_before(
                #[trigger] after[j],
                #[trigger] after[i],
            ) by {
                if j < p {
                    assert(after[i] == before[i] && after[j] == before[j]);
                } else if j == p {
                    assert(after[i] == before[i]);
                } else if i < p {
                    assert(after[i] == before[i]);
                    assert(after[j] == before[j - 1]);
                    assert(!hit_before(before[j - 1], before[i]));
                } else if i == p {
                    assert(after[j] == before[j - 1]);
                    assert(hit_before(x, before[p as int]));
                    if j - 1 > p {
                        assert(!hit_before(before[j - 1], before[p as int]));
                        lemma_hit_order(before[j - 1], x, before[p as int]);
                    } else {
                        lemma_hit_order(x, before[p as int], x);
                    }
                } else {
                    assert(after[i] == before[i - 1]);
                    assert(after[j] == before[j - 1]);
                    assert(!hit_before(before[j - 1], before[i - 1]));
                }
            }
        }
        proof {
            let after = out@;
            assert(x == all[n]);
            assert(all.take(n + 1).drop_last() =~= all.take(n));
            assert(all.take(n + 1).last() == x);
            assert(before =~= before.take(p as int) + before.skip(p as int));
            assert(after =~= before.take(p as int) + seq![x] + before.skip(p as int));
            assert(seq![x].drop_last() =~= Seq::<LibraryHitDto>::empty());
            assert forall|k: LibraryHitDto| #[trigger] ties_of(after, k) == ties_of(
                all.take(n + 1),
                k,
            ) by {
                lemma_ties_of_append(before.take(p as int), before.skip(p as int), k);
                lemma_ties_of_append(before.take(p as int), seq![x], k);
                lemma_ties_of_append(before.take(p as int) + seq![x], before.skip(p as int), k);
                assert(ties_of(before, k) == ties_of(all.take(n), k));
                assert(ties_of(Seq::<LibraryHitDto>::empty(), k) =~= Seq::<LibraryHitDto>::empty());
                if same_rank(x, k) {
                    assert(ties_of(seq![x], k) =~= seq![x]);
                    assert(ties_of(all.take(n + 1), k) == ties_of(all.take(n), k).push(x));
                } else {
                    assert(ties_of(seq![x], k) =~= Seq::<LibraryHitDto>::empty());
                    assert(ties_of(all.take(n + 1), k) == ties_of(all.take(n), k));
                }
                if same_rank(x, k) {
                    let tail = before.skip(p as int);
                    assert forall|q: int| 0 <= q < tail.len() implies !same_rank(
                        #[trigger] tail[q],
                        k,
                    ) by {
                        assert(tail[q] == before[p + q]);
                        assert(hit_before(x, before[p as int]));
                        if q > 0 {
                            assert(!hit_before(before[p + q], before[p as int]));
                            lemma_hit_before_what_follows(x, before[p as int], before[p + q]);
                        }
                        lemma_text_less_asymmetric(x.name@, x.name@);
                    }
                    lemma_ties_of_none(tail, k);
                    assert(ties_of(after, k) =~= ties_of(all.take(n + 1), k));
                } else {
                    assert(ties_of(after, k) =~= ties_of(all.take(n + 1), k));
                }
            }
            assert(rest@ =~= all.skip(n + 1));
            n = n + 1;
        }
    }
    proof {
        assert(rest@ =~= Seq::<LibraryHitDto>::empty());
        assert(rest@.to_multiset() =~= Multiset::<LibraryHitDto>::empty()) by {
            broadcast use vstd::seq_lib::group_to_multiset_ensures;

        }
        assert(all.to_multiset() =~= out@.to_multiset());
        assert(n == all.len());
        assert(all.take(n) =~= all);
    }
    out
}

// ---------------------------------------------------------------------------
// Which sidecars are worth parsing.

/// `q` occurs somewhere in `t`.
pub open spec fn contains_text(t: Seq<char>, q: Seq<char>) -> bool {
    exists|i: int| 0 <= i && i + q.len() <= t.len() && #[trigger] t.subrange(i, i + q.len()) == q
}

/// Calls `str::contains`, which std documents as whether the pattern matches
/// a sub-slice of the string.
#[verifier::external_body]
pub(crate) fn str_contains(hay: &str, needle: &str) -> (r: bool)
    ensures
        r == contains_text(hay@, needle@),
{
    hay.contains(needle)
}

/// A character JSON would escape: a quote, a backslash or a control
/// character.
pub open spec fn escaped_in_json(c: char) -> bool {
    c == '"' || c == '\\' || crate::urls::is_control(c)
}

/// Whether a sidecar is worth parsing for `prepared`. The sidecar stores the
/// folded text verbatim, so a query that survives JSON escaping unchanged and
/// is nowhere in the file's bytes cannot be on any page; a query that JSON
/// would escape cannot be judged this way and is always worth it.
pub open spec fn worth(bytes: Seq<u8>, prepared: Seq<char>) -> bool {
    (exists|i: int| 0 <= i < prepared.len() && escaped_in_json(#[trigger] prepared[i])) || (
    vstd::utf8::valid_utf8(bytes) && contains_text(vstd::utf8::decode_utf8(bytes), prepared))
}

fn json_escaped(c: char) -> (r: bool)
    ensures
        r == escaped_in_json(c),
{
    c == '"' || c == '\\' || ('\u{0}' <= c && c <= '\u{1f}') || ('\u{7f}' <= c && c <= '\u{9f}')
}

/// Whether a document's sidecar bytes are worth parsing at all: skipping the
/// documents that cannot match is most of a library search's speed.
pub fn worth_parsing(bytes: &[u8], prepared: &str) -> (r: bool)
    ensures
        r == worth(bytes@, prepared@),
{
    let q = char_vec(prepared);
    let mut i: usize = 0;
    while i < q.len()
        invariant
            i <= q@.len(),
            q@ == prepared@,
            forall|j: int| 0 <= j < i ==> !escaped_in_json(#[trigger] q@[j]),
        decreases q@.len() - i,
    {
        if json_escaped(q[i]) {
            return true;
        }
        i += 1;
    }
    match utf8_text(bytes) {
        Some(text) => str_contains(text.as_str(), prepared),
        None => false,
    }
}

} // verus!
