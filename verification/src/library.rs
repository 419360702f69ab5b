//! The local citation library: which folders it covers, what it knows of
//! each document in them, and how far a scan of them has got.
//!
//! Walking folders, reading files and persisting the index are done by the
//! caller; every decision about what the library holds is made here. Paths
//! are canonical, so two paths name the same file exactly when they are the
//! same string, and they sort as `Path` sorts them: component by component.

use crate::chars::{char_vec, lines, lines_of, slice_chars, space, spaces, string_of, trim_by, trim_chars};
use crate::citation::{
    citation_from_filename, citation_of_filename, find_explicit_citations, id_view,
    occurrence_view, scan, scan_view, CitationOccurrence,
};
use crate::gramindex::string_views;
use crate::types::{CitationIdDto, LibraryStatusDto};
use std::collections::VecDeque;
use vstd::prelude::*;

verus! {

// ---------------------------------------------------------------------------
// How paths sort.

/// Characters in path order: the separator before everything else, so that
/// comparing canonical paths character by character compares them component
/// by component.
pub open spec fn char_before(x: char, y: char) -> bool {
    (x == '/' && y != '/') || (x != '/' && y != '/' && x < y)
}

/// `a` sorts before `b` as a path.
pub open spec fn path_less(a: Seq<char>, b: Seq<char>) -> bool
    decreases a.len(),
{
    if a.len() == 0 {
        b.len() > 0
    } else if b.len() == 0 {
        false
    } else if a[0] == b[0] {
        path_less(a.drop_first(), b.drop_first())
    } else {
        char_before(a[0], b[0])
    }
}

pub proof fn lemma_path_less_irreflexive(a: Seq<char>)
    ensures
        !path_less(a, a),
    decreases a.len(),
{
    if a.len() > 0 {
        lemma_path_less_irreflexive(a.drop_first());
    }
}

pub proof fn lemma_path_less_total(a: Seq<char>, b: Seq<char>)
    ensures
        a == b || path_less(a, b) || path_less(b, a),
    decreases a.len(),
{
    if a.len() > 0 && b.len() > 0 && a[0] == b[0] {
        lemma_path_less_total(a.drop_first(), b.drop_first());
        if a.drop_first() == b.drop_first() {
            assert forall|i: int| 0 <= i < a.len() implies a[i] == b[i] by {
                if i > 0 {
                    assert(a[i] == a.drop_first()[i - 1]);
                    assert(b[i] == b.drop_first()[i - 1]);
                }
            }
            assert(a =~= b);
        }
    } else if a.len() > 0 && b.len() > 0 {
    } else if a.len() == 0 && b.len() == 0 {
        assert(a =~= b);
    }
}

pub proof fn lemma_path_less_asymmetric(a: Seq<char>, b: Seq<char>)
    ensures
        path_less(a, b) ==> !path_less(b, a),
    decreases a.len(),
{
    if a.len() > 0 && b.len() > 0 && a[0] == b[0] {
        lemma_path_less_asymmetric(a.drop_first(), b.drop_first());
    }
}

pub proof fn lemma_path_less_transitive(a: Seq<char>, b: Seq<char>, c: Seq<char>)
    ensures
        path_less(a, b) && path_less(b, c) ==> path_less(a, c),
    decreases a.len(),
{
    if a.len() > 0 && b.len() > 0 && c.len() > 0 && a[0] == b[0] && b[0] == c[0] {
        lemma_path_less_transitive(a.drop_first(), b.drop_first(), c.drop_first());
    }
}

/// Whether `a` sorts before `b`, and whether they are the same path.
fn order_paths(a: &str, b: &str) -> (r: (bool, bool))
    ensures
        r.0 == path_less(a@, b@),
        r.1 == (a@ == b@),
{
    let x = char_vec(a);
    let y = char_vec(b);
    let mut i: usize = 0;
    proof {
        assert(x@.skip(0) =~= x@);
        assert(y@.skip(0) =~= y@);
    }
    while i < x.len() && i < y.len() && x[i] == y[i]
        invariant
            i <= x@.len(),
            i <= y@.len(),
            x@ == a@,
            y@ == b@,
            x@.take(i as int) == y@.take(i as int),
            path_less(a@, b@) == path_less(x@.skip(i as int), y@.skip(i as int)),
        decreases x@.len() - i,
    {
        proof {
            assert(x@.skip(i as int).drop_first() =~= x@.skip(i + 1));
            assert(y@.skip(i as int).drop_first() =~= y@.skip(i + 1));
            assert(x@.take(i + 1) =~= x@.take(i as int).push(x@[i as int]));
            assert(y@.take(i + 1) =~= y@.take(i as int).push(y@[i as int]));
        }
        i += 1;
    }
    if i < x.len() && i < y.len() {
        let less = if x[i] == '/' {
            true
        } else if y[i] == '/' {
            false
        } else {
            x[i] < y[i]
        };
        proof {
            assert(less == char_before(x@[i as int], y@[i as int]));
            assert(x@.skip(i as int)[0] == x@[i as int]);
            assert(y@.skip(i as int)[0] == y@[i as int]);
            assert(a@[i as int] != b@[i as int]);
        }
        (less, false)
    } else {
        proof {
            if i == x.len() {
                assert(x@.take(i as int) =~= x@);
            }
            if i == y.len() {
                assert(y@.take(i as int) =~= y@);
            }
            if x@.len() == y@.len() {
                assert(x@ =~= y@);
            }
            if x@ == y@ {
                assert(x@.len() == y@.len());
            }
        }
        (i == x.len() && i < y.len(), x.len() == y.len())
    }
}

// ---------------------------------------------------------------------------
// Which folder holds a file.

/// Canonical `path` lies in the canonical folder `root`, comparing whole
/// components: it is the folder itself, or it goes on from it past a
/// separator. `/a/b` lies in `/a`; `/ab` does not.
pub open spec fn within_root(root: Seq<char>, path: Seq<char>) -> bool {
    &&& root.len() <= path.len()
    &&& path.take(root.len() as int) == root
    &&& (path.len() == root.len() || root.len() == 0 || root.last() == '/' || path[root.len() as int]
        == '/')
}

/// Whether canonical `path` lies in the canonical folder `root`.
pub fn path_within(root: &str, path: &str) -> (r: bool)
    ensures
        r == within_root(root@, path@),
{
    let rv = char_vec(root);
    let pv = char_vec(path);
    if rv.len() > pv.len() {
        return false;
    }
    let mut i: usize = 0;
    while i < rv.len()
        invariant
            i <= rv@.len(),
            rv@ == root@,
            pv@ == path@,
            rv@.len() <= pv@.len(),
            forall|j: int| 0 <= j < i ==> rv@[j] == pv@[j],
        decreases rv@.len() - i,
    {
        if rv[i] != pv[i] {
            proof {
                assert(pv@.take(rv@.len() as int)[i as int] != rv@[i as int]);
            }
            return false;
        }
        i += 1;
    }
    proof {
        assert(pv@.take(rv@.len() as int) =~= rv@);
    }
    pv.len() == rv.len() || rv.len() == 0 || rv[rv.len() - 1] == '/' || pv[rv.len()] == '/'
}

/// Once the folders equal to `target` go, some folder left holds canonical
/// `path`: `forms` gives each folder's canonical form, in the order of
/// `roots`, none where the folder can no longer be reached.
pub open spec fn held_after(
    roots: Seq<String>,
    forms: Seq<Option<Seq<char>>>,
    target: Seq<char>,
    path: Seq<char>,
) -> bool {
    exists|k: int| 0 <= k < roots.len() && roots[k]@ != target && form_holds(#[trigger] forms[k], path)
}

/// A folder's canonical form, if it could be had, holds `path`.
pub open spec fn form_holds(form: Option<Seq<char>>, path: Seq<char>) -> bool {
    form matches Some(f) && within_root(f, path)
}

/// A document stays when its file can still be reached and a folder left
/// holds it.
pub open spec fn stays(
    roots: Seq<String>,
    forms: Seq<Option<Seq<char>>>,
    target: Seq<char>,
    canonical: Option<Seq<char>>,
) -> bool {
    canonical matches Some(c) && held_after(roots, forms, target, c)
}

pub open spec fn opt_views(v: Seq<Option<String>>) -> Seq<Option<Seq<char>>> {
    v.map_values(|o: Option<String>| opt_view(o))
}

/// The entries that stay, in order; `cs` gives each entry's canonical form.
pub open spec fn entries_kept(
    es: Seq<LibraryEntry>,
    cs: Seq<Option<Seq<char>>>,
    roots: Seq<String>,
    forms: Seq<Option<Seq<char>>>,
    target: Seq<char>,
) -> Seq<LibraryEntry>
    decreases es.len(),
{
    if es.len() == 0 {
        Seq::empty()
    } else {
        let rest = entries_kept(es.drop_last(), cs.drop_last(), roots, forms, target);
        if stays(roots, forms, target, cs[es.len() - 1]) {
            rest.push(es.last())
        } else {
            rest
        }
    }
}

/// The paths of the entries that go, in order.
pub open spec fn entries_dropped(
    es: Seq<LibraryEntry>,
    cs: Seq<Option<Seq<char>>>,
    roots: Seq<String>,
    forms: Seq<Option<Seq<char>>>,
    target: Seq<char>,
) -> Seq<Seq<char>>
    decreases es.len(),
{
    if es.len() == 0 {
        Seq::empty()
    } else {
        let rest = entries_dropped(es.drop_last(), cs.drop_last(), roots, forms, target);
        if stays(roots, forms, target, cs[es.len() - 1]) {
            rest
        } else {
            rest.push(es.last().path@)
        }
    }
}

fn held_after_removal(roots: &Vec<String>, forms: &Vec<Option<String>>, target: &str, path: &str) -> (r: bool)
    requires
        forms@.len() == roots@.len(),
    ensures
        r == held_after(roots@, opt_views(forms@), target@, path@),
{
    let ghost fv = opt_views(forms@);
    let mut k: usize = 0;
    while k < roots.len()
        invariant
            k <= roots@.len(),
            forms@.len() == roots@.len(),
            fv == opt_views(forms@),
            forall|j: int| 0 <= j < k ==> !(roots@[j]@ != target@ && form_holds(#[trigger] fv[j], path@)),
        decreases roots@.len() - k,
    {
        let (_, same) = order_paths(roots[k].as_str(), target);
        proof {
            assert(fv[k as int] == opt_view(forms@[k as int]));
        }
        if !same {
            if let Some(f) = &forms[k] {
                if path_within(f.as_str(), path) {
                    return true;
                }
            }
        }
        k += 1;
    }
    false
}

// ---------------------------------------------------------------------------
// Entries.

/// What the library knows of one document.
#[derive(Debug)]
pub struct LibraryEntry {
    pub path: String,
    pub mtime_ms: u64,
    pub size: u64,
    pub doi: Option<String>,
    pub arxiv: Option<String>,
    pub title: Option<String>,
    /// Whether this document's full text has been extracted for
    /// library-wide search.
    pub text_indexed: bool,
}

/// A file the scan is about to look at, and the state it is in now.
#[derive(Clone, Debug)]
pub struct ScanCandidate {
    pub path: String,
    pub mtime_ms: u64,
    pub size: u64,
    pub epoch: u64,
    pub unchanged: bool,
}

pub open spec fn opt_view(o: Option<String>) -> Option<Seq<char>> {
    match o {
        Some(s) => Some(s@),
        None => None,
    }
}

fn copy_opt(o: &Option<String>) -> (r: Option<String>)
    ensures
        r == *o,
{
    match o {
        Some(s) => Some(s.clone()),
        None => None,
    }
}

/// A copy of `e`.
pub fn copy_entry(e: &LibraryEntry) -> (r: LibraryEntry)
    ensures
        r == *e,
{
    LibraryEntry {
        path: e.path.clone(),
        mtime_ms: e.mtime_ms,
        size: e.size,
        doi: copy_opt(&e.doi),
        arxiv: copy_opt(&e.arxiv),
        title: copy_opt(&e.title),
        text_indexed: e.text_indexed,
    }
}

/// The final component of a path, as `Path::file_name` gives it: none for a
/// path that ends in `..` or is only a root.
pub uninterp spec fn path_file_name(path: Seq<char>) -> Option<Seq<char>>;

/// Calls `Path::file_name`. A path held in a `String` is valid UTF-8, so its
/// file name converts to a `String` unchanged; being one of the path's
/// components, it is no longer than the path.
#[verifier::external_body]
pub(crate) fn file_name(path: &str) -> (r: Option<String>)
    ensures
        opt_view(r) == path_file_name(path@),
        r matches Some(n) ==> n@.len() <= path@.len(),
{
    std::path::Path::new(path).file_name().map(|n| n.to_string_lossy().into_owned())
}

/// The entry a file's name alone gives, when the name is a DOI or an arXiv
/// id.
pub open spec fn filename_entry(c: ScanCandidate) -> Option<
    (Seq<char>, u64, u64, Option<Seq<char>>, Option<Seq<char>>),
> {
    match path_file_name(c.path@) {
        None => None,
        Some(name) => match citation_of_filename(name) {
            None => None,
            Some((is_doi, value)) => Some(
                (
                    c.path@,
                    c.mtime_ms,
                    c.size,
                    if is_doi {
                        Some(value)
                    } else {
                        None
                    },
                    if is_doi {
                        None
                    } else {
                        Some(value)
                    },
                ),
            ),
        },
    }
}

/// A new entry with no title, not yet text-indexed, viewed as (path, mtime,
/// size, doi, arXiv id).
pub open spec fn fresh_view(e: LibraryEntry) -> (Seq<char>, u64, u64, Option<Seq<char>>, Option<Seq<char>>) {
    (e.path@, e.mtime_ms, e.size, opt_view(e.doi), opt_view(e.arxiv))
}

/// An entry for a file whose name is a DOI or an arXiv id, made without
/// opening it.
pub fn entry_from_filename(candidate: &ScanCandidate) -> (r: Option<LibraryEntry>)
    requires
        candidate.path@.len() <= usize::MAX - 256,
    ensures
        match filename_entry(*candidate) {
            Some(v) => r matches Some(e) && fresh_view(e) == v && e.title is None && !e.text_indexed,
            None => r is None,
        },
{
    let name = match file_name(candidate.path.as_str()) {
        Some(n) => n,
        None => {
            return None;
        },
    };
    let id = match citation_from_filename(name.as_str()) {
        Some(id) => id,
        None => {
            return None;
        },
    };
    let (doi, arxiv) = match id {
        CitationIdDto::Doi(value) => (Some(value), None),
        CitationIdDto::ArXiv(value) => (None, Some(value)),
    };
    Some(
        LibraryEntry {
            path: candidate.path.clone(),
            mtime_ms: candidate.mtime_ms,
            size: candidate.size,
            doi,
            arxiv,
            title: None,
            text_indexed: false,
        },
    )
}

/// The first identifier of the wanted scheme among `occ`, read as (is it a
/// DOI, value, start, length).
pub open spec fn first_id(occ: Seq<(bool, Seq<char>, u32, u32)>, doi: bool) -> Option<Seq<char>>
    decreases occ.len(),
{
    if occ.len() == 0 {
        None
    } else {
        match first_id(occ.drop_last(), doi) {
            Some(v) => Some(v),
            None => if occ.last().0 == doi {
                Some(occ.last().1)
            } else {
                None
            },
        }
    }
}

/// The identifier of a scheme an entry takes from its first page is the
/// earliest one of that scheme on the page, whatever follows it: when the
/// `i`-th occurrence is the first with that scheme, its value is taken.
pub proof fn lemma_first_id_is_earliest(occ: Seq<(bool, Seq<char>, u32, u32)>, doi: bool, i: int)
    requires
        0 <= i < occ.len(),
        occ[i].0 == doi,
        forall|j: int| 0 <= j < i ==> (#[trigger] occ[j]).0 != doi,
    ensures
        first_id(occ, doi) == Some(occ[i].1),
    decreases occ.len(),
{
    if i < occ.len() - 1 {
        let d = occ.drop_last();
        assert forall|j: int| 0 <= j < i implies (#[trigger] d[j]).0 != doi by {
            assert(d[j] == occ[j]);
        }
        assert(d[i] == occ[i]);
        lemma_first_id_is_earliest(d, doi, i);
    } else {
        lemma_first_id_absent(occ.drop_last(), doi);
    }
}

/// A page with no identifier of a scheme gives the entry none of it.
pub proof fn lemma_first_id_absent(occ: Seq<(bool, Seq<char>, u32, u32)>, doi: bool)
    requires
        forall|j: int| 0 <= j < occ.len() ==> (#[trigger] occ[j]).0 != doi,
    ensures
        first_id(occ, doi) is None,
    decreases occ.len(),
{
    if occ.len() > 0 {
        let d = occ.drop_last();
        assert forall|j: int| 0 <= j < d.len() implies (#[trigger] d[j]).0 != doi by {
            assert(d[j] == occ[j]);
        }
        lemma_first_id_absent(d, doi);
        assert(occ[occ.len() - 1] == occ.last());
    }
}

/// A line long enough to be a title, trimmed and cut to 300 characters.
pub open spec fn title_of(line: Seq<char>) -> Option<Seq<char>> {
    let t = trim_by(line, spaces());
    if t.len() <= 12 {
        None
    } else if t.len() > 300 {
        Some(t.take(300))
    } else {
        Some(t)
    }
}

/// The first line of a first page that could be its title.
pub open spec fn first_title(lines: Seq<Seq<char>>) -> Option<Seq<char>>
    decreases lines.len(),
{
    if lines.len() == 0 {
        None
    } else {
        match first_title(lines.drop_last()) {
            Some(t) => Some(t),
            None => title_of(lines.last()),
        }
    }
}

pub open spec fn page_ids(text: Seq<char>) -> Seq<(bool, Seq<char>, u32, u32)> {
    scan(text, 0).map_values(|x: (bool, Seq<char>, int, int)| scan_view(x))
}

fn line_title(line: &[char]) -> (r: Option<String>)
    ensures
        opt_view(r) == title_of(line@),
{
    let t = trim_chars(line, space, Ghost(spaces()));
    if t.len() <= 12 {
        None
    } else if t.len() > 300 {
        let cut = slice_chars(&t, 0, 300);
        proof {
            assert(cut@ =~= t@.take(300));
        }
        Some(string_of(&cut))
    } else {
        Some(string_of(&t))
    }
}

/// What the first page of a document says about it: the first DOI and the
/// first arXiv id written on it, and its first line long enough to be a
/// title.
pub fn entry_from_first_page(candidate: &ScanCandidate, text: &str) -> (r: LibraryEntry)
    requires
        text@.len() <= usize::MAX - 256,
    ensures
        fresh_view(r) == (
            candidate.path@,
            candidate.mtime_ms,
            candidate.size,
            first_id(page_ids(text@), true),
            first_id(page_ids(text@), false),
        ),
        opt_view(r.title) == first_title(lines_of(text@)),
        !r.text_indexed,
{
    let found = find_explicit_citations(text);
    let ghost ids = page_ids(text@);
    let ghost fv = found@.map_values(|o: CitationOccurrence| occurrence_view(o));
    let mut doi: Option<String> = None;
    let mut arxiv: Option<String> = None;
    let mut k: usize = 0;
    proof {
        assert(fv.take(0) =~= Seq::<(bool, Seq<char>, u32, u32)>::empty());
    }
    while k < found.len()
        invariant
            k <= found@.len(),
            fv == found@.map_values(|o: CitationOccurrence| occurrence_view(o)),
            fv == ids,
            opt_view(doi) == first_id(fv.take(k as int), true),
            opt_view(arxiv) == first_id(fv.take(k as int), false),
        decreases found@.len() - k,
    {
        let o = &found[k];
        proof {
            assert(fv.take(k + 1).drop_last() =~= fv.take(k as int));
            assert(fv.take(k + 1).last() == occurrence_view(*o));
        }
        match &o.id {
            CitationIdDto::Doi(value) => {
                if doi.is_none() {
                    doi = Some(value.clone());
                }
            },
            CitationIdDto::ArXiv(value) => {
                if arxiv.is_none() {
                    arxiv = Some(value.clone());
                }
            },
        }
        k += 1;
    }
    proof {
        assert(fv.take(k as int) =~= fv);
    }
    let ls = lines(&char_vec(text));
    let ghost all = ls@.map_values(|l: Vec<char>| l@);
    let mut title: Option<String> = None;
    let mut j: usize = 0;
    proof {
        assert(all.take(0) =~= Seq::<Seq<char>>::empty());
    }
    while j < ls.len()
        invariant
            j <= ls@.len(),
            all == ls@.map_values(|l: Vec<char>| l@),
            all == lines_of(text@),
            opt_view(title) == first_title(all.take(j as int)),
        decreases ls@.len() - j,
    {
        proof {
            assert(all.take(j + 1).drop_last() =~= all.take(j as int));
            assert(all.take(j + 1).last() == ls@[j as int]@);
        }
        if title.is_none() {
            title = line_title(ls[j].as_slice());
        }
        j += 1;
    }
    proof {
        assert(all.take(j as int) =~= all);
    }
    LibraryEntry {
        path: candidate.path.clone(),
        mtime_ms: candidate.mtime_ms,
        size: candidate.size,
        doi,
        arxiv,
        title,
        text_indexed: false,
    }
}

// ---------------------------------------------------------------------------
// Sorted collections of paths and entries.

/// Strictly ascending by path: sorted, and no path twice.
pub open spec fn entries_sorted(es: Seq<LibraryEntry>) -> bool {
    forall|i: int, j: int| 0 <= i < j < es.len() ==> path_less(#[trigger] es[i].path@, #[trigger] es[j].path@)
}

pub open spec fn paths_sorted(ps: Seq<String>) -> bool {
    forall|i: int, j: int| 0 <= i < j < ps.len() ==> path_less(#[trigger] ps[i]@, #[trigger] ps[j]@)
}

/// `es` holds an entry for `path`.
pub open spec fn has_path(es: Seq<LibraryEntry>, path: Seq<char>) -> bool {
    exists|k: int| 0 <= k < es.len() && (#[trigger] es[k]).path@ == path
}

/// Index of the first entry of `es` not before `path`.
fn entry_position(es: &Vec<LibraryEntry>, path: &str) -> (r: (usize, bool))
    requires
        entries_sorted(es@),
    ensures
        r.0 <= es@.len(),
        forall|i: int| 0 <= i < r.0 ==> path_less(#[trigger] es@[i].path@, path@),
        r.0 < es@.len() ==> !path_less(es@[r.0 as int].path@, path@),
        r.1 == (r.0 < es@.len() && es@[r.0 as int].path@ == path@),
{
    let mut p: usize = 0;
    while p < es.len()
        invariant
            p <= es@.len(),
            forall|i: int| 0 <= i < p ==> path_less(#[trigger] es@[i].path@, path@),
        decreases es@.len() - p,
    {
        let (less, same) = order_paths(es[p].path.as_str(), path);
        if !less {
            return (p, same);
        }
        p += 1;
    }
    (p, false)
}

proof fn lemma_order_facts(a: Seq<char>, b: Seq<char>, c: Seq<char>)
    ensures
        !path_less(a, a),
        path_less(a, b) ==> !path_less(b, a),
        path_less(a, b) && path_less(b, c) ==> path_less(a, c),
        a == b || path_less(a, b) || path_less(b, a),
{
    lemma_path_less_irreflexive(a);
    lemma_path_less_asymmetric(a, b);
    lemma_path_less_transitive(a, b, c);
    lemma_path_less_total(a, b);
}

/// Puts `e` into `es`, in its place by path, replacing the entry for the same
/// path if there is one.
fn put_entry(es: &mut Vec<LibraryEntry>, e: LibraryEntry)
    requires
        entries_sorted(old(es)@),
    ensures
        entries_sorted(final(es)@),
        final(es)@.contains(e),
        forall|x: LibraryEntry| old(es)@.contains(x) && x.path@ != e.path@ ==> final(es)@.contains(x),
        forall|x: LibraryEntry| #[trigger] final(es)@.contains(x) ==> x == e || (old(es)@.contains(x) && x.path@ != e.path@),
{
    let ghost before = es@;
    let ghost ep = e.path@;
    let (p, same) = entry_position(es, e.path.as_str());
    if same {
        es.set(p, e);
        proof {
            let after = es@;
            assert forall|i: int, j: int| 0 <= i < j < after.len() implies path_less(
                #[trigger] after[i].path@,
                #[trigger] after[j].path@,
            ) by {
                assert(path_less(before[i].path@, before[j].path@));
            }
            assert(after[p as int] == e);
            assert forall|x: LibraryEntry| before.contains(x) && x.path@ != ep implies after.contains(x) by {
                let k = choose|k: int| 0 <= k < before.len() && before[k] == x;
                assert(k != p);
                assert(after[k] == x);
            }
            assert forall|x: LibraryEntry| #[trigger] after.contains(x) implies x == e || (before.contains(x)
                && x.path@ != ep) by {
                let k = choose|k: int| 0 <= k < after.len() && after[k] == x;
                if k != p {
                    assert(before[k] == x);
                    if k < p {
                        assert(path_less(before[k].path@, before[p as int].path@));
                    } else {
                        assert(path_less(before[p as int].path@, before[k].path@));
                    }
                    lemma_path_less_irreflexive(ep);
                }
            }
        }
    } else {
        es.insert(p, e);
        proof {
            let after = es@;
            assert(after =~= before.take(p as int) + seq![e] + before.skip(p as int));
            if p < before.len() {
                lemma_order_facts(before[p as int].path@, ep, ep);
                assert(path_less(ep, before[p as int].path@));
            }
            assert forall|j: int| p < j < after.len() implies path_less(ep, #[trigger] after[j].path@) by {
                assert(after[j] == before[j - 1]);
                if j - 1 > p {
                    assert(path_less(before[p as int].path@, before[j - 1].path@));
                    lemma_path_less_transitive(ep, before[p as int].path@, before[j - 1].path@);
                }
            }
            assert forall|i: int, j: int| 0 <= i < j < after.len() implies path_less(
                #[trigger] after[i].path@,
                #[trigger] after[j].path@,
            ) by {
                if j < p {
                    assert(path_less(before[i].path@, before[j].path@));
                } else if j == p {
                    assert(after[i] == before[i]);
                } else if i < p {
                    assert(after[i] == before[i]);
                    assert(path_less(before[i].path@, ep));
                    assert(path_less(ep, after[j].path@));
                    lemma_path_less_transitive(before[i].path@, ep, after[j].path@);
                } else if i == p {
                } else {
                    assert(after[i] == before[i - 1]);
                    assert(after[j] == before[j - 1]);
                    assert(path_less(before[i - 1].path@, before[j - 1].path@));
                }
            }
            assert(after[p as int] == e);
            assert forall|x: LibraryEntry| before.contains(x) && x.path@ != ep implies after.contains(x) by {
                let k = choose|k: int| 0 <= k < before.len() && before[k] == x;
                if k < p {
                    assert(after[k] == x);
                } else {
                    assert(after[k + 1] == x);
                }
            }
            assert forall|x: LibraryEntry| #[trigger] after.contains(x) implies x == e || (before.contains(x)
                && x.path@ != ep) by {
                let k = choose|k: int| 0 <= k < after.len() && after[k] == x;
                if k < p {
                    assert(before[k] == x);
                    assert(path_less(x.path@, ep));
                    lemma_path_less_irreflexive(ep);
                } else if k > p {
                    assert(before[k - 1] == x);
                    assert(path_less(ep, x.path@));
                    lemma_path_less_irreflexive(ep);
                }
            }
        }
    }
}

/// Index of the first path of `ps` not before `path`.
fn path_position(ps: &Vec<String>, path: &str) -> (r: (usize, bool))
    requires
        paths_sorted(ps@),
    ensures
        r.0 <= ps@.len(),
        forall|i: int| 0 <= i < r.0 ==> path_less(#[trigger] ps@[i]@, path@),
        r.0 < ps@.len() ==> !path_less(ps@[r.0 as int]@, path@),
        r.1 == (r.0 < ps@.len() && ps@[r.0 as int]@ == path@),
{
    let mut p: usize = 0;
    while p < ps.len()
        invariant
            p <= ps@.len(),
            forall|i: int| 0 <= i < p ==> path_less(#[trigger] ps@[i]@, path@),
        decreases ps@.len() - p,
    {
        let (less, same) = order_paths(ps[p].as_str(), path);
        if !less {
            return (p, same);
        }
        p += 1;
    }
    (p, false)
}

/// Adds `path` to the sorted `ps` unless it is there already.
fn put_path(ps: &mut Vec<String>, path: String)
    requires
        paths_sorted(old(ps)@),
    ensures
        paths_sorted(final(ps)@),
        string_views(final(ps)@).contains(path@),
        forall|x: Seq<char>| string_views(old(ps)@).contains(x) ==> string_views(final(ps)@).contains(x),
        forall|x: Seq<char>| #[trigger] string_views(final(ps)@).contains(x) ==> x == path@ || string_views(
            old(ps)@,
        ).contains(x),
{
    let ghost before = ps@;
    let ghost pp = path@;
    let (p, same) = path_position(ps, path.as_str());
    if same {
        proof {
            assert(string_views(before)[p as int] == pp);
        }
        return;
    }
    ps.insert(p, path);
    proof {
        let after = ps@;
        assert(after =~= before.take(p as int) + seq![path] + before.skip(p as int));
        if p < before.len() {
            lemma_order_facts(before[p as int]@, pp, pp);
            assert(path_less(pp, before[p as int]@));
        }
        assert forall|j: int| p < j < after.len() implies path_less(pp, #[trigger] after[j]@) by {
            assert(after[j] == before[j - 1]);
            if j - 1 > p {
                assert(path_less(before[p as int]@, before[j - 1]@));
                lemma_path_less_transitive(pp, before[p as int]@, before[j - 1]@);
            }
        }
        assert forall|i: int, j: int| 0 <= i < j < after.len() implies path_less(
            #[trigger] after[i]@,
            #[trigger] after[j]@,
        ) by {
            if j < p {
                assert(path_less(before[i]@, before[j]@));
            } else if j == p {
                assert(after[i] == before[i]);
            } else if i < p {
                assert(after[i] == before[i]);
                assert(path_less(before[i]@, pp));
                assert(path_less(pp, after[j]@));
                lemma_path_less_transitive(before[i]@, pp, after[j]@);
            } else if i == p {
            } else {
                assert(after[i] == before[i - 1]);
                assert(after[j] == before[j - 1]);
                assert(path_less(before[i - 1]@, before[j - 1]@));
            }
        }
        assert(string_views(after)[p as int] == pp);
        assert forall|x: Seq<char>| string_views(before).contains(x) implies string_views(after).contains(x) by {
            let k = choose|k: int| 0 <= k < string_views(before).len() && string_views(before)[k] == x;
            if k < p {
                assert(string_views(after)[k] == x);
            } else {
                assert(string_views(after)[k + 1] == x);
            }
        }
        assert forall|x: Seq<char>| #[trigger] string_views(after).contains(x) implies x == pp || string_views(
            before,
        ).contains(x) by {
            let k = choose|k: int| 0 <= k < string_views(after).len() && string_views(after)[k] == x;
            if k < p {
                assert(string_views(before)[k] == x);
            } else if k > p {
                assert(string_views(before)[k - 1] == x);
            }
        }
    }
}

// ---------------------------------------------------------------------------
// The library's state.

/// The library: its folders, what it knows of their documents, and the
/// progress of the scan that keeps that up to date.
pub struct LibraryState {
    app_data_dir: String,
    roots: Vec<String>,
    /// Ascending by path, one entry per path.
    entries: Vec<LibraryEntry>,
    /// The files the current scan has still to look at, in path order.
    pending: VecDeque<String>,
    processed: u32,
    total: u32,
    scanning: bool,
    scan_epoch: u64,
}

/// Among the first `n` of `stored`, no entry after the `i`-th is for the
/// same path.
pub open spec fn latest(stored: Seq<LibraryEntry>, n: int, i: int) -> bool {
    forall|j: int| i < j < n ==> (#[trigger] stored[j]).path@ != stored[i].path@
}

/// `es` holds, for each path among the first `n` of `stored`, the last entry
/// stored for it, and nothing else.
pub open spec fn keeps_latest(es: Seq<LibraryEntry>, stored: Seq<LibraryEntry>, n: int) -> bool {
    &&& forall|i: int| 0 <= i < n && latest(stored, n, i) ==> es.contains(#[trigger] stored[i])
    &&& forall|x: LibraryEntry| #[trigger] es.contains(x) ==> exists|i: int|
        0 <= i < n && latest(stored, n, i) && stored[i] == x
}

/// `after` is `before` with `e` put in: `e` added, in place of the entry for
/// its path if there was one, and still in path order.
pub open spec fn put_in(before: Seq<LibraryEntry>, after: Seq<LibraryEntry>, e: LibraryEntry) -> bool {
    &&& entries_sorted(after)
    &&& after.contains(e)
    &&& forall|x: LibraryEntry| before.contains(x) && x.path@ != e.path@ ==> after.contains(x)
    &&& forall|x: LibraryEntry| #[trigger] after.contains(x) ==> x == e || (before.contains(x) && x.path@ != e.path@)
}

/// `roots` without those equal to `target`.
pub open spec fn without(roots: Seq<String>, target: Seq<char>) -> Seq<String>
    decreases roots.len(),
{
    if roots.len() == 0 {
        Seq::empty()
    } else {
        let rest = without(roots.drop_last(), target);
        if roots.last()@ == target {
            rest
        } else {
            rest.push(roots.last())
        }
    }
}

pub open spec fn cap(n: nat) -> u32 {
    if n > u32::MAX {
        u32::MAX
    } else {
        n as u32
    }
}

/// How many of `es` have had their text extracted.
pub open spec fn count_indexed(es: Seq<LibraryEntry>) -> nat
    decreases es.len(),
{
    if es.len() == 0 {
        0
    } else {
        count_indexed(es.drop_last()) + if es.last().text_indexed {
            1nat
        } else {
            0nat
        }
    }
}

/// `e` once its text has been extracted.
pub open spec fn text_done(e: LibraryEntry) -> LibraryEntry {
    LibraryEntry {
        path: e.path,
        mtime_ms: e.mtime_ms,
        size: e.size,
        doi: e.doi,
        arxiv: e.arxiv,
        title: e.title,
        text_indexed: true,
    }
}

/// `e` carries the identifier `id`.
pub open spec fn cites(e: LibraryEntry, id: CitationIdDto) -> bool {
    match id {
        CitationIdDto::Doi(v) => opt_view(e.doi) == Some(v@),
        CitationIdDto::ArXiv(v) => opt_view(e.arxiv) == Some(v@),
    }
}

fn copy_strings(v: &Vec<String>) -> (r: Vec<String>)
    ensures
        r@ == v@,
{
    let mut r: Vec<String> = Vec::new();
    let mut i: usize = 0;
    while i < v.len()
        invariant
            i <= v@.len(),
            r@ == v@.take(i as int),
        decreases v@.len() - i,
    {
        r.push(v[i].clone());
        i += 1;
        proof {
            assert(r@ =~= v@.take(i as int));
        }
    }
    proof {
        assert(v@.take(i as int) =~= v@);
    }
    r
}

impl LibraryState {
    pub closed spec fn spec_dir(&self) -> Seq<char> {
        self.app_data_dir@
    }

    pub closed spec fn spec_roots(&self) -> Seq<String> {
        self.roots@
    }

    pub closed spec fn spec_entries(&self) -> Seq<LibraryEntry> {
        self.entries@
    }

    /// The files the current scan has still to look at, in order.
    pub closed spec fn spec_pending(&self) -> Seq<String> {
        self.pending@
    }

    pub closed spec fn spec_processed(&self) -> u32 {
        self.processed
    }

    pub closed spec fn spec_total(&self) -> u32 {
        self.total
    }

    pub closed spec fn spec_scanning(&self) -> bool {
        self.scanning
    }

    pub closed spec fn spec_epoch(&self) -> u64 {
        self.scan_epoch
    }

    pub closed spec fn wf(&self) -> bool {
        &&& entries_sorted(self.entries@)
        &&& paths_sorted(self.pending@)
    }

    /// Everything but the entries is as in `other`.
    pub open spec fn same_but_entries(&self, other: &Self) -> bool {
        &&& self.spec_dir() == other.spec_dir()
        &&& self.spec_roots() == other.spec_roots()
        &&& self.spec_pending() == other.spec_pending()
        &&& self.spec_processed() == other.spec_processed()
        &&& self.spec_total() == other.spec_total()
        &&& self.spec_scanning() == other.spec_scanning()
        &&& self.spec_epoch() == other.spec_epoch()
    }

    /// A library over `roots` that knows what `stored` records, the last
    /// record of a path winning, with no scan under way. The caller has
    /// already dropped what no longer matches the disk.
    pub fn new(app_data_dir: String, roots: Vec<String>, stored: Vec<LibraryEntry>) -> (s: Self)
        ensures
            s.wf(),
            s.spec_dir() == app_data_dir@,
            s.spec_roots() == roots@,
            keeps_latest(s.spec_entries(), stored@, stored@.len() as int),
            s.spec_pending().len() == 0,
            s.spec_processed() == 0,
            s.spec_total() == 0,
            !s.spec_scanning(),
            s.spec_epoch() == 0,
    {
        let mut entries: Vec<LibraryEntry> = Vec::new();
        let ghost all = stored@;
        let mut k: usize = 0;
        while k < stored.len()
            invariant
                k <= all.len(),
                stored@ == all,
                entries_sorted(entries@),
                keeps_latest(entries@, all, k as int),
            decreases all.len() - k,
        {
            let e = copy_entry(&stored[k]);
            let ghost before = entries@;
            proof {
                assert(e == all[k as int]);
            }
            put_entry(&mut entries, e);
            proof {
                let after = entries@;
                let n = k + 1;
                assert forall|i: int| 0 <= i < n && latest(all, n, i) implies after.contains(#[trigger] all[i]) by {
                    if i < k {
                        assert(latest(all, k as int, i));
                        assert(all[k as int].path@ != all[i].path@);
                        assert(before.contains(all[i]));
                    }
                }
                assert forall|x: LibraryEntry| #[trigger] after.contains(x) implies exists|i: int|
                    0 <= i < n && latest(all, n, i) && all[i] == x by {
                    if x == e {
                        assert(latest(all, n, k as int));
                    } else {
                        assert(before.contains(x));
                        let i = choose|i: int| 0 <= i < k && latest(all, k as int, i) && all[i] == x;
                        assert(latest(all, n, i));
                    }
                }
            }
            k += 1;
        }
        let s = LibraryState {
            app_data_dir,
            roots,
            entries,
            pending: VecDeque::new(),
            processed: 0,
            total: 0,
            scanning: false,
            scan_epoch: 0,
        };
        proof {
            assert(s.pending@.skip(0) =~= Seq::<String>::empty());
        }
        s
    }

    pub fn app_data_dir(&self) -> (r: String)
        ensures
            r@ == self.spec_dir(),
    {
        self.app_data_dir.clone()
    }

    pub fn roots(&self) -> (r: Vec<String>)
        ensures
            r@ == self.spec_roots(),
    {
        copy_strings(&self.roots)
    }

    pub fn scanning(&self) -> (r: bool)
        ensures
            r == self.spec_scanning(),
    {
        self.scanning
    }

    /// What the library reports of itself: its folders; while scanning, how
    /// many files the scan has dealt with, otherwise how many documents it
    /// knows; and how many of those have had their text extracted.
    pub fn status(&self) -> (r: LibraryStatusDto)
        requires
            self.wf(),
        ensures
            r.roots@ == self.spec_roots(),
            r.indexed == if self.spec_scanning() {
                self.spec_processed()
            } else {
                cap(self.spec_entries().len())
            },
            r.total == self.spec_total(),
            r.scanning == self.spec_scanning(),
            r.text_indexed == cap(count_indexed(self.spec_entries())),
            r.text_total == cap(self.spec_entries().len()),
    {
        let mut done: usize = 0;
        let mut k: usize = 0;
        while k < self.entries.len()
            invariant
                k <= self.entries@.len(),
                done == count_indexed(self.entries@.take(k as int)),
                done <= k,
            decreases self.entries@.len() - k,
        {
            proof {
                assert(self.entries@.take(k + 1).drop_last() =~= self.entries@.take(k as int));
            }
            if self.entries[k].text_indexed {
                done += 1;
            }
            k += 1;
        }
        proof {
            assert(self.entries@.take(k as int) =~= self.entries@);
        }
        let n = self.entries.len();
        let all: u32 = if n > 0xffff_ffff {
            0xffff_ffff
        } else {
            n as u32
        };
        let indexed_text: u32 = if done > 0xffff_ffff {
            0xffff_ffff
        } else {
            done as u32
        };
        LibraryStatusDto {
            roots: copy_strings(&self.roots),
            indexed: if self.scanning {
                self.processed
            } else {
                all
            },
            total: self.total,
            scanning: self.scanning,
            text_indexed: indexed_text,
            text_total: all,
        }
    }

    /// Adds a folder, unless the library has it already. Says whether it was
    /// added, which is when the list of folders must be saved again.
    pub fn add_root(&mut self, root: String) -> (added: bool)
        requires
            old(self).wf(),
        ensures
            final(self).wf(),
            added == !string_views(old(self).spec_roots()).contains(root@),
            final(self).spec_roots() == if added {
                old(self).spec_roots().push(root)
            } else {
                old(self).spec_roots()
            },
            final(self).spec_entries() == old(self).spec_entries(),
            final(self).spec_dir() == old(self).spec_dir(),
            final(self).spec_pending() == old(self).spec_pending(),
            final(self).spec_processed() == old(self).spec_processed(),
            final(self).spec_total() == old(self).spec_total(),
            final(self).spec_scanning() == old(self).spec_scanning(),
            final(self).spec_epoch() == old(self).spec_epoch(),
    {
        let mut k: usize = 0;
        while k < self.roots.len()
            invariant
                self.wf(),
                k <= self.roots@.len(),
                forall|i: int| 0 <= i < k ==> (#[trigger] self.roots@[i])@ != root@,
            decreases self.roots@.len() - k,
        {
            let (_, same) = order_paths(self.roots[k].as_str(), root.as_str());
            if same {
                proof {
                    assert(string_views(self.roots@)[k as int] == root@);
                }
                return false;
            }
            k += 1;
        }
        proof {
            assert forall|i: int| 0 <= i < string_views(self.roots@).len() implies string_views(self.roots@)[i]
                != root@ by {
                assert(self.roots@[i]@ != root@);
            }
        }
        self.roots.push(root);
        true
    }

    /// Removes every folder equal to `target`, and with it every document
    /// that no folder left holds: only the removed folder's own documents go.
    /// `forms` gives each folder's canonical form now, in the order of
    /// `roots()`, none where it can no longer be reached; `canonical` gives
    /// each entry's file's canonical form, in path order, none where it is no
    /// longer a file. Returns the paths of the documents dropped, in path
    /// order, so that their stored text can go too.
    pub fn remove_root(
        &mut self,
        target: &str,
        forms: &Vec<Option<String>>,
        canonical: &Vec<Option<String>>,
    ) -> (dropped: Vec<String>)
        requires
            old(self).wf(),
            forms@.len() == old(self).spec_roots().len(),
            canonical@.len() == old(self).spec_entries().len(),
        ensures
            final(self).wf(),
            final(self).spec_roots() == without(old(self).spec_roots(), target@),
            final(self).spec_entries() == entries_kept(
                old(self).spec_entries(),
                opt_views(canonical@),
                old(self).spec_roots(),
                opt_views(forms@),
                target@,
            ),
            string_views(dropped@) == entries_dropped(
                old(self).spec_entries(),
                opt_views(canonical@),
                old(self).spec_roots(),
                opt_views(forms@),
                target@,
            ),
            final(self).spec_dir() == old(self).spec_dir(),
            final(self).spec_pending() == old(self).spec_pending(),
            final(self).spec_processed() == old(self).spec_processed(),
            final(self).spec_total() == old(self).spec_total(),
            final(self).spec_scanning() == old(self).spec_scanning(),
            final(self).spec_epoch() == old(self).spec_epoch(),
    {
        let ghost es = self.entries@;
        let ghost cs = opt_views(canonical@);
        let ghost rs = self.roots@;
        let ghost fv = opt_views(forms@);
        let mut kept: Vec<LibraryEntry> = Vec::new();
        let mut dropped: Vec<String> = Vec::new();
        let ghost mut idx: Seq<int> = Seq::empty();
        let mut k: usize = 0;
        proof {
            assert(es.take(0) =~= Seq::<LibraryEntry>::empty());
            assert(cs.take(0) =~= Seq::<Option<Seq<char>>>::empty());
            assert(string_views(dropped@) =~= Seq::<Seq<char>>::empty());
        }
        while k < self.entries.len()
            invariant
                k <= es.len(),
                es == self.entries@,
                rs == self.roots@,
                self.wf(),
                cs == opt_views(canonical@),
                fv == opt_views(forms@),
                forms@.len() == rs.len(),
                canonical@.len() == es.len(),
                kept@ == entries_kept(es.take(k as int), cs.take(k as int), rs, fv, target@),
                string_views(dropped@) == entries_dropped(es.take(k as int), cs.take(k as int), rs, fv, target@),
                idx.len() == kept@.len(),
                forall|i: int| 0 <= i < idx.len() ==> 0 <= #[trigger] idx[i] < k && kept@[i] == es[idx[i]],
                forall|i: int, j: int| 0 <= i < j < idx.len() ==> #[trigger] idx[i] < #[trigger] idx[j],
            decreases es.len() - k,
        {
            proof {
                assert(es.take(k + 1).drop_last() =~= es.take(k as int));
                assert(cs.take(k + 1).drop_last() =~= cs.take(k as int));
                assert(es.take(k + 1).last() == es[k as int]);
                assert(cs.take(k + 1)[k as int] == opt_view(canonical@[k as int]));
            }
            let stay = match &canonical[k] {
                Some(c) => held_after_removal(&self.roots, forms, target, c.as_str()),
                None => false,
            };
            if stay {
                let ghost before = kept@;
                kept.push(copy_entry(&self.entries[k]));
                proof {
                    assert(kept@ =~= before.push(es[k as int]));
                    idx = idx.push(k as int);
                }
            } else {
                let ghost before = dropped@;
                dropped.push(self.entries[k].path.clone());
                proof {
                    assert(string_views(dropped@) =~= string_views(before).push(es[k as int].path@));
                }
            }
            k += 1;
        }
        proof {
            assert(es.take(k as int) =~= es);
            assert(cs.take(k as int) =~= cs);
            assert forall|i: int, j: int| 0 <= i < j < kept@.len() implies path_less(
                #[trigger] kept@[i].path@,
                #[trigger] kept@[j].path@,
            ) by {
                assert(idx[i] < idx[j]);
                assert(kept@[i] == es[idx[i]]);
                assert(kept@[j] == es[idx[j]]);
            }
        }
        self.entries = kept;
        let mut remaining: Vec<String> = Vec::new();
        let mut r: usize = 0;
        proof {
            assert(self.roots@.take(0) =~= Seq::<String>::empty());
        }
        while r < self.roots.len()
            invariant
                r <= self.roots@.len(),
                remaining@ == without(self.roots@.take(r as int), target@),
            decreases self.roots@.len() - r,
        {
            proof {
                assert(self.roots@.take(r + 1).drop_last() =~= self.roots@.take(r as int));
            }
            let (_, same) = order_paths(self.roots[r].as_str(), target);
            if !same {
                remaining.push(self.roots[r].clone());
            }
            r += 1;
        }
        proof {
            assert(self.roots@.take(r as int) =~= self.roots@);
        }
        self.roots = remaining;
        dropped
    }

    /// Forgets the document at `path`.
    pub fn remove_entry(&mut self, path: &str)
        requires
            old(self).wf(),
        ensures
            final(self).wf(),
            forall|x: LibraryEntry| #[trigger] final(self).spec_entries().contains(x) <==> (old(
                self,
            ).spec_entries().contains(x) && x.path@ != path@),
            final(self).same_but_entries(&*old(self)),
    {
        let ghost before = self.entries@;
        let (p, same) = entry_position(&self.entries, path);
        if !same {
            proof {
                assert forall|x: LibraryEntry| #[trigger] before.contains(x) implies x.path@ != path@ by {
                    let k = choose|k: int| 0 <= k < before.len() && before[k] == x;
                    if k < p {
                        assert(path_less(x.path@, path@));
                        lemma_path_less_irreflexive(path@);
                    } else if k > p {
                        assert(path_less(before[p as int].path@, x.path@));
                        lemma_order_facts(before[p as int].path@, path@, x.path@);
                    }
                }
            }
            return;
        }
        self.entries.remove(p);
        proof {
            let after = self.entries@;
            assert(after =~= before.remove(p as int));
            assert forall|i: int, j: int| 0 <= i < j < after.len() implies path_less(
                #[trigger] after[i].path@,
                #[trigger] after[j].path@,
            ) by {
                let bi = if i < p { i } else { i + 1 };
                let bj = if j < p { j } else { j + 1 };
                assert(after[i] == before[bi]);
                assert(after[j] == before[bj]);
                assert(path_less(before[bi].path@, before[bj].path@));
            }
            assert forall|x: LibraryEntry| #[trigger] after.contains(x) <==> (before.contains(x) && x.path@
                != path@) by {
                if after.contains(x) {
                    let k = choose|k: int| 0 <= k < after.len() && after[k] == x;
                    let bk = if k < p { k } else { k + 1 };
                    assert(before[bk] == x);
                    if bk < p {
                        assert(path_less(before[bk].path@, before[p as int].path@));
                    } else {
                        assert(path_less(before[p as int].path@, before[bk].path@));
                    }
                    lemma_path_less_irreflexive(path@);
                }
                if before.contains(x) && x.path@ != path@ {
                    let k = choose|k: int| 0 <= k < before.len() && before[k] == x;
                    assert(k != p);
                    if k < p {
                        assert(after[k] == x);
                    } else {
                        assert(after[k - 1] == x);
                    }
                }
            }
        }
    }

    /// Starts a new scan over `files`, the PDF files found under the
    /// library's folders: in path order, each once, so that nested folders do
    /// not queue a file twice. Work handed out by an earlier scan goes stale.
    /// Says whether there is nothing to scan, which is when the index is
    /// saved at once.
    pub fn schedule_scan(&mut self, files: Vec<String>) -> (persist: bool)
        requires
            old(self).wf(),
        ensures
            final(self).wf(),
            final(self).spec_epoch() == if old(self).spec_epoch() == u64::MAX {
                0
            } else {
                (old(self).spec_epoch() + 1) as u64
            },
            paths_sorted(final(self).spec_pending()),
            forall|x: Seq<char>| #[trigger] string_views(final(self).spec_pending()).contains(x)
                <==> string_views(files@).contains(x),
            final(self).spec_processed() == 0,
            final(self).spec_total() == cap(final(self).spec_pending().len()),
            final(self).spec_scanning() == (final(self).spec_pending().len() > 0),
            persist == !final(self).spec_scanning(),
            final(self).spec_entries() == old(self).spec_entries(),
            final(self).spec_roots() == old(self).spec_roots(),
            final(self).spec_dir() == old(self).spec_dir(),
    {
        self.scan_epoch = self.scan_epoch.wrapping_add(1);
        let mut queue: Vec<String> = Vec::new();
        let mut files = files;
        let ghost all = files@;
        let mut k: usize = 0;
        while k < files.len()
            invariant
                k <= all.len(),
                files@.len() == all.len(),
                forall|i: int| k <= i < all.len() ==> files@[i] == all[i],
                paths_sorted(queue@),
                forall|x: Seq<char>| #[trigger] string_views(queue@).contains(x) <==> string_views(
                    all.take(k as int),
                ).contains(x),
            decreases all.len() - k,
        {
            let f = files[k].clone();
            let ghost before = queue@;
            put_path(&mut queue, f);
            proof {
                assert(string_views(all.take(k + 1)) =~= string_views(all.take(k as int)).push(all[k as int]@));
                assert(f@ == all[k as int]@);
                let old_views = string_views(all.take(k as int));
                let new_views = string_views(all.take(k + 1));
                assert(new_views[k as int] == f@);
                assert forall|x: Seq<char>| #[trigger] string_views(queue@).contains(x) implies new_views.contains(
                    x,
                ) by {
                    if x != f@ {
                        assert(string_views(before).contains(x));
                        assert(old_views.contains(x));
                        let i = choose|i: int| 0 <= i < old_views.len() && old_views[i] == x;
                        assert(new_views[i] == x);
                    }
                }
                assert forall|x: Seq<char>| #[trigger] new_views.contains(x) implies string_views(queue@).contains(
                    x,
                ) by {
                    let i = choose|i: int| 0 <= i < new_views.len() && new_views[i] == x;
                    if i < k {
                        assert(old_views[i] == x);
                        assert(string_views(before).contains(x));
                    }
                }
            }
            k += 1;
        }
        proof {
            assert(all.take(k as int) =~= all);
        }
        let n = queue.len();
        self.total = if n > 0xffff_ffff {
            0xffff_ffff
        } else {
            n as u32
        };
        let mut pending: VecDeque<String> = VecDeque::new();
        let mut m: usize = 0;
        while m < queue.len()
            invariant
                m <= queue@.len(),
                pending@ == queue@.take(m as int),
            decreases queue@.len() - m,
        {
            pending.push_back(queue[m].clone());
            m += 1;
            proof {
                assert(pending@ =~= queue@.take(m as int));
            }
        }
        proof {
            assert(queue@.take(m as int) =~= queue@);
        }
        self.pending = pending;
        self.processed = 0;
        self.scanning = n > 0;
        !self.scanning
    }

    /// The next file of the scan, taken off the queue; once the queue is
    /// empty, none, and the scan is over.
    pub fn next_pending(&mut self) -> (r: Option<String>)
        requires
            old(self).wf(),
        ensures
            final(self).wf(),
            match r {
                Some(p) => {
                    &&& old(self).spec_pending().len() > 0
                    &&& p == old(self).spec_pending()[0]
                    &&& final(self).spec_pending() == old(self).spec_pending().drop_first()
                    &&& final(self).spec_scanning() == old(self).spec_scanning()
                },
                None => {
                    &&& old(self).spec_pending().len() == 0
                    &&& final(self).spec_pending() == old(self).spec_pending()
                    &&& !final(self).spec_scanning()
                },
            },
            final(self).spec_entries() == old(self).spec_entries(),
            final(self).spec_roots() == old(self).spec_roots(),
            final(self).spec_dir() == old(self).spec_dir(),
            final(self).spec_processed() == old(self).spec_processed(),
            final(self).spec_total() == old(self).spec_total(),
            final(self).spec_epoch() == old(self).spec_epoch(),
    {
        match self.pending.pop_front() {
            Some(p) => {
                proof {
                    assert(self.pending@ =~= old(self).pending@.drop_first());
                    assert forall|i: int, j: int| 0 <= i < j < self.pending@.len() implies path_less(
                        #[trigger] self.pending@[i]@,
                        #[trigger] self.pending@[j]@,
                    ) by {
                        assert(self.pending@[i] == old(self).pending@[i + 1]);
                        assert(self.pending@[j] == old(self).pending@[j + 1]);
                    }
                }
                Some(p)
            },
            None => {
                self.scanning = false;
                None
            },
        }
    }

    /// Counts a queued file that could not be looked at as dealt with.
    pub fn skip_pending(&mut self)
        requires
            old(self).wf(),
        ensures
            final(self).wf(),
            final(self).spec_processed() == if old(self).spec_processed() == u32::MAX {
                u32::MAX
            } else {
                (old(self).spec_processed() + 1) as u32
            },
            final(self).spec_entries() == old(self).spec_entries(),
            final(self).spec_roots() == old(self).spec_roots(),
            final(self).spec_dir() == old(self).spec_dir(),
            final(self).spec_pending() == old(self).spec_pending(),
            final(self).spec_total() == old(self).spec_total(),
            final(self).spec_scanning() == old(self).spec_scanning(),
            final(self).spec_epoch() == old(self).spec_epoch(),
    {
        self.processed = self.processed.saturating_add(1);
    }

    /// The scan's view of a file it found at `path` in the given state:
    /// unchanged when the library already knows it in exactly that state.
    pub fn candidate(&self, path: String, mtime_ms: u64, size: u64) -> (r: ScanCandidate)
        requires
            self.wf(),
        ensures
            r.path == path,
            r.mtime_ms == mtime_ms,
            r.size == size,
            r.epoch == self.spec_epoch(),
            r.unchanged == exists|k: int|
                0 <= k < self.spec_entries().len() && (#[trigger] self.spec_entries()[k]).path@ == path@
                    && self.spec_entries()[k].mtime_ms == mtime_ms && self.spec_entries()[k].size == size,
    {
        let (p, same) = entry_position(&self.entries, path.as_str());
        let unchanged = same && self.entries[p].mtime_ms == mtime_ms && self.entries[p].size == size;
        proof {
            if !unchanged {
                assert forall|k: int| 0 <= k < self.entries@.len() && (#[trigger] self.entries@[k]).path@
                    == path@ implies !(self.entries@[k].mtime_ms == mtime_ms && self.entries@[k].size
                    == size) by {
                    if k < p {
                        assert(path_less(self.entries@[k].path@, path@));
                        lemma_path_less_irreflexive(path@);
                    } else if k > p {
                        assert(path_less(self.entries@[p as int].path@, self.entries@[k].path@));
                        lemma_order_facts(self.entries@[p as int].path@, path@, path@);
                    }
                }
            }
        }
        ScanCandidate { path, mtime_ms, size, epoch: self.scan_epoch, unchanged }
    }

    /// What the scan makes of a file it took off the queue, given the file's
    /// modification time and size when it could be read: a candidate to look
    /// at, or, for a file that could not be read, none, with the file counted
    /// as dealt with.
    pub fn consider(&mut self, path: String, fingerprint: Option<(u64, u64)>) -> (r: Option<ScanCandidate>)
        requires
            old(self).wf(),
        ensures
            final(self).wf(),
            final(self).spec_entries() == old(self).spec_entries(),
            final(self).spec_roots() == old(self).spec_roots(),
            final(self).spec_dir() == old(self).spec_dir(),
            final(self).spec_pending() == old(self).spec_pending(),
            final(self).spec_total() == old(self).spec_total(),
            final(self).spec_scanning() == old(self).spec_scanning(),
            final(self).spec_epoch() == old(self).spec_epoch(),
            match fingerprint {
                None => r is None && final(self).spec_processed() == if old(self).spec_processed() == u32::MAX {
                    u32::MAX
                } else {
                    (old(self).spec_processed() + 1) as u32
                },
                Some((mtime_ms, size)) => final(self).spec_processed() == old(self).spec_processed() && (
                r matches Some(c) && c.path == path && c.mtime_ms == mtime_ms && c.size == size && c.epoch
                    == old(self).spec_epoch() && c.unchanged == exists|k: int|
                    0 <= k < old(self).spec_entries().len() && (#[trigger] old(
                        self,
                    ).spec_entries()[k]).path@ == path@ && old(self).spec_entries()[k].mtime_ms == mtime_ms
                        && old(self).spec_entries()[k].size == size),
            },
    {
        match fingerprint {
            None => {
                self.skip_pending();
                None
            },
            Some((mtime_ms, size)) => Some(self.candidate(path, mtime_ms, size)),
        }
    }

    /// Records what the scan made of `candidate`: an entry to put in, or
    /// nothing to change. Work from an earlier scan is ignored (none).
    /// Otherwise says whether the index should be saved now: every 25 files,
    /// and when the queue has run dry, which ends the scan.
    pub fn finish_candidate(&mut self, candidate: &ScanCandidate, entry: Option<LibraryEntry>) -> (r: Option<bool>)
        requires
            old(self).wf(),
        ensures
            final(self).wf(),
            candidate.epoch != old(self).spec_epoch() ==> r is None && *final(self) == *old(self),
            candidate.epoch == old(self).spec_epoch() ==> {
                &&& match entry {
                    Some(e) => put_in(old(self).spec_entries(), final(self).spec_entries(), e),
                    None => final(self).spec_entries() == old(self).spec_entries(),
                }
                &&& final(self).spec_processed() == if old(self).spec_processed() as int + 1 > old(
                    self,
                ).spec_total() {
                    old(self).spec_total()
                } else {
                    (old(self).spec_processed() + 1) as u32
                }
                &&& final(self).spec_scanning() == (old(self).spec_scanning() && old(self).spec_pending().len()
                    > 0)
                &&& r == Some(
                    final(self).spec_processed() % 25 == 0 || old(self).spec_pending().len() == 0,
                )
                &&& final(self).spec_roots() == old(self).spec_roots()
                &&& final(self).spec_dir() == old(self).spec_dir()
                &&& final(self).spec_pending() == old(self).spec_pending()
                &&& final(self).spec_total() == old(self).spec_total()
                &&& final(self).spec_epoch() == old(self).spec_epoch()
            },
    {
        if candidate.epoch != self.scan_epoch {
            return None;
        }
        match entry {
            Some(e) => {
                put_entry(&mut self.entries, e);
            },
            None => {},
        }
        let bumped = self.processed.saturating_add(1);
        self.processed = if bumped > self.total {
            self.total
        } else {
            bumped
        };
        let empty = self.pending.len() == 0;
        if empty {
            self.scanning = false;
        }
        Some(self.processed % 25 == 0 || empty)
    }

    /// Whether a scan is under way with files still to look at.
    pub fn has_scan_work(&self) -> (r: bool)
        requires
            self.wf(),
        ensures
            r == (self.spec_scanning() && self.spec_pending().len() > 0),
    {
        self.scanning && self.pending.len() > 0
    }

    /// What the library knows of the document at `path`.
    pub fn entry_for_path(&self, path: &str) -> (r: Option<LibraryEntry>)
        requires
            self.wf(),
        ensures
            match r {
                Some(e) => self.spec_entries().contains(e) && e.path@ == path@,
                None => !has_path(self.spec_entries(), path@),
            },
    {
        let (p, same) = entry_position(&self.entries, path);
        if same {
            Some(copy_entry(&self.entries[p]))
        } else {
            proof {
                assert forall|k: int| 0 <= k < self.entries@.len() implies (#[trigger] self.entries@[k]).path@
                    != path@ by {
                    if k < p {
                        assert(path_less(self.entries@[k].path@, path@));
                        lemma_path_less_irreflexive(path@);
                    } else if k > p {
                        assert(path_less(self.entries@[p as int].path@, self.entries@[k].path@));
                        lemma_order_facts(self.entries@[p as int].path@, path@, path@);
                    }
                }
            }
            None
        }
    }

    /// Every document in the library, in path order, so that results do not
    /// reshuffle between identical queries.
    pub fn all_entries(&self) -> (r: Vec<LibraryEntry>)
        requires
            self.wf(),
        ensures
            r@ == self.spec_entries(),
            entries_sorted(r@),
    {
        let mut r: Vec<LibraryEntry> = Vec::new();
        let mut k: usize = 0;
        while k < self.entries.len()
            invariant
                k <= self.entries@.len(),
                r@ == self.entries@.take(k as int),
            decreases self.entries@.len() - k,
        {
            r.push(copy_entry(&self.entries[k]));
            k += 1;
            proof {
                assert(r@ =~= self.entries@.take(k as int));
            }
        }
        proof {
            assert(self.entries@.take(k as int) =~= self.entries@);
        }
        r
    }

    /// The first document, in path order, whose text has not been extracted.
    pub fn next_text_candidate(&self) -> (r: Option<LibraryEntry>)
        requires
            self.wf(),
        ensures
            match r {
                Some(e) => exists|k: int|
                    0 <= k < self.spec_entries().len() && self.spec_entries()[k] == e && !e.text_indexed
                        && forall|j: int| 0 <= j < k ==> (#[trigger] self.spec_entries()[j]).text_indexed,
                None => forall|k: int| 0 <= k < self.spec_entries().len() ==> (#[trigger] self.spec_entries()[k]).text_indexed,
            },
    {
        let mut k: usize = 0;
        while k < self.entries.len()
            invariant
                k <= self.entries@.len(),
                forall|j: int| 0 <= j < k ==> (#[trigger] self.entries@[j]).text_indexed,
            decreases self.entries@.len() - k,
        {
            if !self.entries[k].text_indexed {
                let e = copy_entry(&self.entries[k]);
                proof {
                    assert(self.entries@[k as int] == e);
                }
                return Some(e);
            }
            k += 1;
        }
        None
    }

    /// Records that the text of the document at `path` has been extracted,
    /// or that extracting it failed, which is as final.
    pub fn finish_text(&mut self, path: &str)
        requires
            old(self).wf(),
        ensures
            final(self).wf(),
            final(self).spec_entries().len() == old(self).spec_entries().len(),
            forall|k: int| 0 <= k < old(self).spec_entries().len() ==> #[trigger] final(self).spec_entries()[k]
                == if old(self).spec_entries()[k].path@ == path@ {
                    text_done(old(self).spec_entries()[k])
                } else {
                    old(self).spec_entries()[k]
                },
            final(self).same_but_entries(&*old(self)),
    {
        let ghost before = self.entries@;
        let (p, same) = entry_position(&self.entries, path);
        if !same {
            proof {
                assert forall|k: int| 0 <= k < before.len() implies before[k].path@ != path@ by {
                    if k < p {
                        assert(path_less(before[k].path@, path@));
                        lemma_path_less_irreflexive(path@);
                    } else if k > p {
                        assert(path_less(before[p as int].path@, before[k].path@));
                        lemma_order_facts(before[p as int].path@, path@, path@);
                    }
                }
            }
            return;
        }
        let mut e = copy_entry(&self.entries[p]);
        e.text_indexed = true;
        self.entries.set(p, e);
        proof {
            assert forall|k: int| 0 <= k < before.len() && k != p implies before[k].path@ != path@ by {
                if k < p {
                    assert(path_less(before[k].path@, before[p as int].path@));
                } else {
                    assert(path_less(before[p as int].path@, before[k].path@));
                }
                lemma_path_less_irreflexive(path@);
            }
            assert forall|i: int, j: int| 0 <= i < j < self.entries@.len() implies path_less(
                #[trigger] self.entries@[i].path@,
                #[trigger] self.entries@[j].path@,
            ) by {
                assert(path_less(before[i].path@, before[j].path@));
            }
        }
    }

    /// Whether some document's text has yet to be extracted.
    pub fn has_text_work(&self) -> (r: bool)
        requires
            self.wf(),
        ensures
            r == exists|k: int| 0 <= k < self.spec_entries().len() && !(#[trigger] self.spec_entries()[k]).text_indexed,
    {
        let mut k: usize = 0;
        while k < self.entries.len()
            invariant
                k <= self.entries@.len(),
                forall|j: int| 0 <= j < k ==> (#[trigger] self.entries@[j]).text_indexed,
            decreases self.entries@.len() - k,
        {
            if !self.entries[k].text_indexed {
                return true;
            }
            k += 1;
        }
        false
    }

    /// The path of the first document, in path order, that carries `id`.
    /// Whether that path still lies inside the library is for the caller to
    /// check against the disk.
    pub fn resolve_path(&self, id: &CitationIdDto) -> (r: Option<String>)
        requires
            self.wf(),
        ensures
            match r {
                Some(p) => exists|k: int|
                    0 <= k < self.spec_entries().len() && (#[trigger] self.spec_entries()[k]).path == p
                        && cites(self.spec_entries()[k], *id) && forall|j: int|
                        0 <= j < k ==> !cites(#[trigger] self.spec_entries()[j], *id),
                None => forall|k: int| 0 <= k < self.spec_entries().len() ==> !cites(#[trigger] self.spec_entries()[k], *id),
            },
    {
        let mut k: usize = 0;
        while k < self.entries.len()
            invariant
                k <= self.entries@.len(),
                forall|j: int| 0 <= j < k ==> !cites(#[trigger] self.entries@[j], *id),
            decreases self.entries@.len() - k,
        {
            let e = &self.entries[k];
            let hit = match id {
                CitationIdDto::Doi(v) => match &e.doi {
                    Some(d) => same_text(d.as_str(), v.as_str()),
                    None => false,
                },
                CitationIdDto::ArXiv(v) => match &e.arxiv {
                    Some(a) => same_text(a.as_str(), v.as_str()),
                    None => false,
                },
            };
            if hit {
                proof {
                    assert(cites(self.entries@[k as int], *id));
                }
                let p = e.path.clone();
                proof {
                    assert(self.spec_entries()[k as int].path == p);
                    assert(forall|j: int| 0 <= j < k ==> !cites(#[trigger] self.spec_entries()[j], *id));
                }
                return Some(p);
            }
            k += 1;
        }
        None
    }
}

/// The documents a library search reads, as (path, title, mtime, size): those
/// whose text has been extracted, in path order.
pub open spec fn searchable(es: Seq<LibraryEntry>) -> Seq<(Seq<char>, Option<Seq<char>>, u64, u64)>
    decreases es.len(),
{
    if es.len() == 0 {
        Seq::empty()
    } else {
        let rest = searchable(es.drop_last());
        let e = es.last();
        if e.text_indexed {
            rest.push((e.path@, opt_view(e.title), e.mtime_ms, e.size))
        } else {
            rest
        }
    }
}

pub open spec fn document_view(d: crate::librarytext::LibraryDocument) -> (Seq<char>, Option<Seq<char>>, u64, u64) {
    (d.path@, opt_view(d.title), d.mtime_ms, d.size)
}

impl LibraryState {
    /// The documents a library search reads: those whose text has been
    /// extracted, in path order.
    pub fn searchable_documents(&self) -> (r: Vec<crate::librarytext::LibraryDocument>)
        requires
            self.wf(),
        ensures
            r@.map_values(|d: crate::librarytext::LibraryDocument| document_view(d)) == searchable(self.spec_entries()),
    {
        let mut out: Vec<crate::librarytext::LibraryDocument> = Vec::new();
        let mut k: usize = 0;
        proof {
            assert(self.entries@.take(0) =~= Seq::<LibraryEntry>::empty());
            assert(out@.map_values(|d: crate::librarytext::LibraryDocument| document_view(d)) =~= Seq::<
                (Seq<char>, Option<Seq<char>>, u64, u64),
            >::empty());
        }
        while k < self.entries.len()
            invariant
                k <= self.entries@.len(),
                out@.map_values(|d: crate::librarytext::LibraryDocument| document_view(d)) == searchable(
                    self.entries@.take(k as int),
                ),
            decreases self.entries@.len() - k,
        {
            let e = &self.entries[k];
            proof {
                assert(self.entries@.take(k + 1).drop_last() =~= self.entries@.take(k as int));
                assert(self.entries@.take(k + 1).last() == *e);
            }
            if e.text_indexed {
                let ghost before = out@;
                let d = crate::librarytext::LibraryDocument {
                    path: e.path.clone(),
                    title: copy_opt(&e.title),
                    mtime_ms: e.mtime_ms,
                    size: e.size,
                };
                out.push(d);
                proof {
                    assert(out@.map_values(|d: crate::librarytext::LibraryDocument| document_view(d)) =~= before.map_values(
                        |d: crate::librarytext::LibraryDocument| document_view(d),
                    ).push(document_view(d)));
                }
            }
            k += 1;
        }
        proof {
            assert(self.entries@.take(k as int) =~= self.entries@);
        }
        out
    }

    /// Whether the library's document set has settled enough to be worth a
    /// gram index: no scan under way, and every document's text extracted.
    /// Each document the background pass finishes changes the set, so an
    /// index built before then would be stale before it was written.
    pub fn ready_for_gram_index(&self) -> (r: bool)
        requires
            self.wf(),
        ensures
            r == (!self.spec_scanning() && cap(count_indexed(self.spec_entries())) >= cap(
                self.spec_entries().len(),
            )),
    {
        let status = self.status();
        !status.scanning && status.text_indexed >= status.text_total
    }
}

pub(crate) fn same_text(a: &str, b: &str) -> (r: bool)
    ensures
        r == (a@ == b@),
{
    let (_, same) = order_paths(a, b);
    same
}

/// What the library records for a path is what it gives back for that path:
/// once an entry is put in, the only entry for its path is that entry.
pub proof fn lemma_put_then_found(before: Seq<LibraryEntry>, after: Seq<LibraryEntry>, e: LibraryEntry, x: LibraryEntry)
    requires
        put_in(before, after, e),
        after.contains(x),
        x.path@ == e.path@,
    ensures
        x == e,
{
    let i = choose|i: int| 0 <= i < after.len() && after[i] == x;
    let j = choose|j: int| 0 <= j < after.len() && after[j] == e;
    if i != j {
        if i < j {
            assert(path_less(after[i].path@, after[j].path@));
        } else {
            assert(path_less(after[j].path@, after[i].path@));
        }
        lemma_path_less_irreflexive(e.path@);
    }
}

/// Entries survive a put unless they are for the path put in.
pub proof fn lemma_put_keeps_others(before: Seq<LibraryEntry>, after: Seq<LibraryEntry>, e: LibraryEntry, x: LibraryEntry)
    requires
        put_in(before, after, e),
        before.contains(x),
        x.path@ != e.path@,
    ensures
        after.contains(x),
{
}

// ---------------------------------------------------------------------------
// What a citation's hover card shows of the document it resolved to.

/// Characters of preview text a hover card shows.
pub const PREVIEW_TEXT_CHARS: usize = 400;
/// Characters of a title read off the first page.
pub const PREVIEW_TITLE_CHARS: usize = 300;

/// The first `n` text runs of a page, each trimmed, the empty ones dropped,
/// joined by single spaces.
pub open spec fn joined_runs(runs: Seq<String>, n: int) -> Seq<char>
    decreases n,
{
    if n <= 0 {
        Seq::empty()
    } else {
        let prev = joined_runs(runs, n - 1);
        let t = trim_by(runs[n - 1]@, spaces());
        if t.len() == 0 {
            prev
        } else if prev.len() == 0 {
            t
        } else {
            prev + seq![' '] + t
        }
    }
}

/// The first run from `i` on whose trimmed text runs to more than twelve
/// characters: on a first page, that is nearly always the title.
pub open spec fn title_run(runs: Seq<String>, i: int) -> Option<Seq<char>>
    decreases runs.len() - i,
{
    if i < 0 || i >= runs.len() {
        None
    } else if trim_by(runs[i]@, spaces()).len() > 12 {
        Some(trim_by(runs[i]@, spaces()))
    } else {
        title_run(runs, i + 1)
    }
}

pub open spec fn prefix(s: Seq<char>, n: int) -> Seq<char> {
    if s.len() <= n {
        s
    } else {
        s.take(n)
    }
}

/// The text a hover card previews of a document's first page, read from its
/// text runs, and a title found there: the joined runs cut to
/// `PREVIEW_TEXT_CHARS` characters, and the first run long enough to be a
/// title, cut to `PREVIEW_TITLE_CHARS`.
pub fn preview_text(runs: &Vec<String>) -> (r: (String, Option<String>))
    ensures
        r.0@ == prefix(joined_runs(runs@, runs@.len() as int), PREVIEW_TEXT_CHARS as int),
        match title_run(runs@, 0) {
            Some(t) => r.1 matches Some(x) && x@ == prefix(t, PREVIEW_TITLE_CHARS as int),
            None => r.1 is None,
        },
{
    let mut joined: Vec<char> = Vec::new();
    let mut title: Option<String> = None;
    let mut i: usize = 0;
    while i < runs.len()
        invariant
            i <= runs@.len(),
            joined@ == joined_runs(runs@, i as int),
            title_run(runs@, 0) == (match title {
                Some(_) => title_run(runs@, 0),
                None => title_run(runs@, i as int),
            }),
            title matches Some(x) ==> title_run(runs@, 0) matches Some(t) && x@ == prefix(
                t,
                PREVIEW_TITLE_CHARS as int,
            ),
        decreases runs@.len() - i,
    {
        let v = char_vec(runs[i].as_str());
        let t = trim_chars(v.as_slice(), space, Ghost(spaces()));
        let ghost before = joined@;
        if t.len() > 0 {
            if joined.len() > 0 {
                joined.push(' ');
            }
            let mut k: usize = 0;
            let ghost head = joined@;
            while k < t.len()
                invariant
                    k <= t@.len(),
                    joined@ == head + t@.take(k as int),
                decreases t@.len() - k,
            {
                joined.push(t[k]);
                k = k + 1;
                proof {
                    assert(joined@ =~= head + t@.take(k as int));
                }
            }
            proof {
                assert(t@.take(k as int) =~= t@);
                if before.len() == 0 {
                    assert(joined@ =~= t@);
                } else {
                    assert(joined@ =~= before + seq![' '] + t@);
                }
            }
        }
        if title.is_none() && t.len() > 12 {
            let end = if t.len() <= PREVIEW_TITLE_CHARS {
                t.len()
            } else {
                PREVIEW_TITLE_CHARS
            };
            let cut = slice_chars(t.as_slice(), 0, end);
            proof {
                assert(cut@ =~= prefix(t@, PREVIEW_TITLE_CHARS as int));
            }
            title = Some(string_of(cut.as_slice()));
        }
        i = i + 1;
    }
    let end = if joined.len() <= PREVIEW_TEXT_CHARS {
        joined.len()
    } else {
        PREVIEW_TEXT_CHARS
    };
    let text = slice_chars(joined.as_slice(), 0, end);
    proof {
        assert(text@ =~= prefix(joined@, PREVIEW_TEXT_CHARS as int));
    }
    (string_of(text.as_slice()), title)
}

} // verus!
