//! A search across the whole citation library, one document at a time.
//!
//! Reading a document's stored text is the caller's part; every decision is
//! made here. For each document in turn the search asks for the cheapest
//! evidence first, and only a document that survives all of it has its
//! sidecar parsed and searched:
//!
//! 1. the gram index, when one was built, rules documents in or out before
//!    anything is read;
//! 2. the document's trigram filter;
//! 3. its scan copy, the folded text alone;
//! 4. its sidecar's bytes, which must hold the query unless JSON would
//!    escape it;
//! 5. the parsed sidecar, which is searched.
//!
//! A document with nothing stored is skipped: "not indexed yet" is the normal
//! state during the background pass. Once `document_limit` documents have
//! hits, the search stops and says the answer was cut short.

use crate::gramindex::{candidates_ok, indexes, lemma_never_loses_a_document, Candidates, GramIndex};
use crate::librarytext::{
    contains_text, document_matches, hits_ranked, indexed_view, library_hit, match_total,
    rank_hits, search_document, str_contains, ties_of, worth, worth_parsing, IndexedDocument,
    LibraryDocument,
};
use crate::library::{opt_view, path_file_name};
use crate::search::{
    fold_seq, match_starts, normalized, occurs_at, page_matches, page_matches_view, prepare_query,
    prepared, search_target, PageEntry,
};
use crate::trigram::{admits, grams_of, lemma_no_false_negative, Filter};
use crate::types::{LibraryHitDto, PageMatchesDto};
use vstd::prelude::*;

verus! {

/// What the search needs next.
#[derive(Clone, Copy, PartialEq, Eq, Structural, Debug)]
pub enum LibraryStep {
    /// Read document `i`'s trigram filter and hand it to `filter_read`.
    Filter(usize),
    /// Read its scan copy and hand it to `scan_read`.
    Scan(usize),
    /// Read its sidecar's bytes and hand them to `sidecar_read`.
    Sidecar(usize),
    /// Parse the bytes just read and hand the document to `parsed`.
    Parse(usize),
    /// The search is over; `finish` gives its answer.
    Done,
}

pub struct LibrarySearch {
    prepared: String,
    folded: String,
    case_sensitive: bool,
    per_document_limit: usize,
    document_limit: usize,
    allowed: Option<Vec<String>>,
    hits: Vec<LibraryHitDto>,
    truncated: bool,
    step: LibraryStep,
}

/// Whether the gram index leaves `path` in: always, when it could not
/// narrow the query.
pub open spec fn ruled_in(allowed: Option<Seq<String>>, path: Seq<char>) -> bool {
    match allowed {
        None => true,
        Some(a) => exists|k: int| 0 <= k < a.len() && (#[trigger] a[k])@ == path,
    }
}

/// The first document from `from` on that the gram index leaves in, or the
/// number of documents when there is none.
pub open spec fn first_ruled_in(
    docs: Seq<LibraryDocument>,
    allowed: Option<Seq<String>>,
    from: int,
) -> int
    decreases docs.len() - from,
{
    if from >= docs.len() || from < 0 {
        docs.len() as int
    } else if ruled_in(allowed, docs[from].path@) {
        from
    } else {
        first_ruled_in(docs, allowed, from + 1)
    }
}

/// Where the search goes on from document `from` with `found` documents
/// hit: done when the documents run out; done and cut short when the limit
/// is reached with documents left; else the filter of the next document the
/// gram index leaves in.
pub open spec fn moving_on(
    docs: Seq<LibraryDocument>,
    allowed: Option<Seq<String>>,
    found: int,
    limit: int,
    from: int,
) -> (LibraryStep, bool) {
    if from >= docs.len() {
        (LibraryStep::Done, false)
    } else if found >= limit {
        (LibraryStep::Done, true)
    } else {
        let j = first_ruled_in(docs, allowed, from);
        if j >= docs.len() {
            (LibraryStep::Done, false)
        } else {
            (LibraryStep::Filter(j as usize), false)
        }
    }
}

pub open spec fn allowed_view(a: Option<Vec<String>>) -> Option<Seq<String>> {
    match a {
        Some(v) => Some(v@),
        None => None,
    }
}

/// The sum of the matches a document's pages hold, as its view counts them.
pub open spec fn found_total(d: Seq<(u32, Seq<(u32, u32, Seq<char>)>)>) -> int
    decreases d.len(),
{
    if d.len() == 0 {
        0
    } else {
        found_total(d.drop_first()) + d[0].1.len()
    }
}

proof fn lemma_document_matches_total(
    pages: Seq<(u32, Seq<char>)>,
    q: Seq<char>,
    cs: bool,
    budget: int,
)
    requires
        budget >= 0,
    ensures
        found_total(document_matches(pages, q, cs, budget)) <= budget,
    decreases pages.len(),
{
    if !(pages.len() == 0 || budget <= 0) {
        let m = if budget < 20 {
            budget
        } else {
            20
        };
        let found = page_matches(pages[0].1, q, cs, crate::search::min_int(budget, 20));
        crate::librarytext::lemma_page_matches_len(pages[0].1, q, cs, crate::search::min_int(budget, 20));
        let rest = pages.drop_first();
        if found.len() == 0 {
            lemma_document_matches_total(rest, q, cs, budget);
        } else {
            lemma_document_matches_total(rest, q, cs, budget - found.len());
            let d = document_matches(pages, q, cs, budget);
            assert(d.drop_first() == document_matches(rest, q, cs, budget - found.len()));
        }
    }
}

proof fn lemma_match_total_views(pages: Seq<PageMatchesDto>)
    ensures
        match_total(pages) == found_total(pages.map_values(|p: PageMatchesDto| page_matches_view(p))),
    decreases pages.len(),
{
    if pages.len() > 0 {
        let v = pages.map_values(|p: PageMatchesDto| page_matches_view(p));
        lemma_match_total_views(pages.drop_last());
        lemma_found_total_last(v);
        assert(v.drop_last() =~= pages.drop_last().map_values(
            |p: PageMatchesDto| page_matches_view(p),
        ));
    }
}

proof fn lemma_found_total_last(d: Seq<(u32, Seq<(u32, u32, Seq<char>)>)>)
    requires
        d.len() > 0,
    ensures
        found_total(d) == found_total(d.drop_last()) + d.last().1.len(),
    decreases d.len(),
{
    if d.len() > 1 {
        lemma_found_total_last(d.drop_first());
        assert(d.drop_first().drop_last() =~= d.drop_last().drop_first());
    } else {
        assert(d.drop_first() =~= Seq::<(u32, Seq<(u32, u32, Seq<char>)>)>::empty());
        assert(d.drop_last() =~= Seq::<(u32, Seq<(u32, u32, Seq<char>)>)>::empty());
    }
}

impl LibrarySearch {
    pub closed spec fn prepared_view(&self) -> Seq<char> {
        self.prepared@
    }

    pub closed spec fn folded_view(&self) -> Seq<char> {
        self.folded@
    }

    pub closed spec fn case_sensitive_view(&self) -> bool {
        self.case_sensitive
    }

    pub closed spec fn per_document_limit_view(&self) -> usize {
        self.per_document_limit
    }

    pub closed spec fn document_limit_view(&self) -> usize {
        self.document_limit
    }

    pub closed spec fn allowed_spec(&self) -> Option<Seq<String>> {
        allowed_view(self.allowed)
    }

    pub closed spec fn hits_view(&self) -> Seq<LibraryHitDto> {
        self.hits@
    }

    pub closed spec fn truncated_view(&self) -> bool {
        self.truncated
    }

    pub closed spec fn step_view(&self) -> LibraryStep {
        self.step
    }

    /// The limit on one document's matches fits a hit's count.
    pub open spec fn wf(&self) -> bool {
        self.per_document_limit_view() <= u32::MAX
    }

    /// Starts a search for `query` over `documents`, with `allowed` the
    /// paths the gram index rules in (none when there is no index, or it
    /// could not narrow the query). A query that normalizes to nothing
    /// matches nothing.
    pub fn begin(
        query: &str,
        case_sensitive: bool,
        per_document_limit: usize,
        document_limit: usize,
        allowed: Option<Vec<String>>,
        documents: &Vec<LibraryDocument>,
    ) -> (s: Self)
        requires
            per_document_limit <= u32::MAX,
        ensures
            s.wf(),
            s.prepared_view() == prepared(query@, case_sensitive),
            s.folded_view() == prepared(query@, false),
            s.case_sensitive_view() == case_sensitive,
            s.per_document_limit_view() == per_document_limit,
            s.document_limit_view() == document_limit,
            s.allowed_spec() == allowed_view(allowed),
            s.hits_view().len() == 0,
            prepared(query@, case_sensitive).len() == 0 ==> s.step_view() == LibraryStep::Done
                && !s.truncated_view(),
            prepared(query@, case_sensitive).len() > 0 ==> (s.step_view(), s.truncated_view())
                == moving_on(documents@, allowed_view(allowed), 0, document_limit as int, 0),
    {
        let prepared_query = prepare_query(query, case_sensitive);
        let folded = prepare_query(query, false);
        let mut s = LibrarySearch {
            prepared: prepared_query,
            folded,
            case_sensitive,
            per_document_limit,
            document_limit,
            allowed,
            hits: Vec::new(),
            truncated: false,
            step: LibraryStep::Done,
        };
        if crate::chars::char_vec(s.prepared.as_str()).len() > 0 {
            s.move_on(documents, 0);
        } else {
            proof {
                assert(s.prepared@.len() == 0);
            }
        }
        s
    }

    fn is_ruled_in(&self, path: &String) -> (r: bool)
        ensures
            r == ruled_in(self.allowed_spec(), path@),
    {
        match &self.allowed {
            None => true,
            Some(a) => {
                let mut k: usize = 0;
                proof {
                    assert(self.allowed_spec() == Some(a@));
                }
                while k < a.len()
                    invariant
                        k <= a@.len(),
                        self.allowed_spec() == Some(a@),
                        forall|m: int| 0 <= m < k ==> (#[trigger] a@[m])@ != path@,
                    decreases a@.len() - k,
                {
                    if crate::library::same_text(a[k].as_str(), path.as_str()) {
                        proof {
                            assert(self.allowed_spec() == Some(a@));
                            assert(0 <= k < a@.len() && a@[k as int]@ == path@);
                            let sa = self.allowed_spec()->0;
                            assert(sa[k as int]@ == path@);
                            assert(ruled_in(self.allowed_spec(), path@));
                        }
                        return true;
                    }
                    k = k + 1;
                }
                false
            },
        }
    }

    /// Goes on to document `from`.
    fn move_on(&mut self, documents: &Vec<LibraryDocument>, from: usize)
        ensures
            (final(self).step_view(), final(self).truncated_view()) == moving_on(
                documents@,
                old(self).allowed_spec(),
                old(self).hits_view().len() as int,
                old(self).document_limit_view() as int,
                from as int,
            ),
            final(self).hits_view() == old(self).hits_view(),
            final(self).prepared_view() == old(self).prepared_view(),
            final(self).folded_view() == old(self).folded_view(),
            final(self).case_sensitive_view() == old(self).case_sensitive_view(),
            final(self).per_document_limit_view() == old(self).per_document_limit_view(),
            final(self).document_limit_view() == old(self).document_limit_view(),
            final(self).allowed_spec() == old(self).allowed_spec(),
    {
        if from >= documents.len() {
            self.step = LibraryStep::Done;
            self.truncated = false;
            return;
        }
        if self.hits.len() >= self.document_limit {
            self.step = LibraryStep::Done;
            self.truncated = true;
            return;
        }
        let mut j = from;
        while j < documents.len() && !self.is_ruled_in(&documents[j].path)
            invariant
                from <= j <= documents@.len(),
                first_ruled_in(documents@, self.allowed_spec(), from as int) == first_ruled_in(
                    documents@,
                    self.allowed_spec(),
                    j as int,
                ),
                self.allowed_spec() == old(self).allowed_spec(),
            decreases documents@.len() - j,
        {
            j = j + 1;
        }
        if j >= documents.len() {
            self.step = LibraryStep::Done;
        } else {
            self.step = LibraryStep::Filter(j);
        }
        self.truncated = false;
    }

    /// What the search needs next.
    pub fn step(&self) -> (r: LibraryStep)
        ensures
            r == self.step_view(),
    {
        self.step
    }

    /// Takes document `i`'s trigram filter, if it has one. A filter that
    /// rules the folded query out skips the document; otherwise its scan copy
    /// is wanted.
    pub fn filter_read(&mut self, documents: &Vec<LibraryDocument>, filter: Option<&Filter>)
        requires
            old(self).step_view() matches LibraryStep::Filter(i) && i < documents@.len(),
            filter matches Some(f) ==> f.wf(),
        ensures
            final(self).hits_view() == old(self).hits_view(),
            final(self).prepared_view() == old(self).prepared_view(),
            final(self).folded_view() == old(self).folded_view(),
            final(self).case_sensitive_view() == old(self).case_sensitive_view(),
            final(self).per_document_limit_view() == old(self).per_document_limit_view(),
            final(self).document_limit_view() == old(self).document_limit_view(),
            final(self).allowed_spec() == old(self).allowed_spec(),
            ({
                let i = old(self).step_view()->Filter_0;
                if filter matches Some(f) && !admits(f.grams(), old(self).folded_view()) {
                    (final(self).step_view(), final(self).truncated_view()) == moving_on(
                        documents@,
                        old(self).allowed_spec(),
                        old(self).hits_view().len() as int,
                        old(self).document_limit_view() as int,
                        i + 1,
                    )
                } else {
                    final(self).step_view() == LibraryStep::Scan(i) && final(self).truncated_view()
                        == old(self).truncated_view()
                }
            }),
    {
        let i = match self.step {
            LibraryStep::Filter(i) => i,
            _ => 0,
        };
        assert(i < documents.len());
        let ruled_out = match filter {
            Some(f) => !f.might_contain(self.folded.as_str()),
            None => false,
        };
        if ruled_out {
            self.move_on(documents, i + 1);
        } else {
            self.step = LibraryStep::Scan(i);
        }
    }

    /// Takes document `i`'s scan copy, if it has one. A scan copy without the
    /// folded query skips the document; otherwise its sidecar is wanted.
    pub fn scan_read(&mut self, documents: &Vec<LibraryDocument>, scan: Option<&str>)
        requires
            old(self).step_view() matches LibraryStep::Scan(i) && i < documents@.len(),
        ensures
            final(self).hits_view() == old(self).hits_view(),
            final(self).prepared_view() == old(self).prepared_view(),
            final(self).folded_view() == old(self).folded_view(),
            final(self).case_sensitive_view() == old(self).case_sensitive_view(),
            final(self).per_document_limit_view() == old(self).per_document_limit_view(),
            final(self).document_limit_view() == old(self).document_limit_view(),
            final(self).allowed_spec() == old(self).allowed_spec(),
            ({
                let i = old(self).step_view()->Scan_0;
                if scan matches Some(t) && !contains_text(t@, old(self).folded_view()) {
                    (final(self).step_view(), final(self).truncated_view()) == moving_on(
                        documents@,
                        old(self).allowed_spec(),
                        old(self).hits_view().len() as int,
                        old(self).document_limit_view() as int,
                        i + 1,
                    )
                } else {
                    final(self).step_view() == LibraryStep::Sidecar(i)
                        && final(self).truncated_view() == old(self).truncated_view()
                }
            }),
    {
        let i = match self.step {
            LibraryStep::Scan(i) => i,
            _ => 0,
        };
        assert(i < documents.len());
        let ruled_out = match scan {
            Some(t) => !str_contains(t, self.folded.as_str()),
            None => false,
        };
        if ruled_out {
            self.move_on(documents, i + 1);
        } else {
            self.step = LibraryStep::Sidecar(i);
        }
    }

    /// Takes document `i`'s sidecar bytes. No sidecar, or one whose bytes
    /// cannot hold the query, skips the document; otherwise the bytes are to
    /// be parsed.
    pub fn sidecar_read(&mut self, documents: &Vec<LibraryDocument>, bytes: Option<&[u8]>)
        requires
            old(self).step_view() matches LibraryStep::Sidecar(i) && i < documents@.len(),
        ensures
            final(self).hits_view() == old(self).hits_view(),
            final(self).prepared_view() == old(self).prepared_view(),
            final(self).folded_view() == old(self).folded_view(),
            final(self).case_sensitive_view() == old(self).case_sensitive_view(),
            final(self).per_document_limit_view() == old(self).per_document_limit_view(),
            final(self).document_limit_view() == old(self).document_limit_view(),
            final(self).allowed_spec() == old(self).allowed_spec(),
            ({
                let i = old(self).step_view()->Sidecar_0;
                if bytes matches Some(b) && worth(b@, old(self).prepared_view()) {
                    final(self).step_view() == LibraryStep::Parse(i) && final(self).truncated_view()
                        == old(self).truncated_view()
                } else {
                    (final(self).step_view(), final(self).truncated_view()) == moving_on(
                        documents@,
                        old(self).allowed_spec(),
                        old(self).hits_view().len() as int,
                        old(self).document_limit_view() as int,
                        i + 1,
                    )
                }
            }),
    {
        let i = match self.step {
            LibraryStep::Sidecar(i) => i,
            _ => 0,
        };
        assert(i < documents.len());
        let wanted = match bytes {
            Some(b) => worth_parsing(b, self.prepared.as_str()),
            None => false,
        };
        if wanted {
            self.step = LibraryStep::Parse(i);
        } else {
            self.move_on(documents, i + 1);
        }
    }

    /// Takes document `i` as its sidecar parsed, if it did. A document with
    /// matches becomes a hit; then the search goes on to the next document.
    pub fn parsed(&mut self, documents: &Vec<LibraryDocument>, indexed: Option<&IndexedDocument>)
        requires
            old(self).wf(),
            old(self).step_view() matches LibraryStep::Parse(i) && i < documents@.len(),
            indexed matches Some(d) ==> forall|k: int|
                0 <= k < d.pages@.len() ==> (#[trigger] d.pages@[k]).1.wf(),
        ensures
            final(self).wf(),
            final(self).prepared_view() == old(self).prepared_view(),
            final(self).folded_view() == old(self).folded_view(),
            final(self).case_sensitive_view() == old(self).case_sensitive_view(),
            final(self).per_document_limit_view() == old(self).per_document_limit_view(),
            final(self).document_limit_view() == old(self).document_limit_view(),
            final(self).allowed_spec() == old(self).allowed_spec(),
            ({
                let i = old(self).step_view()->Parse_0;
                let grown = match indexed {
                    Some(d) => document_matches(
                        indexed_view(d.pages@),
                        old(self).prepared_view(),
                        old(self).case_sensitive_view(),
                        old(self).per_document_limit_view() as int,
                    ).len() > 0,
                    None => false,
                };
                &&& grown ==> final(self).hits_view().len() == old(self).hits_view().len() + 1
                    && final(self).hits_view().drop_last() == old(self).hits_view() && ({
                    let h = final(self).hits_view().last();
                    &&& h.path@ == documents@[i as int].path@
                    &&& h.name@ == match path_file_name(documents@[i as int].path@) {
                        Some(n) => n,
                        None => Seq::<char>::empty(),
                    }
                    &&& opt_view(h.title) == opt_view(documents@[i as int].title)
                    &&& h.pages@.map_values(|p: PageMatchesDto| page_matches_view(p))
                        == document_matches(
                        indexed_view(indexed->0.pages@),
                        old(self).prepared_view(),
                        old(self).case_sensitive_view(),
                        old(self).per_document_limit_view() as int,
                    )
                    &&& h.total_matches == match_total(h.pages@)
                })
                &&& !grown ==> final(self).hits_view() == old(self).hits_view()
                &&& (final(self).step_view(), final(self).truncated_view()) == moving_on(
                    documents@,
                    old(self).allowed_spec(),
                    final(self).hits_view().len() as int,
                    old(self).document_limit_view() as int,
                    i + 1,
                )
            }),
    {
        let i = match self.step {
            LibraryStep::Parse(i) => i,
            _ => 0,
        };
        assert(i < documents.len());
        if let Some(d) = indexed {
            let pages = search_document(
                d,
                self.prepared.as_str(),
                self.case_sensitive,
                self.per_document_limit,
            );
            proof {
                lemma_document_matches_total(
                    indexed_view(d.pages@),
                    self.prepared@,
                    self.case_sensitive,
                    self.per_document_limit as int,
                );
                lemma_match_total_views(pages@);
            }
            if pages.len() > 0 {
                let ghost pv = pages@;
                let hit = library_hit(&documents[i], pages);
                match hit {
                    Some(h) => {
                        let ghost before = self.hits@;
                        self.hits.push(h);
                        proof {
                            assert(self.hits@.drop_last() =~= before);
                        }
                    },
                    None => {},
                }
            }
        }
        self.move_on(documents, i + 1);
    }

    /// The hits, most matches first and then by name, ties in the order the
    /// documents were searched; and whether the document limit cut the search
    /// short.
    pub fn finish(self) -> (r: (Vec<LibraryHitDto>, bool))
        ensures
            r.0@.to_multiset() == self.hits_view().to_multiset(),
            hits_ranked(r.0@),
            forall|k: LibraryHitDto| #[trigger] ties_of(r.0@, k) == ties_of(self.hits_view(), k),
            r.1 == self.truncated_view(),
    {
        let truncated = self.truncated;
        (rank_hits(self.hits), truncated)
    }
}

/// The paths of the documents in `slots`, in order, passing over any slot
/// that names no document.
pub open spec fn slot_paths(paths: Seq<Seq<char>>, slots: Seq<u32>) -> Seq<Seq<char>>
    decreases slots.len(),
{
    if slots.len() == 0 {
        Seq::empty()
    } else {
        let rest = slot_paths(paths, slots.drop_last());
        if slots.last() < paths.len() {
            rest.push(paths[slots.last() as int])
        } else {
            rest
        }
    }
}

/// The paths the gram index's answer rules in: those of the documents it
/// names, or none at all when it could not narrow the query.
pub fn ruled_in_paths(index: &GramIndex, candidates: &Candidates) -> (r: Option<Vec<String>>)
    ensures
        *candidates is Unknown ==> r is None,
        *candidates matches Candidates::Only(slots) ==> r matches Some(ps) && ps@.map_values(
            |p: String| p@,
        ) == slot_paths(index.paths(), slots@),
{
    if let Candidates::Only(slots) = candidates {
        let mut paths: Vec<String> = Vec::new();
        let mut m: usize = 0;
        proof {
            assert(slots@.take(0) =~= Seq::<u32>::empty());
        }
        while m < slots.len()
            invariant
                m <= slots@.len(),
                paths@.map_values(|p: String| p@) == slot_paths(index.paths(), slots@.take(m as int)),
            decreases slots@.len() - m,
        {
            let ghost before = paths@;
            proof {
                assert(slots@.take(m + 1).drop_last() =~= slots@.take(m as int));
            }
            match index.document(slots[m]) {
                Some(p) => {
                    paths.push(p.to_owned());
                    proof {
                        assert(paths@.map_values(|p: String| p@) =~= before.map_values(
                            |p: String| p@,
                        ).push(index.paths()[slots@[m as int] as int]));
                    }
                },
                None => {},
            }
            m = m + 1;
        }
        proof {
            assert(slots@.take(m as int) =~= slots@);
        }
        Some(paths)
    } else {
        None
    }
}

// ---------------------------------------------------------------------------
// The scan copy, and why it never rules out a document that matches.

/// The folded text of a page: normalized, then case-folded.
pub open spec fn folded_page(raw: Seq<char>) -> Seq<char> {
    fold_seq(normalized(raw))
}

/// A document's scan copy: the folded text of each of its pages, in order,
/// one line apiece.
pub open spec fn scan_of(raws: Seq<Seq<char>>) -> Seq<char>
    decreases raws.len(),
{
    if raws.len() == 0 {
        Seq::empty()
    } else if raws.len() == 1 {
        folded_page(raws[0])
    } else {
        scan_of(raws.drop_last()) + seq!['\n'] + folded_page(raws.last())
    }
}

pub open spec fn page_raws(pages: Seq<(u32, PageEntry)>) -> Seq<Seq<char>> {
    pages.map_values(|p: (u32, PageEntry)| p.1.raw_text())
}

/// The scan copy of a document's pages, as the library stores it beside the
/// sidecar.
pub fn scan_copy(pages: &Vec<(u32, PageEntry)>) -> (r: String)
    requires
        forall|k: int| 0 <= k < pages@.len() ==> (#[trigger] pages@[k]).1.wf(),
    ensures
        r@ == scan_of(page_raws(pages@)),
{
    let mut out: Vec<char> = Vec::new();
    let mut k: usize = 0;
    proof {
        assert(page_raws(pages@).take(0) =~= Seq::<Seq<char>>::empty());
    }
    while k < pages.len()
        invariant
            k <= pages@.len(),
            forall|m: int| 0 <= m < pages@.len() ==> (#[trigger] pages@[m]).1.wf(),
            out@ == scan_of(page_raws(pages@).take(k as int)),
        decreases pages@.len() - k,
    {
        let ghost before = out@;
        if k > 0 {
            out.push('\n');
        }
        let folded = crate::chars::char_vec(pages[k].1.folded_text());
        crate::chars::push_all(&mut out, folded.as_slice());
        proof {
            let t = page_raws(pages@).take(k + 1);
            assert(t.drop_last() =~= page_raws(pages@).take(k as int));
            assert(t.last() == pages@[k as int].1.raw_text());
            if k == 0 {
                assert(out@ =~= folded_page(t[0]));
            } else {
                assert(out@ =~= before + seq!['\n'] + folded_page(t.last()));
            }
        }
        k = k + 1;
    }
    proof {
        assert(page_raws(pages@).take(k as int) =~= page_raws(pages@));
    }
    crate::chars::string_of(out.as_slice())
}

proof fn lemma_first_match_occurs(t: Seq<char>, q: Seq<char>, i: int)
    requires
        match_starts(t, q, i).len() > 0,
    ensures
        occurs_at(t, q, match_starts(t, q, i)[0]),
    decreases t.len() - i,
{
    if !(q.len() == 0 || i < 0 || i + q.len() > t.len()) && !occurs_at(t, q, i) {
        lemma_first_match_occurs(t, q, i + 1);
    }
}

/// A page on which a search finds the query holds the folded query in its
/// folded text, whatever the search's case sensitivity.
proof fn lemma_found_page_holds_folded_query(raw: Seq<char>, query: Seq<char>, cs: bool, limit: int)
    requires
        page_matches(raw, prepared(query, cs), cs, limit).len() > 0,
    ensures
        contains_text(folded_page(raw), prepared(query, false)),
{
    let q = prepared(query, cs);
    let t = search_target(raw, cs);
    let all = match_starts(t, q, 0);
    assert(all.len() > 0);
    lemma_first_match_occurs(t, q, 0);
    let p = all[0];
    let n = q.len();
    if cs {
        let f = folded_page(raw);
        assert(f.subrange(p, p + n) =~= fold_seq(t.subrange(p, p + n)));
        assert(f.subrange(p, p + n) == prepared(query, false));
    } else {
        assert(folded_page(raw).subrange(p, p + n) == prepared(query, false));
    }
}

proof fn lemma_page_in_scan(raws: Seq<Seq<char>>, k: int, q: Seq<char>)
    requires
        0 <= k < raws.len(),
        contains_text(folded_page(raws[k]), q),
    ensures
        contains_text(scan_of(raws), q),
    decreases raws.len(),
{
    let f = folded_page(raws[k]);
    let i = choose|i: int| 0 <= i && i + q.len() <= f.len() && #[trigger] f.subrange(i, i + q.len()) == q;
    if raws.len() == 1 {
        assert(scan_of(raws) == f);
    } else if k == raws.len() - 1 {
        let pre = scan_of(raws.drop_last()) + seq!['\n'];
        let s = scan_of(raws);
        assert(s == pre + f);
        let j = pre.len() + i;
        assert(s.subrange(j, j + q.len()) =~= f.subrange(i, i + q.len()));
    } else {
        let d = raws.drop_last();
        assert(d[k] == raws[k]);
        lemma_page_in_scan(d, k, q);
        let sd = scan_of(d);
        let j = choose|j: int| 0 <= j && j + q.len() <= sd.len() && #[trigger] sd.subrange(j, j + q.len()) == q;
        let s = scan_of(raws);
        assert(s.subrange(j, j + q.len()) =~= sd.subrange(j, j + q.len()));
    }
}

proof fn lemma_matching_page(
    pages: Seq<(u32, Seq<char>)>,
    q: Seq<char>,
    cs: bool,
    budget: int,
)
    requires
        document_matches(pages, q, cs, budget).len() > 0,
    ensures
        exists|k: int, b: int|
            0 <= k < pages.len() && #[trigger] page_matches(pages[k].1, q, cs, b).len() > 0,
    decreases pages.len(),
{
    let b = crate::search::min_int(budget, 20);
    if page_matches(pages[0].1, q, cs, b).len() == 0 {
        let rest = pages.drop_first();
        lemma_matching_page(rest, q, cs, budget);
        let (k, c) = choose|k: int, c: int|
            0 <= k < rest.len() && #[trigger] page_matches(rest[k].1, q, cs, c).len() > 0;
        assert(pages[k + 1] == rest[k]);
        assert(page_matches(pages[k + 1].1, q, cs, c).len() > 0);
    } else {
        assert(page_matches(pages[0].1, q, cs, b).len() > 0);
    }
}

/// The scan copy never rules out a document the search would find: if any
/// page of a document matches the query, its scan copy holds the folded
/// query, which is exactly what the search asks of it.
pub proof fn lemma_scan_copy_keeps_matches(
    pages: Seq<(u32, PageEntry)>,
    query: Seq<char>,
    cs: bool,
    limit: int,
)
    requires
        document_matches(indexed_view(pages), prepared(query, cs), cs, limit).len() > 0,
    ensures
        contains_text(scan_of(page_raws(pages)), prepared(query, false)),
{
    let iv = indexed_view(pages);
    let q = prepared(query, cs);
    lemma_matching_page(iv, q, cs, limit);
    let (k, b) = choose|k: int, b: int|
        0 <= k < iv.len() && #[trigger] page_matches(iv[k].1, q, cs, b).len() > 0;
    let raws = page_raws(pages);
    assert(raws[k] == iv[k].1);
    lemma_found_page_holds_folded_query(raws[k], query, cs, b);
    lemma_page_in_scan(raws, k, prepared(query, false));
}


/// The trigrams a document's filter holds: those of each page's folded text.
pub open spec fn filter_grams(raws: Seq<Seq<char>>) -> Set<int>
    decreases raws.len(),
{
    if raws.len() == 0 {
        Set::empty()
    } else {
        filter_grams(raws.drop_last()).union(grams_of(folded_page(raws.last())))
    }
}

/// A document's trigram filter, made from the folded text of each page.
pub fn document_filter(pages: &Vec<(u32, PageEntry)>) -> (f: Filter)
    requires
        forall|k: int| 0 <= k < pages@.len() ==> (#[trigger] pages@[k]).1.wf(),
    ensures
        f.wf(),
        f.grams() == filter_grams(page_raws(pages@)),
{
    let mut f = Filter::default();
    let mut k: usize = 0;
    proof {
        assert(page_raws(pages@).take(0) =~= Seq::<Seq<char>>::empty());
    }
    while k < pages.len()
        invariant
            k <= pages@.len(),
            forall|m: int| 0 <= m < pages@.len() ==> (#[trigger] pages@[m]).1.wf(),
            f.wf(),
            f.grams() == filter_grams(page_raws(pages@).take(k as int)),
        decreases pages@.len() - k,
    {
        f.add(pages[k].1.folded_text());
        proof {
            let t = page_raws(pages@).take(k + 1);
            assert(t.drop_last() =~= page_raws(pages@).take(k as int));
            assert(t.last() == pages@[k as int].1.raw_text());
        }
        k = k + 1;
    }
    proof {
        assert(page_raws(pages@).take(k as int) =~= page_raws(pages@));
    }
    f
}

proof fn lemma_page_grams_held(raws: Seq<Seq<char>>, k: int)
    requires
        0 <= k < raws.len(),
    ensures
        grams_of(folded_page(raws[k])).subset_of(filter_grams(raws)),
    decreases raws.len(),
{
    if k < raws.len() - 1 {
        let d = raws.drop_last();
        assert(d[k] == raws[k]);
        lemma_page_grams_held(d, k);
    }
}

/// The trigram filter never rules out a document the search would find: if
/// any page of a document matches the query, its filter admits the folded
/// query, which is exactly what the search asks of it.
pub proof fn lemma_document_filter_keeps_matches(
    pages: Seq<(u32, PageEntry)>,
    query: Seq<char>,
    cs: bool,
    limit: int,
)
    requires
        document_matches(indexed_view(pages), prepared(query, cs), cs, limit).len() > 0,
    ensures
        admits(filter_grams(page_raws(pages)), prepared(query, false)),
{
    let iv = indexed_view(pages);
    let q = prepared(query, cs);
    lemma_matching_page(iv, q, cs, limit);
    let (k, b) = choose|k: int, b: int|
        0 <= k < iv.len() && #[trigger] page_matches(iv[k].1, q, cs, b).len() > 0;
    let raws = page_raws(pages);
    assert(raws[k] == iv[k].1);
    lemma_found_page_holds_folded_query(raws[k], query, cs, b);
    let fq = prepared(query, false);
    let t = folded_page(raws[k]);
    let i = choose|i: int| 0 <= i && i + fq.len() <= t.len() && #[trigger] t.subrange(i, i + fq.len()) == fq;
    lemma_page_grams_held(raws, k);
    lemma_no_false_negative(filter_grams(raws), t, i, i + fq.len());
}

// ---------------------------------------------------------------------------
// The gram index, and why it never rules out a document that matches.

proof fn lemma_encode_utf8_concat(a: Seq<char>, b: Seq<char>)
    ensures
        vstd::utf8::encode_utf8(a + b) == vstd::utf8::encode_utf8(a) + vstd::utf8::encode_utf8(b),
    decreases a.len(),
{
    if a.len() == 0 {
        assert(a + b =~= b);
        assert(vstd::utf8::encode_utf8(a) =~= Seq::<u8>::empty());
        assert(vstd::utf8::encode_utf8(a + b) =~= vstd::utf8::encode_utf8(a) + vstd::utf8::encode_utf8(b));
    } else {
        lemma_encode_utf8_concat(a.drop_first(), b);
        assert((a + b).drop_first() =~= a.drop_first() + b);
        assert((a + b)[0] == a[0]);
        assert(vstd::utf8::encode_utf8(a + b) =~= vstd::utf8::encode_utf8(a) + vstd::utf8::encode_utf8(b));
    }
}

/// Text that holds `q` at character `i` holds `q`'s UTF-8 bytes in its own.
proof fn lemma_bytes_hold_text(t: Seq<char>, q: Seq<char>, i: int)
    requires
        0 <= i,
        i + q.len() <= t.len(),
        t.subrange(i, i + q.len()) == q,
    ensures
        ({
            let e = vstd::utf8::encode_utf8(t);
            let eq = vstd::utf8::encode_utf8(q);
            let at = vstd::utf8::encode_utf8(t.take(i)).len() as int;
            at + eq.len() <= e.len() && e.subrange(at, at + eq.len()) == eq
        }),
{
    let pre = t.take(i);
    let rest = t.skip(i + q.len());
    assert(t =~= pre + q + rest);
    lemma_encode_utf8_concat(pre + q, rest);
    lemma_encode_utf8_concat(pre, q);
    let e = vstd::utf8::encode_utf8(t);
    let eq = vstd::utf8::encode_utf8(q);
    let at = vstd::utf8::encode_utf8(pre).len() as int;
    assert(e.subrange(at, at + eq.len()) =~= eq);
}

proof fn lemma_slot_paths_has(paths: Seq<Seq<char>>, slots: Seq<u32>, s: u32)
    requires
        slots.contains(s),
        s < paths.len(),
    ensures
        slot_paths(paths, slots).contains(paths[s as int]),
    decreases slots.len(),
{
    let rest = slot_paths(paths, slots.drop_last());
    if slots.last() == s {
        assert(slot_paths(paths, slots) == rest.push(paths[s as int]));
        assert(rest.push(paths[s as int])[rest.len() as int] == paths[s as int]);
    } else {
        let k = choose|k: int| 0 <= k < slots.len() && slots[k] == s;
        assert(slots.drop_last()[k] == s);
        lemma_slot_paths_has(paths, slots.drop_last(), s);
        let j = choose|j: int| 0 <= j < rest.len() && rest[j] == paths[s as int];
        if slots.last() < paths.len() {
            assert(rest.push(paths[slots.last() as int])[j] == paths[s as int]);
        }
    }
}

/// The gram index never rules out a document the search would find. Let the
/// index be built from each document's stored scan copy (or from nothing,
/// where the copy could not be read), asked for the folded query, and let
/// `allowed` be the paths its answer rules in. Then every document with a
/// page that matches the query is ruled in, so searching with the index
/// reaches every document that searching without it would find hits in.
pub proof fn lemma_gram_index_keeps_matches(
    ix: GramIndex,
    texts: Seq<Option<Seq<u8>>>,
    query: Seq<char>,
    cs: bool,
    limit: int,
    r: Candidates,
    allowed: Option<Seq<String>>,
    s: int,
    pages: Seq<(u32, PageEntry)>,
)
    requires
        indexes(texts, ix.dir(), ix.posts(), ix.unread()),
        texts.len() < 0x1_0000_0000,
        ix.paths().len() == texts.len(),
        candidates_ok(
            ix.dir(),
            ix.posts(),
            ix.unread(),
            vstd::utf8::encode_utf8(prepared(query, false)),
            r,
        ),
        r is Unknown ==> allowed is None,
        r matches Candidates::Only(slots) ==> allowed matches Some(a) && a.map_values(
            |x: String| x@,
        ) == slot_paths(ix.paths(), slots@),
        0 <= s < texts.len(),
        texts[s] is None || texts[s] == Some(vstd::utf8::encode_utf8(scan_of(page_raws(pages)))),
        document_matches(indexed_view(pages), prepared(query, cs), cs, limit).len() > 0,
    ensures
        ruled_in(allowed, ix.paths()[s]),
{
    let fq = prepared(query, false);
    let qb = vstd::utf8::encode_utf8(fq);
    let mut at: int = 0;
    if texts[s] is Some {
        lemma_scan_copy_keeps_matches(pages, query, cs, limit);
        let t = scan_of(page_raws(pages));
        let i = choose|i: int| 0 <= i && i + fq.len() <= t.len() && #[trigger] t.subrange(i, i + fq.len()) == fq;
        lemma_bytes_hold_text(t, fq, i);
        at = vstd::utf8::encode_utf8(t.take(i)).len() as int;
    }
    lemma_never_loses_a_document(texts, ix.dir(), ix.posts(), ix.unread(), qb, r, s, at);
    if let Candidates::Only(slots) = r {
        let a = allowed->0;
        lemma_slot_paths_has(ix.paths(), slots@, s as u32);
        let sp = slot_paths(ix.paths(), slots@);
        let k = choose|k: int| 0 <= k < sp.len() && sp[k] == ix.paths()[s];
        assert(a.map_values(|x: String| x@)[k] == a[k]@);
        assert(ruled_in(allowed, ix.paths()[s]));
    }
}

// ---------------------------------------------------------------------------
// A whole search, and why the gram index changes none of its answer.

/// What the search reads of one document: its filter's grams, its scan copy,
/// its sidecar's bytes and the pages parsed from them, each none when there
/// is nothing to read.
pub type DocReads = (Option<Set<int>>, Option<Seq<char>>, Option<Seq<u8>>, Option<Seq<(u32, PageEntry)>>);

/// A hit as the search reports it: path, file name, title, the pages with
/// their matches, and the number of matches.
pub type HitView = (Seq<char>, Seq<char>, Option<Seq<char>>, Seq<(u32, Seq<(u32, u32, Seq<char>)>)>, int);

pub open spec fn hit_view(h: LibraryHitDto) -> HitView {
    (
        h.path@,
        h.name@,
        opt_view(h.title),
        h.pages@.map_values(|p: PageMatchesDto| page_matches_view(p)),
        h.total_matches as int,
    )
}

pub open spec fn hit_views(hs: Seq<LibraryHitDto>) -> Seq<HitView> {
    hs.map_values(|h: LibraryHitDto| hit_view(h))
}

/// The hit document `d` makes with matches `m`.
pub open spec fn hit_of(d: LibraryDocument, m: Seq<(u32, Seq<(u32, u32, Seq<char>)>)>) -> HitView {
    (
        d.path@,
        match path_file_name(d.path@) {
            Some(n) => n,
            None => Seq::<char>::empty(),
        },
        opt_view(d.title),
        m,
        found_total(m),
    )
}

/// The matches a document yields once the search has passed its first
/// `stage` checks (filter, scan copy, sidecar bytes, in that order), or none
/// when a later check rules it out or no page matches.
pub open spec fn doc_outcome(
    r: DocReads,
    pq: Seq<char>,
    fq: Seq<char>,
    cs: bool,
    pdl: int,
    stage: int,
) -> Option<Seq<(u32, Seq<(u32, u32, Seq<char>)>)>> {
    if stage <= 0 && (r.0 matches Some(g) && !admits(g, fq)) {
        None
    } else if stage <= 1 && (r.1 matches Some(t) && !contains_text(t, fq)) {
        None
    } else if stage <= 2 && !(r.2 matches Some(b) && worth(b, pq)) {
        None
    } else {
        match r.3 {
            Some(p) => {
                let m = document_matches(indexed_view(p), pq, cs, pdl);
                if m.len() > 0 {
                    Some(m)
                } else {
                    None
                }
            },
            None => None,
        }
    }
}

/// The search from document `from` on, with `found` documents hit so far:
/// the hits it adds, in order, and whether the document limit cut it short.
pub open spec fn run_from(
    docs: Seq<LibraryDocument>,
    allowed: Option<Seq<String>>,
    reads: Seq<DocReads>,
    pq: Seq<char>,
    fq: Seq<char>,
    cs: bool,
    pdl: int,
    limit: int,
    found: int,
    from: int,
) -> (Seq<HitView>, bool)
    decreases docs.len() - from,
{
    if from < 0 || from >= docs.len() {
        (Seq::empty(), false)
    } else if found >= limit {
        (Seq::empty(), true)
    } else if !ruled_in(allowed, docs[from].path@) {
        run_from(docs, allowed, reads, pq, fq, cs, pdl, limit, found, from + 1)
    } else {
        match doc_outcome(reads[from], pq, fq, cs, pdl, 0) {
            Some(m) => {
                let r = run_from(docs, allowed, reads, pq, fq, cs, pdl, limit, found + 1, from + 1);
                (seq![hit_of(docs[from], m)] + r.0, r.1)
            },
            None => run_from(docs, allowed, reads, pq, fq, cs, pdl, limit, found, from + 1),
        }
    }
}

/// What is left of a search at document `i` with its first `stage` checks
/// passed.
pub open spec fn run_at(
    docs: Seq<LibraryDocument>,
    allowed: Option<Seq<String>>,
    reads: Seq<DocReads>,
    pq: Seq<char>,
    fq: Seq<char>,
    cs: bool,
    pdl: int,
    limit: int,
    found: int,
    i: int,
    stage: int,
) -> (Seq<HitView>, bool) {
    match doc_outcome(reads[i], pq, fq, cs, pdl, stage) {
        Some(m) => {
            let r = run_from(docs, allowed, reads, pq, fq, cs, pdl, limit, found + 1, i + 1);
            (seq![hit_of(docs[i], m)] + r.0, r.1)
        },
        None => run_from(docs, allowed, reads, pq, fq, cs, pdl, limit, found, i + 1),
    }
}

/// What is left of a search that is at `step`.
pub open spec fn pending(
    step: LibraryStep,
    truncated: bool,
    docs: Seq<LibraryDocument>,
    allowed: Option<Seq<String>>,
    reads: Seq<DocReads>,
    pq: Seq<char>,
    fq: Seq<char>,
    cs: bool,
    pdl: int,
    limit: int,
    found: int,
) -> (Seq<HitView>, bool) {
    match step {
        LibraryStep::Done => (Seq::empty(), truncated),
        LibraryStep::Filter(i) => run_at(docs, allowed, reads, pq, fq, cs, pdl, limit, found, i as int, 0),
        LibraryStep::Scan(i) => run_at(docs, allowed, reads, pq, fq, cs, pdl, limit, found, i as int, 1),
        LibraryStep::Sidecar(i) => run_at(docs, allowed, reads, pq, fq, cs, pdl, limit, found, i as int, 2),
        LibraryStep::Parse(i) => run_at(docs, allowed, reads, pq, fq, cs, pdl, limit, found, i as int, 3),
    }
}

/// Going on from document `from` leaves exactly the search from `from` on:
/// in particular, a search just begun has the whole search pending.
pub proof fn lemma_moving_on_pending(
    docs: Seq<LibraryDocument>,
    allowed: Option<Seq<String>>,
    reads: Seq<DocReads>,
    pq: Seq<char>,
    fq: Seq<char>,
    cs: bool,
    pdl: int,
    limit: int,
    found: int,
    from: int,
)
    requires
        0 <= from,
        docs.len() <= usize::MAX,
    ensures
        ({
            let (st, tr) = moving_on(docs, allowed, found, limit, from);
            &&& pending(st, tr, docs, allowed, reads, pq, fq, cs, pdl, limit, found) == run_from(
                docs,
                allowed,
                reads,
                pq,
                fq,
                cs,
                pdl,
                limit,
                found,
                from,
            )
            &&& st matches LibraryStep::Filter(j) ==> from <= j < docs.len() && found < limit
        }),
    decreases docs.len() - from,
{
    if from < docs.len() && found < limit {
        if !ruled_in(allowed, docs[from].path@) {
            lemma_moving_on_pending(docs, allowed, reads, pq, fq, cs, pdl, limit, found, from + 1);
            assert(first_ruled_in(docs, allowed, from) == first_ruled_in(docs, allowed, from + 1));
            if from + 1 >= docs.len() {
                assert(first_ruled_in(docs, allowed, from + 1) == docs.len());
            }
        } else {
            assert(first_ruled_in(docs, allowed, from) == from);
            assert(moving_on(docs, allowed, found, limit, from) == (LibraryStep::Filter(from as usize), false));
            assert((from as usize) as int == from);
        }
    }
}

impl LibrarySearch {
    /// Runs a begun search to its end over reads already at hand: `filters`,
    /// `scans`, `sidecars` and `parsed` hold what each document's files
    /// gave, none where there was nothing. The hits it adds and whether the
    /// limit cut it short are what was pending.
    pub fn run_to_end(
        &mut self,
        documents: &Vec<LibraryDocument>,
        filters: &Vec<Option<Filter>>,
        scans: &Vec<Option<String>>,
        sidecars: &Vec<Option<Vec<u8>>>,
        parsed: &Vec<Option<IndexedDocument>>,
    )
        requires
            old(self).wf(),
            old(self).step_view() matches LibraryStep::Filter(i) ==> i < documents@.len(),
            old(self).step_view() matches LibraryStep::Scan(i) ==> i < documents@.len(),
            old(self).step_view() matches LibraryStep::Sidecar(i) ==> i < documents@.len(),
            old(self).step_view() matches LibraryStep::Parse(i) ==> i < documents@.len(),
            filters@.len() == documents@.len(),
            scans@.len() == documents@.len(),
            sidecars@.len() == documents@.len(),
            parsed@.len() == documents@.len(),
            forall|i: int| 0 <= i < filters@.len() ==> (#[trigger] filters@[i] matches Some(f) ==> f.wf()),
            forall|i: int|
                0 <= i < parsed@.len() ==> (#[trigger] parsed@[i] matches Some(d) ==> forall|k: int|
                    0 <= k < d.pages@.len() ==> (#[trigger] d.pages@[k]).1.wf()),
        ensures
            final(self).step_view() == LibraryStep::Done,
            ({
                let p = pending(
                    old(self).step_view(),
                    old(self).truncated_view(),
                    documents@,
                    old(self).allowed_spec(),
                    stored_reads(filters@, scans@, sidecars@, parsed@),
                    old(self).prepared_view(),
                    old(self).folded_view(),
                    old(self).case_sensitive_view(),
                    old(self).per_document_limit_view() as int,
                    old(self).document_limit_view() as int,
                    old(self).hits_view().len() as int,
                );
                &&& hit_views(final(self).hits_view()) == hit_views(old(self).hits_view()) + p.0
                &&& final(self).truncated_view() == p.1
            }),
            final(self).prepared_view() == old(self).prepared_view(),
            final(self).case_sensitive_view() == old(self).case_sensitive_view(),
    {
        let count = documents.len();
        let ghost reads = stored_reads(filters@, scans@, sidecars@, parsed@);
        let ghost docs = documents@;
        let ghost allowed = self.allowed_spec();
        let ghost pq = self.prepared_view();
        let ghost fq = self.folded_view();
        let ghost cs = self.case_sensitive_view();
        let ghost pdl = self.per_document_limit_view() as int;
        let ghost limit = self.document_limit_view() as int;
        let ghost start = hit_views(self.hits_view());
        let ghost total = pending(
            self.step_view(),
            self.truncated_view(),
            docs,
            allowed,
            reads,
            pq,
            fq,
            cs,
            pdl,
            limit,
            self.hits_view().len() as int,
        );
        loop
            invariant
                self.wf(),
                docs == documents@,
                docs.len() == count,
                reads == stored_reads(filters@, scans@, sidecars@, parsed@),
                allowed == self.allowed_spec(),
                pq == self.prepared_view(),
                fq == self.folded_view(),
                cs == self.case_sensitive_view(),
                pdl == self.per_document_limit_view() as int,
                limit == self.document_limit_view() as int,
                self.step_view() matches LibraryStep::Filter(i) ==> i < documents@.len(),
                self.step_view() matches LibraryStep::Scan(i) ==> i < documents@.len(),
                self.step_view() matches LibraryStep::Sidecar(i) ==> i < documents@.len(),
                self.step_view() matches LibraryStep::Parse(i) ==> i < documents@.len(),
                filters@.len() == documents@.len(),
                scans@.len() == documents@.len(),
                sidecars@.len() == documents@.len(),
                parsed@.len() == documents@.len(),
                forall|i: int| 0 <= i < filters@.len() ==> (#[trigger] filters@[i] matches Some(f) ==> f.wf()),
                forall|i: int|
                    0 <= i < parsed@.len() ==> (#[trigger] parsed@[i] matches Some(d) ==> forall|k: int|
                        0 <= k < d.pages@.len() ==> (#[trigger] d.pages@[k]).1.wf()),
                ({
                    let p = pending(
                        self.step_view(),
                        self.truncated_view(),
                        docs,
                        allowed,
                        reads,
                        pq,
                        fq,
                        cs,
                        pdl,
                        limit,
                        self.hits_view().len() as int,
                    );
                    &&& hit_views(self.hits_view()) + p.0 == start + total.0
                    &&& p.1 == total.1
                }),
            ensures
                self.step_view() == LibraryStep::Done,
                hit_views(self.hits_view()) == start + total.0,
                self.truncated_view() == total.1,
            decreases step_measure(self.step_view(), docs.len() as int),
        {
            let ghost before = hit_views(self.hits_view());
            let ghost found = self.hits_view().len() as int;
            match self.step() {
                LibraryStep::Done => {
                    proof {
                        assert(before + Seq::<HitView>::empty() =~= before);
                    }
                    break;
                },
                LibraryStep::Filter(i) => {
                    self.filter_read(documents, filters[i].as_ref());
                    proof {
                        assert(reads[i as int].0 == match filters@[i as int] {
                            Some(f) => Some(f.grams()),
                            None => None,
                        });
                        lemma_moving_on_pending(docs, allowed, reads, pq, fq, cs, pdl, limit, found, i + 1);
                    }
                },
                LibraryStep::Scan(i) => {
                    self.scan_read(documents, match &scans[i] {
                        Some(t) => Some(t.as_str()),
                        None => None,
                    });
                    proof {
                        lemma_moving_on_pending(docs, allowed, reads, pq, fq, cs, pdl, limit, found, i + 1);
                    }
                },
                LibraryStep::Sidecar(i) => {
                    self.sidecar_read(documents, match &sidecars[i] {
                        Some(b) => Some(b.as_slice()),
                        None => None,
                    });
                    proof {
                        lemma_moving_on_pending(docs, allowed, reads, pq, fq, cs, pdl, limit, found, i + 1);
                    }
                },
                LibraryStep::Parse(i) => {
                    let ghost old_hits = self.hits_view();
                    self.parsed(documents, parsed[i].as_ref());
                    proof {
                        let nf = self.hits_view().len() as int;
                        lemma_moving_on_pending(docs, allowed, reads, pq, fq, cs, pdl, limit, nf, i + 1);
                        if nf == found + 1 {
                            let h = self.hits_view().last();
                            lemma_match_total_views(h.pages@);
                            assert(self.hits_view() =~= old_hits.push(h));
                            assert(hit_views(self.hits_view()) =~= before.push(hit_view(h)));
                            let rest = run_from(docs, allowed, reads, pq, fq, cs, pdl, limit, nf, i + 1);
                            assert(before.push(hit_view(h)) + rest.0 =~= before + (seq![hit_view(h)] + rest.0));
                        } else {
                            assert(self.hits_view() == old_hits);
                        }
                    }
                },
            }
        }
    }
}

/// How many steps a search at `s` over `n` documents can still take, at most.
pub open spec fn step_measure(s: LibraryStep, n: int) -> int {
    match s {
        LibraryStep::Filter(i) => (n - i) * 4,
        LibraryStep::Scan(i) => (n - i) * 4 - 1,
        LibraryStep::Sidecar(i) => (n - i) * 4 - 2,
        LibraryStep::Parse(i) => (n - i) * 4 - 3,
        LibraryStep::Done => 0,
    }
}

/// The reads of each document, from what its files gave.
pub open spec fn stored_reads(
    filters: Seq<Option<Filter>>,
    scans: Seq<Option<String>>,
    sidecars: Seq<Option<Vec<u8>>>,
    parsed: Seq<Option<IndexedDocument>>,
) -> Seq<DocReads> {
    Seq::new(
        filters.len(),
        |i: int|
            (
                match filters[i] {
                    Some(f) => Some(f.grams()),
                    None => None,
                },
                match scans[i] {
                    Some(t) => Some(t@),
                    None => None,
                },
                match sidecars[i] {
                    Some(b) => Some(b@),
                    None => None,
                },
                match parsed[i] {
                    Some(d) => Some(d.pages@),
                    None => None,
                },
            ),
    )
}

/// A search that only documents with no hits are kept from gives the same
/// answer as one that every document is open to.
proof fn lemma_skipping_nothing_found(
    docs: Seq<LibraryDocument>,
    allowed: Option<Seq<String>>,
    reads: Seq<DocReads>,
    pq: Seq<char>,
    fq: Seq<char>,
    cs: bool,
    pdl: int,
    limit: int,
    found: int,
    from: int,
)
    requires
        forall|i: int|
            0 <= i < docs.len() && (#[trigger] doc_outcome(reads[i], pq, fq, cs, pdl, 0)) is Some ==> ruled_in(
                allowed,
                docs[i].path@,
            ),
    ensures
        run_from(docs, allowed, reads, pq, fq, cs, pdl, limit, found, from) == run_from(
            docs,
            None,
            reads,
            pq,
            fq,
            cs,
            pdl,
            limit,
            found,
            from,
        ),
    decreases docs.len() - from,
{
    if 0 <= from < docs.len() && found < limit {
        lemma_skipping_nothing_found(docs, allowed, reads, pq, fq, cs, pdl, limit, found, from + 1);
        lemma_skipping_nothing_found(docs, allowed, reads, pq, fq, cs, pdl, limit, found + 1, from + 1);
        if !ruled_in(allowed, docs[from].path@) {
            assert(doc_outcome(reads[from], pq, fq, cs, pdl, 0) is None);
        }
    }
}

/// The gram index changes nothing a library search answers. Let the index
/// be built from each document's stored scan copy, made from the same pages
/// its sidecar holds (or from nothing, where the copy could not be read),
/// and let `allowed` be the paths it rules in for the folded query. Then the
/// search over the library's stored files finds the same hits, in the same
/// order, and is cut short alike, with the index as without it.
pub proof fn lemma_index_changes_no_answer(
    ix: GramIndex,
    texts: Seq<Option<Seq<u8>>>,
    docs: Seq<LibraryDocument>,
    reads: Seq<DocReads>,
    query: Seq<char>,
    cs: bool,
    pdl: int,
    limit: int,
    r: Candidates,
    allowed: Option<Seq<String>>,
)
    requires
        indexes(texts, ix.dir(), ix.posts(), ix.unread()),
        texts.len() < 0x1_0000_0000,
        ix.paths().len() == texts.len(),
        docs.len() == texts.len(),
        reads.len() == docs.len(),
        forall|i: int| 0 <= i < docs.len() ==> ix.paths()[i] == (#[trigger] docs[i]).path@,
        forall|i: int|
            0 <= i < docs.len() ==> ((#[trigger] reads[i]).3 matches Some(p) ==> texts[i] is None || texts[i]
                == Some(vstd::utf8::encode_utf8(scan_of(page_raws(p))))),
        candidates_ok(
            ix.dir(),
            ix.posts(),
            ix.unread(),
            vstd::utf8::encode_utf8(prepared(query, false)),
            r,
        ),
        r is Unknown ==> allowed is None,
        r matches Candidates::Only(slots) ==> allowed matches Some(a) && a.map_values(
            |x: String| x@,
        ) == slot_paths(ix.paths(), slots@),
    ensures
        run_from(docs, allowed, reads, prepared(query, cs), prepared(query, false), cs, pdl, limit, 0, 0)
            == run_from(docs, None, reads, prepared(query, cs), prepared(query, false), cs, pdl, limit, 0, 0),
{
    let pq = prepared(query, cs);
    let fq = prepared(query, false);
    assert forall|i: int|
        0 <= i < docs.len() && (#[trigger] doc_outcome(reads[i], pq, fq, cs, pdl, 0)) is Some implies ruled_in(
        allowed,
        docs[i].path@,
    ) by {
        let p = reads[i].3->0;
        lemma_gram_index_keeps_matches(ix, texts, query, cs, pdl, r, allowed, i, p);
    }
    lemma_skipping_nothing_found(docs, allowed, reads, pq, fq, cs, pdl, limit, 0, 0);
}


/// A search adds a hit only while fewer than `limit` documents have hits, so
/// it never reports more than `limit` documents.
pub proof fn lemma_run_within_limit(
    docs: Seq<LibraryDocument>,
    allowed: Option<Seq<String>>,
    reads: Seq<DocReads>,
    pq: Seq<char>,
    fq: Seq<char>,
    cs: bool,
    pdl: int,
    limit: int,
    found: int,
    from: int,
)
    requires
        found <= limit,
    ensures
        found + run_from(docs, allowed, reads, pq, fq, cs, pdl, limit, found, from).0.len() <= limit,
    decreases docs.len() - from,
{
    if 0 <= from < docs.len() && found < limit {
        lemma_run_within_limit(docs, allowed, reads, pq, fq, cs, pdl, limit, found, from + 1);
        lemma_run_within_limit(docs, allowed, reads, pq, fq, cs, pdl, limit, found + 1, from + 1);
    }
}

} // verus!
