//! Citation identifier parsing shared by link extraction and the local-library
//! scanner. Identifiers are small ASCII grammars, read here character by
//! character: a DOI (`10.NNNN/suffix`), a modern arXiv id (`YYMM.NNNNN`) or a
//! legacy one (`category/NNNNNNN`), optionally with a version that is dropped.

use crate::chars::{trim_start_by, lemma_lead_exact, lemma_trail_exact, trim_end_by, is_space, 
    ascii_alnum, ascii_digit, char_vec, is_alnum, is_digit, lead, lemma_lead_bound, lemma_trail_bound,
    lower, skip_while, slice_chars, space, spaces, starts_with_chars, ends_with_chars, string_of, to_lower, trail, trim_by, trim_chars, trim_ws,
};
use crate::types::CitationIdDto;
use vstd::prelude::*;

verus! {

#[derive(Clone, Debug, PartialEq, Eq)]
pub struct CitationOccurrence {
    pub id: CitationIdDto,
    /// Character index in PDFium's raw character stream.
    pub start: u32,
    pub len: u32,
}

/// An identifier as (is it a DOI, its normalized value).
pub open spec fn id_view(id: CitationIdDto) -> (bool, Seq<char>) {
    match id {
        CitationIdDto::Doi(v) => (true, v@),
        CitationIdDto::ArXiv(v) => (false, v@),
    }
}

pub open spec fn doi_suffix(c: char) -> bool {
    is_alnum(c) || c == '.' || c == '_' || c == ';' || c == '(' || c == ')' || c == '/' || c == ':'
        || c == '-' || c == ','
}

/// Sentence punctuation that ends a DOI in running text rather than
/// belonging to it.
pub open spec fn doi_trailer(c: char) -> bool {
    c == '.' || c == ',' || c == ')' || c == ';'
}

pub open spec fn legacy_category(c: char) -> bool {
    is_alnum(c) || c == '.' || c == '-'
}

pub open spec fn is_id_char(c: char) -> bool {
    is_alnum(c) || c == '_'
}

pub open spec fn at_is(s: Seq<char>, i: int, c: char) -> bool {
    0 <= i < s.len() && s[i] == c
}

pub open spec fn digit_at(s: Seq<char>, i: int) -> bool {
    0 <= i < s.len() && is_digit(s[i])
}

/// Length of the run of characters satisfying `p` starting at `from`.
pub open spec fn run(s: Seq<char>, from: int, p: spec_fn(char) -> bool) -> int {
    if 0 <= from <= s.len() {
        lead(s.skip(from), p) as int
    } else {
        0
    }
}

pub open spec fn digits() -> spec_fn(char) -> bool {
    |c: char| is_digit(c)
}

pub open spec fn suffix_chars() -> spec_fn(char) -> bool {
    |c: char| doi_suffix(c)
}

pub open spec fn trailer_chars() -> spec_fn(char) -> bool {
    |c: char| doi_trailer(c)
}

pub open spec fn category_chars() -> spec_fn(char) -> bool {
    |c: char| legacy_category(c)
}

pub open spec fn wrapper_chars() -> spec_fn(char) -> bool {
    |c: char| is_wrapper(c)
}

/// What a run is made of.
pub proof fn lemma_run(s: Seq<char>, from: int, p: spec_fn(char) -> bool)
    ensures
        run(s, from, p) >= 0,
        run(s, from, p) > 0 ==> 0 <= from && from + run(s, from, p) <= s.len(),
        0 <= from <= s.len() ==> from + run(s, from, p) <= s.len(),
        forall|i: int| from <= i < from + run(s, from, p) ==> p(#[trigger] s[i]),
        0 <= from && from + run(s, from, p) < s.len() ==> !p(s[from + run(s, from, p)]),
{
    if 0 <= from <= s.len() {
        lemma_lead_bound(s.skip(from), p);
        assert forall|i: int| from <= i < from + run(s, from, p) implies p(#[trigger] s[i]) by {
            assert(s[i] == s.skip(from)[i - from]);
        }
        if from + run(s, from, p) < s.len() {
            assert(s[from + run(s, from, p)] == s.skip(from)[run(s, from, p)]);
        }
    }
}

pub proof fn lemma_parse_doi_end(s: Seq<char>, at: int)
    ensures
        parse_doi(s, at) matches Some((e, _)) ==> at < e <= s.len(),
{
    if at_is(s, at, '1') && at_is(s, at + 1, '0') && at_is(s, at + 2, '.') {
        lemma_run(s, at + 3, digits());
        let d = run(s, at + 3, digits());
        if 4 <= d <= 9 && at_is(s, at + 3 + d, '/') {
            let st = at + 4 + d;
            lemma_run(s, st, suffix_chars());
            let e0 = st + run(s, st, suffix_chars());
            lemma_trail_bound(s.subrange(st, e0), trailer_chars());
        }
    }
}

pub proof fn lemma_version_end(s: Seq<char>, ne: int)
    requires
        0 <= ne <= s.len(),
    ensures
        version_end(s, ne) matches Some(e) ==> ne <= e <= s.len(),
{
    if at_is(s, ne, 'v') || at_is(s, ne, 'V') {
        lemma_run(s, ne + 1, digits());
    }
}

pub proof fn lemma_parse_arxiv_end(s: Seq<char>, at: int)
    ensures
        parse_modern_arxiv(s, at) matches Some((e, _)) ==> at < e <= s.len(),
        parse_legacy_arxiv(s, at) matches Some((e, _)) ==> at < e <= s.len(),
        parse_arxiv(s, at) matches Some((e, _)) ==> at < e <= s.len(),
{
    lemma_run(s, at + 5, digits());
    if digit_at(s, at) && at_is(s, at + 4, '.') {
        let d = run(s, at + 5, digits());
        if 4 <= d <= 5 {
            lemma_version_end(s, at + 5 + d);
        }
    }
    lemma_run(s, at, category_chars());
    let c = run(s, at, category_chars());
    if 1 <= c <= 25 && at_is(s, at + c, '/') {
        lemma_run(s, at + c + 1, digits());
        if run(s, at + c + 1, digits()) == 7 {
            lemma_version_end(s, at + c + 8);
        }
    }
}

pub proof fn lemma_first_match_end(s: Seq<char>, at: int, ps: Seq<Seq<char>>, doi: bool)
    requires
        0 <= at,
    ensures
        first_match(s, at, ps, doi) matches Some((e, _)) ==> at < e <= s.len(),
    decreases ps.len(),
{
    if ps.len() > 0 {
        lemma_parse_doi_end(s, at + ps[0].len());
        lemma_parse_arxiv_end(s, at + ps[0].len());
        lemma_first_match_end(s, at, ps.drop_first(), doi);
    }
}

pub proof fn lemma_prefixed_end(s: Seq<char>, at: int)
    requires
        0 <= at,
    ensures
        prefixed(s, at) matches Some((e, _, _)) ==> at < e <= s.len(),
{
    lemma_first_match_end(s, at, doi_prefixes(), true);
    lemma_first_match_end(s, at, arxiv_prefixes(), false);
}

/// A DOI starting exactly at `at`: `10.`, four to nine registrant digits,
/// `/`, then a suffix with trailing sentence punctuation dropped. The value is
/// lower-cased; the first component is where the DOI ends.
pub open spec fn parse_doi(s: Seq<char>, at: int) -> Option<(int, Seq<char>)> {
    if !(at_is(s, at, '1') && at_is(s, at + 1, '0') && at_is(s, at + 2, '.')) {
        None
    } else {
        let d = run(s, at + 3, digits());
        if !(4 <= d <= 9 && at_is(s, at + 3 + d, '/')) {
            None
        } else {
            let st = at + 4 + d;
            let e0 = st + run(s, st, suffix_chars());
            let e = e0 - trail(s.subrange(st, e0), trailer_chars());
            if e == st {
                None
            } else {
                Some((e, s.subrange(at, e).map_values(|c: char| lower(c))))
            }
        }
    }
}

/// Where an id whose number ends at `ne` really ends: past an optional
/// `v<digits>` version.
pub open spec fn version_end(s: Seq<char>, ne: int) -> Option<int> {
    if at_is(s, ne, 'v') || at_is(s, ne, 'V') {
        let vl = run(s, ne + 1, digits());
        if vl == 0 {
            None
        } else {
            Some(ne + 1 + vl)
        }
    } else {
        Some(ne)
    }
}

/// An identifier may not run on into a word.
pub open spec fn id_boundary(s: Seq<char>, e: int) -> bool {
    !(0 <= e < s.len() && is_id_char(s[e]))
}

/// `YYMM.NNNN` or `YYMM.NNNNN`, version dropped.
pub open spec fn parse_modern_arxiv(s: Seq<char>, at: int) -> Option<(int, Seq<char>)> {
    if !(digit_at(s, at) && digit_at(s, at + 1) && digit_at(s, at + 2) && digit_at(s, at + 3)
        && at_is(s, at + 4, '.')) {
        None
    } else {
        let d = run(s, at + 5, digits());
        if !(4 <= d <= 5) {
            None
        } else {
            let ne = at + 5 + d;
            match version_end(s, ne) {
                Some(e) => if id_boundary(s, e) {
                    Some((e, s.subrange(at, ne)))
                } else {
                    None
                },
                None => None,
            }
        }
    }
}

/// `category/NNNNNNN` with a category of one to twenty-five characters,
/// version dropped.
pub open spec fn parse_legacy_arxiv(s: Seq<char>, at: int) -> Option<(int, Seq<char>)> {
    let c = run(s, at, category_chars());
    if !(1 <= c <= 25 && at_is(s, at + c, '/')) {
        None
    } else {
        let ds = at + c + 1;
        if run(s, ds, digits()) != 7 {
            None
        } else {
            let ne = ds + 7;
            match version_end(s, ne) {
                Some(e) => if id_boundary(s, e) {
                    Some((e, s.subrange(at, ne)))
                } else {
                    None
                },
                None => None,
            }
        }
    }
}

pub open spec fn parse_arxiv(s: Seq<char>, at: int) -> Option<(int, Seq<char>)> {
    match parse_modern_arxiv(s, at) {
        Some(r) => Some(r),
        None => parse_legacy_arxiv(s, at),
    }
}

pub open spec fn parse_kind(s: Seq<char>, at: int, doi: bool) -> Option<(int, Seq<char>)> {
    if doi {
        parse_doi(s, at)
    } else {
        parse_arxiv(s, at)
    }
}

/// `s` holds `p` at `at`, ignoring ASCII case.
pub open spec fn starts_ci(s: Seq<char>, at: int, p: Seq<char>) -> bool {
    &&& 0 <= at
    &&& at + p.len() <= s.len()
    &&& forall|j: int| 0 <= j < p.len() ==> lower(#[trigger] s[at + j]) == lower(p[j])
}

pub open spec fn doi_prefixes() -> Seq<Seq<char>> {
    seq!["https://doi.org/"@, "http://doi.org/"@, "http://dx.doi.org/"@, "doi:"@]
}

pub open spec fn arxiv_prefixes() -> Seq<Seq<char>> {
    seq![
        "https://arxiv.org/abs/"@,
        "http://arxiv.org/abs/"@,
        "arxiv.org/abs/"@,
        "https://arxiv.org/pdf/"@,
        "http://arxiv.org/pdf/"@,
        "arxiv.org/pdf/"@,
        "arxiv:"@,
    ]
}

/// The first prefix of `ps` present at `at` that is followed by a valid id.
pub open spec fn first_match(s: Seq<char>, at: int, ps: Seq<Seq<char>>, doi: bool) -> Option<
    (int, Seq<char>),
>
    decreases ps.len(),
{
    if ps.len() == 0 {
        None
    } else if starts_ci(s, at, ps[0]) && parse_kind(s, at + ps[0].len(), doi) is Some {
        parse_kind(s, at + ps[0].len(), doi)
    } else {
        first_match(s, at, ps.drop_first(), doi)
    }
}

/// An explicitly prefixed identifier at `at`: a DOI prefix wins over an
/// arXiv one. Gives the end, whether it is a DOI, and the value.
pub open spec fn prefixed(s: Seq<char>, at: int) -> Option<(int, bool, Seq<char>)> {
    match first_match(s, at, doi_prefixes(), true) {
        Some((e, v)) => Some((e, true, v)),
        None => match first_match(s, at, arxiv_prefixes(), false) {
            Some((e, v)) => Some((e, false, v)),
            None => None,
        },
    }
}

/// Every explicitly prefixed identifier from `i` on, scanning left to right
/// and resuming after each one found: (is DOI, value, start, length).
pub open spec fn scan(s: Seq<char>, i: int) -> Seq<(bool, Seq<char>, int, int)>
    decreases s.len() - i,
{
    if i < 0 || i >= s.len() {
        Seq::empty()
    } else {
        match prefixed(s, i) {
            Some((e, doi, v)) => {
                proof {
                    lemma_prefixed_end(s, i);
                }
                seq![(doi, v, i, e - i)] + scan(
                s,
                if e > i {
                    e
                } else {
                    i + 1
                },
            )
            },
            None => scan(s, i + 1),
        }
    }
}

pub open spec fn occurrence_view(o: CitationOccurrence) -> (bool, Seq<char>, u32, u32) {
    (id_view(o.id).0, id_view(o.id).1, o.start, o.len)
}

pub open spec fn scan_view(x: (bool, Seq<char>, int, int)) -> (bool, Seq<char>, u32, u32) {
    (x.0, x.1, x.2 as u32, x.3 as u32)
}

pub open spec fn is_wrapper(c: char) -> bool {
    c == '<' || c == '>' || c == '"' || c == '\''
}

/// What `parse_citation_id` reads: surrounding whitespace, then surrounding
/// angle brackets and quotes, trimmed away.
pub open spec fn citation_text(s: Seq<char>) -> Seq<char> {
    trim_by(trim_ws(s), wrapper_chars())
}

/// The identifier a URI, metadata string or bare id names: the first
/// explicitly prefixed one, else a bare DOI, else a bare arXiv id.
pub open spec fn citation_of(s: Seq<char>) -> Option<(bool, Seq<char>)> {
    let t = citation_text(s);
    let found = scan(t, 0);
    if found.len() > 0 {
        Some((found[0].0, found[0].1))
    } else {
        match parse_doi(t, 0) {
            Some((_, v)) => Some((true, v)),
            None => match parse_arxiv(t, 0) {
                Some((_, v)) => Some((false, v)),
                None => None,
            },
        }
    }
}

pub open spec fn ends_with(s: Seq<char>, x: Seq<char>) -> bool {
    s.len() >= x.len() && s.skip(s.len() - x.len()) == x
}

pub open spec fn starts_with(s: Seq<char>, x: Seq<char>) -> bool {
    s.len() >= x.len() && s.take(x.len() as int) == x
}

/// A file name without its `.pdf` (or `.PDF`) extension.
pub open spec fn file_stem(s: Seq<char>) -> Seq<char> {
    if ends_with(s, ".pdf"@) {
        s.take(s.len() - 4)
    } else if ends_with(s, ".PDF"@) {
        s.take(s.len() - 4)
    } else {
        s
    }
}

pub open spec fn arxiv_name_prefixes() -> Seq<Seq<char>> {
    seq!["arXiv-"@, "arxiv-"@, "arXiv_"@, "arxiv_"@]
}

pub open spec fn strip_first_prefix(s: Seq<char>, ps: Seq<Seq<char>>) -> Seq<char>
    decreases ps.len(),
{
    if ps.len() == 0 {
        s
    } else if starts_with(s, ps[0]) {
        s.skip(ps[0].len() as int)
    } else {
        strip_first_prefix(s, ps.drop_first())
    }
}

/// A DOI written into a file name with `_` in place of its `/`, at `at`.
pub open spec fn filename_doi_at(stem: Seq<char>, at: int) -> Option<Seq<char>> {
    if !(at_is(stem, at, '1') && at_is(stem, at + 1, '0') && at_is(stem, at + 2, '.')) {
        None
    } else {
        let sep = at + 3 + run(stem, at + 3, digits());
        if !at_is(stem, sep, '_') {
            None
        } else {
            match parse_doi(stem.skip(at).update(sep - at, '/'), 0) {
                Some((_, v)) => Some(v),
                None => None,
            }
        }
    }
}

/// The first file-name DOI at or after `at`, trying every start before the
/// last three characters.
pub open spec fn filename_doi(stem: Seq<char>, at: int) -> Option<Seq<char>>
    decreases stem.len() - at,
{
    if at < 0 || at >= stem.len() - 3 {
        None
    } else {
        match filename_doi_at(stem, at) {
            Some(v) => Some(v),
            None => filename_doi(stem, at + 1),
        }
    }
}

/// What a library file name says about its citation: an arXiv id after an
/// optional `arXiv-`/`arXiv_` prefix, else a DOI with its slash written as
/// an underscore.
pub open spec fn citation_of_filename(name: Seq<char>) -> Option<(bool, Seq<char>)> {
    let stem = file_stem(name);
    let candidate = strip_first_prefix(stem, arxiv_name_prefixes());
    match citation_of(candidate) {
        Some((false, v)) => Some((false, v)),
        _ => match filename_doi(stem, 0) {
            Some(v) => Some((true, v)),
            None => None,
        },
    }
}

// ---------------------------------------------------------------------------
// Executable parsers.

/// Length of the run of characters satisfying `p` (decided by `f`) at `from`.
fn run_len<F: Fn(char) -> bool>(v: &[char], from: usize, f: F, Ghost(p): Ghost<spec_fn(char) -> bool>) -> (n: usize)
    requires
        forall|c: char| #[trigger] f.requires((c,)),
        forall|c: char, r: bool| f.ensures((c,), r) ==> r == p(c),
    ensures
        n == run(v@, from as int, p),
        from + n <= v@.len() || n == 0,
        from + n <= usize::MAX,
{
    if from > v.len() {
        return 0;
    }
    let e = skip_while(v, from, f, Ghost(p));
    proof {
        lemma_lead_bound(v@.skip(from as int), p);
    }
    e - from
}

fn digit_run(v: &[char], from: usize) -> (n: usize)
    ensures
        n == run(v@, from as int, digits()),
        from + n <= v@.len() || n == 0,
        from + n <= usize::MAX,
        forall|i: int| from <= i < from + n ==> is_digit(#[trigger] v@[i]),
{
    let n = run_len(v, from, ascii_digit, Ghost(digits()));
    proof {
        if from <= v@.len() {
            lemma_lead_bound(v@.skip(from as int), digits());
            assert forall|i: int| from <= i < from + n implies is_digit(#[trigger] v@[i]) by {
                assert(v@[i] == v@.skip(from as int)[i - from]);
            }
        }
    }
    n
}

fn doi_suffix_char(c: char) -> (r: bool)
    ensures
        r == doi_suffix(c),
{
    ascii_alnum(c) || c == '.' || c == '_' || c == ';' || c == '(' || c == ')' || c == '/' || c
        == ':' || c == '-' || c == ','
}

fn legacy_category_char(c: char) -> (r: bool)
    ensures
        r == legacy_category(c),
{
    ascii_alnum(c) || c == '.' || c == '-'
}

fn is_at(v: &[char], i: usize, c: char) -> (r: bool)
    ensures
        r == at_is(v@, i as int, c),
{
    i < v.len() && v[i] == c
}

fn digit_is_at(v: &[char], i: usize) -> (r: bool)
    ensures
        r == digit_at(v@, i as int),
{
    i < v.len() && ascii_digit(v[i])
}

fn lowercase_all(v: &[char], from: usize, to: usize) -> (r: Vec<char>)
    requires
        from <= to <= v@.len(),
    ensures
        r@ == v@.subrange(from as int, to as int).map_values(|c: char| lower(c)),
{
    let mut r: Vec<char> = Vec::new();
    let mut i = from;
    while i < to
        invariant
            from <= i <= to <= v@.len(),
            r@ == v@.subrange(from as int, i as int).map_values(|c: char| lower(c)),
        decreases to - i,
    {
        r.push(to_lower(v[i]));
        i += 1;
        proof {
            assert(r@ =~= v@.subrange(from as int, i as int).map_values(|c: char| lower(c)));
        }
    }
    r
}

fn parse_doi_at(v: &[char], at: usize) -> (r: Option<(usize, Vec<char>)>)
    requires
        at <= usize::MAX - 64,
    ensures
        match parse_doi(v@, at as int) {
            Some((e, val)) => r matches Some((e2, val2)) && e2 == e && val2@ == val,
            None => r is None,
        },
{
    if !(is_at(v, at, '1') && is_at(v, at + 1, '0') && is_at(v, at + 2, '.')) {
        return None;
    }
    let d = digit_run(v, at + 3);
    if !(4 <= d && d <= 9 && is_at(v, at + 3 + d, '/')) {
        return None;
    }
    let st = at + 4 + d;
    let ghost sp = suffix_chars();
    let e0 = st + run_len(v, st, doi_suffix_char, Ghost(sp));
    let ghost tp = trailer_chars();
    let mut e = e0;
    proof {
        lemma_trail_bound(v@.subrange(st as int, e0 as int), tp);
    }
    while e > st && (v[e - 1] == '.' || v[e - 1] == ',' || v[e - 1] == ')' || v[e - 1] == ';')
        invariant
            st <= e <= e0 <= v@.len(),
            tp == trailer_chars(),
            trail(v@.subrange(st as int, e0 as int), tp) == (e0 - e) + trail(
                v@.subrange(st as int, e as int),
                tp,
            ),
        decreases e,
    {
        proof {
            assert(v@.subrange(st as int, e as int).drop_last() =~= v@.subrange(
                st as int,
                e - 1,
            ));
            assert(v@.subrange(st as int, e as int).last() == v@[e - 1]);
            assert(tp(v@[e - 1]));
            assert(trail(v@.subrange(st as int, e as int), tp) == 1 + trail(
                v@.subrange(st as int, e - 1),
                tp,
            ));
        }
        e -= 1;
    }
    if e == st {
        return None;
    }
    Some((e, lowercase_all(v, at, e)))
}

fn version_end_at(v: &[char], ne: usize) -> (r: Option<usize>)
    requires
        ne <= v@.len(),
    ensures
        r == (match version_end(v@, ne as int) {
            Some(e) => Some(e as usize),
            None => None::<usize>,
        }),
        r matches Some(e) ==> ne <= e <= v@.len(),
{
    let len = v.len();
    proof {
        lemma_version_end(v@, ne as int);
    }
    if is_at(v, ne, 'v') || is_at(v, ne, 'V') {
        let vl = digit_run(v, ne + 1);
        if vl == 0 {
            None
        } else {
            assert(ne + 1 + vl <= v@.len());
            Some(ne + 1 + vl)
        }
    } else {
        Some(ne)
    }
}

fn boundary_at(v: &[char], e: usize) -> (r: bool)
    ensures
        r == id_boundary(v@, e as int),
{
    !(e < v.len() && (ascii_alnum(v[e]) || v[e] == '_'))
}

fn parse_modern_arxiv_at(v: &[char], at: usize) -> (r: Option<(usize, Vec<char>)>)
    requires
        at <= usize::MAX - 32,
    ensures
        match parse_modern_arxiv(v@, at as int) {
            Some((e, val)) => r matches Some((e2, val2)) && e2 == e && val2@ == val,
            None => r is None,
        },
{
    if !(digit_is_at(v, at) && digit_is_at(v, at + 1) && digit_is_at(v, at + 2) && digit_is_at(
        v,
        at + 3,
    ) && is_at(v, at + 4, '.')) {
        return None;
    }
    let d = digit_run(v, at + 5);
    if !(4 <= d && d <= 5) {
        return None;
    }
    let ne = at + 5 + d;
    assert(ne <= v@.len());
    let _len = v.len();
    proof {
        lemma_version_end(v@, ne as int);
    }
    match version_end_at(v, ne) {
        Some(e) => if boundary_at(v, e) {
            Some((e, slice_chars(v, at, ne)))
        } else {
            None
        },
        None => None,
    }
}

fn parse_legacy_arxiv_at(v: &[char], at: usize) -> (r: Option<(usize, Vec<char>)>)
    requires
        at <= usize::MAX - 64,
    ensures
        match parse_legacy_arxiv(v@, at as int) {
            Some((e, val)) => r matches Some((e2, val2)) && e2 == e && val2@ == val,
            None => r is None,
        },
{
    let ghost lp = category_chars();
    let c = run_len(v, at, legacy_category_char, Ghost(lp));
    if !(1 <= c && c <= 25 && is_at(v, at + c, '/')) {
        return None;
    }
    let ds = at + c + 1;
    if digit_run(v, ds) != 7 {
        return None;
    }
    let ne = ds + 7;
    assert(ne <= v@.len());
    let _len = v.len();
    proof {
        lemma_version_end(v@, ne as int);
    }
    match version_end_at(v, ne) {
        Some(e) => if boundary_at(v, e) {
            Some((e, slice_chars(v, at, ne)))
        } else {
            None
        },
        None => None,
    }
}

fn parse_arxiv_at(v: &[char], at: usize) -> (r: Option<(usize, Vec<char>)>)
    requires
        at <= usize::MAX - 64,
    ensures
        match parse_arxiv(v@, at as int) {
            Some((e, val)) => r matches Some((e2, val2)) && e2 == e && val2@ == val,
            None => r is None,
        },
{
    match parse_modern_arxiv_at(v, at) {
        Some(r) => Some(r),
        None => parse_legacy_arxiv_at(v, at),
    }
}

fn starts_ascii_case_insensitive(v: &[char], at: usize, prefix: &[char]) -> (r: bool)
    ensures
        r == starts_ci(v@, at as int, prefix@),
{
    let len = v.len();
    if at > len || prefix.len() > len - at {
        return false;
    }
    let mut j: usize = 0;
    while j < prefix.len()
        invariant
            len == v@.len(),
            at <= v@.len(),
            at + prefix@.len() <= v@.len(),
            j <= prefix@.len(),
            forall|k: int| 0 <= k < j ==> lower(#[trigger] v@[at + k]) == lower(prefix@[k]),
        decreases prefix@.len() - j,
    {
        if to_lower(v[at + j]) != to_lower(prefix[j]) {
            return false;
        }
        j += 1;
    }
    true
}

fn doi_prefix_list() -> (r: Vec<&'static str>)
    ensures
        r@.map_values(|p: &str| p@) == doi_prefixes(),
{
    let r = vec!["https://doi.org/", "http://doi.org/", "http://dx.doi.org/", "doi:"];
    assert(r@.map_values(|p: &str| p@) =~= doi_prefixes());
    r
}

fn arxiv_prefix_list() -> (r: Vec<&'static str>)
    ensures
        r@.map_values(|p: &str| p@) == arxiv_prefixes(),
{
    let r = vec![
        "https://arxiv.org/abs/",
        "http://arxiv.org/abs/",
        "arxiv.org/abs/",
        "https://arxiv.org/pdf/",
        "http://arxiv.org/pdf/",
        "arxiv.org/pdf/",
        "arxiv:",
    ];
    assert(r@.map_values(|p: &str| p@) =~= arxiv_prefixes());
    r
}

fn first_match_at(v: &[char], at: usize, prefixes: &Vec<&'static str>, doi: bool) -> (r: Option<(usize, Vec<char>)>)
    requires
        at <= usize::MAX - 128,
        forall|k: int| 0 <= k < prefixes@.len() ==> (#[trigger] prefixes@[k])@.len() <= 32,
    ensures
        match first_match(v@, at as int, prefixes@.map_values(|p: &str| p@), doi) {
            Some((e, val)) => r matches Some((e2, val2)) && e2 == e && val2@ == val,
            None => r is None,
        },
{
    let ghost ps = prefixes@.map_values(|p: &str| p@);
    let mut k: usize = 0;
    assert(ps.skip(0) =~= ps);
    while k < prefixes.len()
        invariant
            at <= usize::MAX - 128,
            forall|q: int| 0 <= q < prefixes@.len() ==> (#[trigger] prefixes@[q])@.len() <= 32,
            k <= prefixes@.len(),
            ps == prefixes@.map_values(|p: &str| p@),
            first_match(v@, at as int, ps, doi) == first_match(v@, at as int, ps.skip(k as int), doi),
        decreases prefixes@.len() - k,
    {
        let p = char_vec(prefixes[k]);
        proof {
            assert(ps.skip(k as int)[0] == p@);
            assert(ps.skip(k as int).drop_first() =~= ps.skip(k + 1));
            assert(p@.len() <= 32);
        }
        if starts_ascii_case_insensitive(v, at, &p) {
            let parsed = if doi {
                parse_doi_at(v, at + p.len())
            } else {
                parse_arxiv_at(v, at + p.len())
            };
            if parsed.is_some() {
                return parsed;
            }
        }
        k += 1;
    }
    None
}

fn prefixed_at(v: &[char], at: usize) -> (r: Option<(usize, CitationIdDto)>)
    requires
        at <= usize::MAX - 128,
    ensures
        match prefixed(v@, at as int) {
            Some((e, doi, val)) => r matches Some((e2, id)) && e2 == e && id_view(id) == (doi, val),
            None => r is None,
        },
{
    let dois = doi_prefix_list();
    proof {
        assert forall|k: int| 0 <= k < dois@.len() implies (#[trigger] dois@[k])@.len() <= 32 by {
            assert(dois@[k]@ == doi_prefixes()[k]);
            reveal_strlit("https://doi.org/");
            reveal_strlit("http://doi.org/");
            reveal_strlit("http://dx.doi.org/");
            reveal_strlit("doi:");
        }
    }
    if let Some((e, val)) = first_match_at(v, at, &dois, true) {
        return Some((e, CitationIdDto::Doi(string_of(&val))));
    }
    let arxivs = arxiv_prefix_list();
    proof {
        assert forall|k: int| 0 <= k < arxivs@.len() implies (#[trigger] arxivs@[k])@.len() <= 32 by {
            assert(arxivs@[k]@ == arxiv_prefixes()[k]);
            reveal_strlit("https://arxiv.org/abs/");
            reveal_strlit("http://arxiv.org/abs/");
            reveal_strlit("arxiv.org/abs/");
            reveal_strlit("https://arxiv.org/pdf/");
            reveal_strlit("http://arxiv.org/pdf/");
            reveal_strlit("arxiv.org/pdf/");
            reveal_strlit("arxiv:");
        }
    }
    if let Some((e, val)) = first_match_at(v, at, &arxivs, false) {
        return Some((e, CitationIdDto::ArXiv(string_of(&val))));
    }
    None
}

fn find_citations_in(v: &[char]) -> (out: Vec<CitationOccurrence>)
    requires
        v@.len() <= usize::MAX - 256,
    ensures
        out@.map_values(|o: CitationOccurrence| occurrence_view(o)) == scan(v@, 0).map_values(
            |x: (bool, Seq<char>, int, int)| scan_view(x),
        ),
{
    let mut out: Vec<CitationOccurrence> = Vec::new();
    let mut index: usize = 0;
    while index < v.len()
        invariant
            v@.len() <= usize::MAX - 256,
            index <= v@.len(),
            scan(v@, 0).map_values(|x: (bool, Seq<char>, int, int)| scan_view(x)) == out@.map_values(
                |o: CitationOccurrence| occurrence_view(o),
            ) + scan(v@, index as int).map_values(|x: (bool, Seq<char>, int, int)| scan_view(x)),
        decreases v@.len() - index,
    {
        let ghost before = out@;
        proof {
            lemma_prefixed_end(v@, index as int);
        }
        match prefixed_at(v, index) {
            Some((end, id)) => {
                let len: usize = if end > index {
                    end - index
                } else {
                    0
                };
                let occ = CitationOccurrence { id, start: index as u32, len: len as u32 };
                out.push(occ);
                let next = if end > index {
                    end
                } else {
                    index + 1
                };
                proof {
                    let sv = |x: (bool, Seq<char>, int, int)| scan_view(x);
                    let ov = |o: CitationOccurrence| occurrence_view(o);
                    let (e, doi, val) = prefixed(v@, index as int).unwrap();
                    assert(scan(v@, index as int) == seq![(doi, val, index as int, e - index)] + scan(
                        v@,
                        next as int,
                    ));
                    assert(out@.map_values(ov) =~= before.map_values(ov).push(occurrence_view(occ)));
                    assert(scan(v@, index as int).map_values(sv) =~= seq![scan_view((doi, val, index as int, e - index))]
                        + scan(v@, next as int).map_values(sv));
                    assert(occurrence_view(occ) == scan_view((doi, val, index as int, e - index)));
                    assert(before.map_values(ov) + scan(v@, index as int).map_values(sv) =~= out@.map_values(ov)
                        + scan(v@, next as int).map_values(sv));
                }
                index = next;
            },
            None => {
                index += 1;
            },
        }
    }
    proof {
        assert(scan(v@, index as int) =~= Seq::<(bool, Seq<char>, int, int)>::empty());
        assert(out@.map_values(|o: CitationOccurrence| occurrence_view(o)) + Seq::empty() =~= out@.map_values(
            |o: CitationOccurrence| occurrence_view(o),
        ));
    }
    out
}

/// Finds only unambiguous, explicitly-prefixed identifiers in page text.
pub fn find_explicit_citations(text: &str) -> (out: Vec<CitationOccurrence>)
    requires
        text@.len() <= usize::MAX - 256,
    ensures
        out@.map_values(|o: CitationOccurrence| occurrence_view(o)) == scan(text@, 0).map_values(
            |x: (bool, Seq<char>, int, int)| scan_view(x),
        ),
{
    let v = char_vec(text);
    find_citations_in(&v)
}

fn wrapper_char(c: char) -> (r: bool)
    ensures
        r == is_wrapper(c),
{
    c == '<' || c == '>' || c == '"' || c == '\''
}

fn citation_in(raw: &[char]) -> (r: Option<CitationIdDto>)
    requires
        raw@.len() <= usize::MAX - 256,
    ensures
        match citation_of(raw@) {
            Some(x) => r matches Some(id) && id_view(id) == x,
            None => r is None,
        },
{
    let t1 = trim_chars(raw, space, Ghost(spaces()));
    let t = trim_chars(&t1, wrapper_char, Ghost(wrapper_chars()));
    proof {
        assert(t@ == citation_text(raw@));
        lemma_trim_len(raw@);
    }
    let mut found = find_citations_in(&t);
    if found.len() > 0 {
        let ghost all = found@;
        let first = found.remove(0);
        proof {
            let sv = |x: (bool, Seq<char>, int, int)| scan_view(x);
            let ov = |o: CitationOccurrence| occurrence_view(o);
            assert(first == all[0]);
            assert(scan(t@, 0).map_values(sv).len() == all.len());
            assert(all.map_values(ov)[0] == occurrence_view(first));
            assert(scan(t@, 0).map_values(sv)[0] == scan_view(scan(t@, 0)[0]));
            assert(id_view(first.id) == (scan(t@, 0)[0].0, scan(t@, 0)[0].1));
        }
        return Some(first.id);
    }
    proof {
        assert(scan(t@, 0).len() == 0) by {
            let sv = |x: (bool, Seq<char>, int, int)| scan_view(x);
            assert(scan(t@, 0).map_values(sv).len() == 0);
        }
    }
    if let Some((_, val)) = parse_doi_at(&t, 0) {
        return Some(CitationIdDto::Doi(string_of(&val)));
    }
    match parse_arxiv_at(&t, 0) {
        Some((_, val)) => Some(CitationIdDto::ArXiv(string_of(&val))),
        None => None,
    }
}

proof fn lemma_trim_len(s: Seq<char>)
    ensures
        citation_text(s).len() <= s.len(),
{
    let t1 = trim_ws(s);
    lemma_lead_bound(s, spaces());
    let a = trim_start_by(s, spaces());
    lemma_trail_bound(a, spaces());
    lemma_lead_bound(t1, wrapper_chars());
    lemma_trail_bound(trim_start_by(t1, wrapper_chars()), wrapper_chars());
}

/// Parses a citation from a URI, metadata string, or normalized bare id.
pub fn parse_citation_id(input: &str) -> (r: Option<CitationIdDto>)
    requires
        input@.len() <= usize::MAX - 256,
    ensures
        match citation_of(input@) {
            Some(x) => r matches Some(id) && id_view(id) == x,
            None => r is None,
        },
{
    let v = char_vec(input);
    citation_in(&v)
}

fn arxiv_name_prefix_list() -> (r: Vec<&'static str>)
    ensures
        r@.map_values(|p: &str| p@) == arxiv_name_prefixes(),
{
    let r = vec!["arXiv-", "arxiv-", "arXiv_", "arxiv_"];
    assert(r@.map_values(|p: &str| p@) =~= arxiv_name_prefixes());
    r
}

fn strip_arxiv_prefix(stem: &[char]) -> (r: Vec<char>)
    ensures
        r@ == strip_first_prefix(stem@, arxiv_name_prefixes()),
{
    let prefixes = arxiv_name_prefix_list();
    let ghost ps = prefixes@.map_values(|p: &str| p@);
    let mut k: usize = 0;
    assert(ps.skip(0) =~= ps);
    while k < prefixes.len()
        invariant
            k <= prefixes@.len(),
            ps == prefixes@.map_values(|p: &str| p@),
            ps == arxiv_name_prefixes(),
            strip_first_prefix(stem@, ps) == strip_first_prefix(stem@, ps.skip(k as int)),
        decreases prefixes@.len() - k,
    {
        let p = char_vec(prefixes[k]);
        proof {
            assert(ps.skip(k as int)[0] == p@);
            assert(ps.skip(k as int).drop_first() =~= ps.skip(k + 1));
        }
        if starts_with_chars(stem, &p) {
            return slice_chars(stem, p.len(), stem.len());
        }
        k += 1;
    }
    proof {
        assert(ps.skip(k as int).len() == 0);
    }
    slice_chars(stem, 0, stem.len())
}

fn filename_doi_at_exec(stem: &[char], at: usize) -> (r: Option<Vec<char>>)
    requires
        at + 3 < stem@.len(),
        stem@.len() <= usize::MAX - 256,
    ensures
        match filename_doi_at(stem@, at as int) {
            Some(v) => r matches Some(w) && w@ == v,
            None => r is None,
        },
{
    if !(stem[at] == '1' && stem[at + 1] == '0' && stem[at + 2] == '.') {
        return None;
    }
    let sep = at + 3 + digit_run(stem, at + 3);
    if !is_at(stem, sep, '_') {
        return None;
    }
    let mut doi_chars = slice_chars(stem, at, stem.len());
    doi_chars.set(sep - at, '/');
    proof {
        assert(doi_chars@ =~= stem@.skip(at as int).update(sep - at, '/'));
    }
    match parse_doi_at(&doi_chars, 0) {
        Some((_, v)) => Some(v),
        None => None,
    }
}

/// Fast filename recognition used before opening a library PDF.
pub fn citation_from_filename(name: &str) -> (r: Option<CitationIdDto>)
    requires
        name@.len() <= usize::MAX - 256,
    ensures
        match citation_of_filename(name@) {
            Some(x) => r matches Some(id) && id_view(id) == x,
            None => r is None,
        },
{
    let v = char_vec(name);
    let lower_ext = char_vec(".pdf");
    let upper_ext = char_vec(".PDF");
    proof {
        reveal_strlit(".pdf");
        reveal_strlit(".PDF");
    }
    let stem_len = if ends_with_chars(&v, &lower_ext) || ends_with_chars(&v, &upper_ext) {
        v.len() - 4
    } else {
        v.len()
    };
    let stem = slice_chars(&v, 0, stem_len);
    proof {
        assert(stem@ =~= file_stem(name@));
    }
    let candidate = strip_arxiv_prefix(&stem);
    proof {
        let ps = arxiv_name_prefixes();
        lemma_strip_len(stem@, ps);
    }
    let from_candidate = citation_in(&candidate);
    if let Some(CitationIdDto::ArXiv(value)) = from_candidate {
        return Some(CitationIdDto::ArXiv(value));
    }
    proof {
        if let Some((doi, v)) = citation_of(candidate@) {
            assert(doi);
        }
        assert(citation_of_filename(name@) == match filename_doi(stem@, 0) {
            Some(v) => Some((true, v)),
            None => None::<(bool, Seq<char>)>,
        });
    }
    let n = stem.len();
    let limit: usize = if n >= 3 {
        n - 3
    } else {
        0
    };
    let mut at: usize = 0;
    proof {
        if n < 3 {
            assert(filename_doi(stem@, 0) is None);
        }
    }
    while at < limit
        invariant
            n == stem@.len(),
            n <= usize::MAX - 256,
            limit == (if n >= 3 {
                n - 3
            } else {
                0
            }),
            at <= limit,
            filename_doi(stem@, 0) == filename_doi(stem@, at as int),
            citation_of_filename(name@) == match filename_doi(stem@, 0) {
                Some(v) => Some((true, v)),
                None => None::<(bool, Seq<char>)>,
            },
        decreases limit - at,
    {
        if let Some(val) = filename_doi_at_exec(&stem, at) {
            return Some(CitationIdDto::Doi(string_of(&val)));
        }
        at += 1;
    }
    None
}

proof fn lemma_strip_len(s: Seq<char>, ps: Seq<Seq<char>>)
    ensures
        strip_first_prefix(s, ps).len() <= s.len(),
    decreases ps.len(),
{
    if ps.len() > 0 && !starts_with(s, ps[0]) {
        lemma_strip_len(s, ps.drop_first());
    }
}

/// Four digits, a full stop and `n` more digits at `at` in `s`, then no
/// letter, digit or underscore: a modern arXiv id with nothing run on.
pub open spec fn modern_id_at(s: Seq<char>, at: int, n: int) -> bool {
    &&& 0 <= at
    &&& n == 4 || n == 5
    &&& at + 5 + n <= s.len()
    &&& forall|j: int| 0 <= j < 4 ==> '0' <= #[trigger] s[at + j] <= '9'
    &&& s[at + 4] == '.'
    &&& forall|j: int| 5 <= j < 5 + n ==> '0' <= #[trigger] s[at + j] <= '9'
    &&& (at + 5 + n == s.len() || !(('0' <= s[at + 5 + n] <= '9') || ('a' <= s[at + 5 + n] <= 'z') || (
    'A' <= s[at + 5 + n] <= 'Z') || s[at + 5 + n] == '_'))
}

/// A modern arXiv id, `YYMM.` and four or five digits (the four-digit form
/// is the one used from 2007 to 2014), reads as itself wherever it stands at
/// a word boundary: the parser gives exactly that id and ends right after it.
pub proof fn lemma_modern_arxiv_reads(s: Seq<char>, at: int, n: int)
    requires
        modern_id_at(s, at, n),
    ensures
        parse_modern_arxiv(s, at) == Some((at + 5 + n, s.subrange(at, at + 5 + n))),
        parse_arxiv(s, at) == Some((at + 5 + n, s.subrange(at, at + 5 + n))),
{
    let t = s.skip(at + 5);
    assert forall|i: int| 0 <= i < n implies digits()(#[trigger] t[i]) by {
        let j = 5 + i;
        assert('0' <= s[at + j] <= '9');
        assert(t[i] == s[at + j]);
    }
    if n < t.len() {
        assert(t[n] == s[at + 5 + n]);
    }
    lemma_lead_exact(t, digits(), n);
    assert(run(s, at + 5, digits()) == n);
    assert(digit_at(s, at) && digit_at(s, at + 1) && digit_at(s, at + 2) && digit_at(s, at + 3)) by {
        assert('0' <= s[at + 0] <= '9');
        assert('0' <= s[at + 1] <= '9');
        assert('0' <= s[at + 2] <= '9');
        assert('0' <= s[at + 3] <= '9');
    }
    assert(version_end(s, at + 5 + n) == Some(at + 5 + n));
    assert(id_boundary(s, at + 5 + n));
}

/// A version after a modern arXiv id is read past and dropped: `YYMM.NNNNN`
/// followed by `v` (or `V`) and one or more digits, at a word boundary, reads
/// as the id without its version, ending after the version.
pub proof fn lemma_modern_arxiv_version_dropped(s: Seq<char>, at: int, n: int, m: int)
    requires
        0 <= at,
        n == 4 || n == 5,
        m >= 1,
        at + 6 + n + m <= s.len(),
        forall|j: int| 0 <= j < 4 ==> '0' <= #[trigger] s[at + j] <= '9',
        s[at + 4] == '.',
        forall|j: int| 5 <= j < 5 + n ==> '0' <= #[trigger] s[at + j] <= '9',
        s[at + 5 + n] == 'v' || s[at + 5 + n] == 'V',
        forall|j: int| 6 + n <= j < 6 + n + m ==> '0' <= #[trigger] s[at + j] <= '9',
        at + 6 + n + m == s.len() || !(('0' <= s[at + 6 + n + m] <= '9') || ('a' <= s[at + 6 + n + m]
            <= 'z') || ('A' <= s[at + 6 + n + m] <= 'Z') || s[at + 6 + n + m] == '_'),
    ensures
        parse_arxiv(s, at) == Some((at + 6 + n + m, s.subrange(at, at + 5 + n))),
{
    let t = s.skip(at + 5);
    assert forall|i: int| 0 <= i < n implies digits()(#[trigger] t[i]) by {
        let j = 5 + i;
        assert('0' <= s[at + j] <= '9');
        assert(t[i] == s[at + j]);
    }
    assert(t[n] == s[at + 5 + n]);
    lemma_lead_exact(t, digits(), n);
    let u = s.skip(at + 6 + n);
    assert forall|i: int| 0 <= i < m implies digits()(#[trigger] u[i]) by {
        let j = 6 + n + i;
        assert('0' <= s[at + j] <= '9');
        assert(u[i] == s[at + j]);
    }
    if m < u.len() {
        assert(u[m] == s[at + 6 + n + m]);
    }
    lemma_lead_exact(u, digits(), m);
    assert(digit_at(s, at) && digit_at(s, at + 1) && digit_at(s, at + 2) && digit_at(s, at + 3)) by {
        assert('0' <= s[at + 0] <= '9');
        assert('0' <= s[at + 1] <= '9');
        assert('0' <= s[at + 2] <= '9');
        assert('0' <= s[at + 3] <= '9');
    }
    assert(version_end(s, at + 5 + n) == Some(at + 6 + n + m));
}

/// A number after `YYMM.` of fewer than four or more than five digits is no
/// modern arXiv id.
pub proof fn lemma_modern_arxiv_digit_count(s: Seq<char>, at: int, d: int)
    requires
        0 <= at,
        0 <= d,
        d < 4 || d > 5,
        at + 5 + d <= s.len(),
        forall|j: int| 5 <= j < 5 + d ==> '0' <= #[trigger] s[at + j] <= '9',
        at + 5 + d == s.len() || !('0' <= s[at + 5 + d] <= '9'),
    ensures
        parse_modern_arxiv(s, at) is None,
{
    if at + 5 <= s.len() {
        let t = s.skip(at + 5);
        assert forall|i: int| 0 <= i < d implies digits()(#[trigger] t[i]) by {
            let j = 5 + i;
            assert('0' <= s[at + j] <= '9');
            assert(t[i] == s[at + j]);
        }
        if d < t.len() {
            assert(t[d] == s[at + 5 + d]);
        }
        lemma_lead_exact(t, digits(), d);
    }
}

/// Text that opens and closes with neither white space nor a quote or
/// bracket is read as it stands.
proof fn lemma_nothing_to_trim(s: Seq<char>)
    requires
        s.len() > 0,
        !is_space(s[0]) && !is_wrapper(s[0]),
        !is_space(s[s.len() - 1]) && !is_wrapper(s[s.len() - 1]),
    ensures
        citation_text(s) == s,
{
    lemma_lead_exact(s, spaces(), 0);
    assert(trim_start_by(s, spaces()) =~= s);
    lemma_trail_exact(s, spaces(), 0);
    assert(trim_end_by(s, spaces()) =~= s);
    lemma_lead_exact(s, wrapper_chars(), 0);
    lemma_trail_exact(s, wrapper_chars(), 0);
    assert(trim_start_by(s, wrapper_chars()) =~= s);
    assert(trim_end_by(s, wrapper_chars()) =~= s);
}

/// `arXiv:` followed by an id that reads from position 6 to `e` is an
/// explicitly prefixed arXiv id.
#[verifier::spinoff_prover]
#[verifier::rlimit(40)]
proof fn lemma_arxiv_prefixed(s: Seq<char>, e: int, v: Seq<char>)
    requires
        s.len() >= 6,
        s.take(6) == "arXiv:"@,
        parse_arxiv(s, 6) == Some((e, v)),
    ensures
        prefixed(s, 0) == Some((e, false, v)),
{
    reveal_strlit("arXiv:");
    assert(s[0int] == s.take(6)[0int] && s[5int] == s.take(6)[5int]);
    assert forall|j: int| 0 <= j < 6 implies s[j] == "arXiv:"@[j] by {
        assert(s[j] == s.take(6)[j]);
    }
    let dp = doi_prefixes();
    reveal_strlit("https://doi.org/");
    reveal_strlit("http://doi.org/");
    reveal_strlit("http://dx.doi.org/");
    reveal_strlit("doi:");
    assert forall|k: int| 0 <= k < dp.len() implies !starts_ci(s, 0, #[trigger] dp[k]) by {
        assert(lower(s[0int]) == 'a');
        assert(dp[k][0] == 'h' || dp[k][0] == 'd');
    }
    lemma_no_prefix_matches(s, 0, dp, true);
    let ap = arxiv_prefixes();
    reveal_strlit("https://arxiv.org/abs/");
    reveal_strlit("http://arxiv.org/abs/");
    reveal_strlit("arxiv.org/abs/");
    reveal_strlit("https://arxiv.org/pdf/");
    reveal_strlit("http://arxiv.org/pdf/");
    reveal_strlit("arxiv.org/pdf/");
    reveal_strlit("arxiv:");
    assert(!starts_ci(s, 0, ap[0]) && !starts_ci(s, 0, ap[1]) && !starts_ci(s, 0, ap[3]) && !starts_ci(
        s,
        0,
        ap[4],
    )) by {
        assert(lower(s[0int]) == 'a');
    }
    assert(!starts_ci(s, 0, ap[2]) && !starts_ci(s, 0, ap[5])) by {
        let j: int = 5;
        assert(s[j] == "arXiv:"@[j]);
        assert(ap[2][j] == '.' && ap[5][j] == '.');
        assert(lower(s[0 + j]) != lower(ap[2][j]));
        assert(lower(s[0 + j]) != lower(ap[5][j]));
    }
    assert(starts_ci(s, 0, ap[6])) by {
        assert forall|j: int| 0 <= j < ap[6].len() implies lower(#[trigger] s[0 + j]) == lower(ap[6][j]) by {
            assert(s[j] == "arXiv:"@[j]);
        }
    }
    let ap1 = ap.drop_first();
    let ap2 = ap1.drop_first();
    let ap3 = ap2.drop_first();
    let ap4 = ap3.drop_first();
    let ap5 = ap4.drop_first();
    let ap6 = ap5.drop_first();
    assert(ap6[0] == ap[6] && ap5[0] == ap[5] && ap4[0] == ap[4] && ap3[0] == ap[3] && ap2[0] == ap[2]
        && ap1[0] == ap[1]);
    assert(first_match(s, 0, ap6, false) == Some((e, v)));
    assert(first_match(s, 0, ap5, false) == Some((e, v)));
    assert(first_match(s, 0, ap4, false) == Some((e, v)));
    assert(first_match(s, 0, ap3, false) == Some((e, v)));
    assert(first_match(s, 0, ap2, false) == Some((e, v)));
    assert(first_match(s, 0, ap1, false) == Some((e, v)));
    assert(first_match(s, 0, ap, false) == Some((e, v)));
}

/// A citation written `arXiv:YYMM.NNNN` or `arXiv:YYMM.NNNNN` names that
/// arXiv id.
pub proof fn lemma_arxiv_citation_reads(id: Seq<char>, n: int)
    requires
        modern_id_at(id, 0, n),
        id.len() == 5 + n,
    ensures
        citation_of("arXiv:"@ + id) == Some((false, id)),
{
    reveal_strlit("arXiv:");
    let s = "arXiv:"@ + id;
    assert(s.len() == 11 + n);
    assert forall|j: int| 0 <= j < id.len() implies s[6 + j] == id[j] by {}
    assert(s[0int] == 'a');
    assert(s[s.len() - 1] == id[4 + n]);
    assert('0' <= id[0 + (4 + n)] <= '9');
    lemma_nothing_to_trim(s);
    assert(modern_id_at(s, 6, n)) by {
        assert forall|j: int| 0 <= j < 4 implies '0' <= #[trigger] s[6 + j] <= '9' by {
            assert(s[6 + j] == id[j]);
            assert('0' <= id[0 + j] <= '9');
        }
        assert forall|j: int| 5 <= j < 5 + n implies '0' <= #[trigger] s[6 + j] <= '9' by {
            assert(s[6 + j] == id[j]);
            assert('0' <= id[0 + j] <= '9');
        }
        assert(s[10int] == id[4int]);
    }
    lemma_modern_arxiv_reads(s, 6, n);
    assert(s.subrange(6, 11 + n) =~= id);
    assert(s.take(6) =~= "arXiv:"@);
    lemma_arxiv_prefixed(s, 11 + n, id);
    assert(scan(s, 0)[0] == (false, id, 0int, 11 + n));
}

proof fn lemma_no_prefix_matches(s: Seq<char>, at: int, ps: Seq<Seq<char>>, doi: bool)
    requires
        forall|k: int| 0 <= k < ps.len() ==> !starts_ci(s, at, #[trigger] ps[k]),
    ensures
        first_match(s, at, ps, doi) is None,
    decreases ps.len(),
{
    if ps.len() > 0 {
        assert(!starts_ci(s, at, ps[0]));
        assert forall|k: int| 0 <= k < ps.drop_first().len() implies !starts_ci(s, at, #[trigger] ps.drop_first()[k]) by {
            assert(ps.drop_first()[k] == ps[k + 1]);
        }
        lemma_no_prefix_matches(s, at, ps.drop_first(), doi);
    }
}

} // verus!
