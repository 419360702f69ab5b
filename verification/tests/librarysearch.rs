use speedyf::gramindex::GramIndex;
use speedyf::librarysearch::{ruled_in_paths, LibrarySearch, LibraryStep};
use speedyf::librarytext::{IndexedDocument, LibraryDocument};
use speedyf::search::{prepare_query, PageEntry};
use speedyf::trigram::Filter;
use speedyf::types::LibraryHitDto;

/// A document's stored text, as the library keeps it on disk: the pages,
/// and the filter, scan copy and sidecar bytes made from them.
struct Stored {
    document: LibraryDocument,
    pages: Vec<(u32, String)>,
}

fn stored(name: &str, pages: &[(u32, &str)]) -> Stored {
    Stored {
        document: LibraryDocument {
            path: format!("/lib/{name}"),
            title: None,
            mtime_ms: 1,
            size: 2,
        },
        pages: pages.iter().map(|(src, text)| (*src, text.to_string())).collect(),
    }
}

fn entries(s: &Stored) -> Vec<(u32, PageEntry)> {
    s.pages
        .iter()
        .map(|(src, raw)| (*src, PageEntry::new(raw, raw.chars().count() as u32)))
        .collect()
}

fn json_escaped(text: &str) -> String {
    let mut out = String::new();
    for c in text.chars() {
        match c {
            '"' => out.push_str("\\\""),
            '\\' => out.push_str("\\\\"),
            '\n' => out.push_str("\\n"),
            c if c.is_control() => out.push_str(&format!("\\u{:04x}", c as u32)),
            c => out.push(c),
        }
    }
    out
}

/// The sidecar's bytes: each page's normalized and folded text, escaped the
/// way JSON escapes them.
fn sidecar_bytes(s: &Stored) -> Vec<u8> {
    let mut out = String::from("{\"pages\":[");
    for (_, entry) in entries(s) {
        out.push_str(&format!(
            "{{\"text\":\"{}\",\"folded\":\"{}\"}},",
            json_escaped(entry.normalized_text()),
            json_escaped(entry.folded_text())
        ));
    }
    out.push_str("]}");
    out.into_bytes()
}

fn scan_copy(s: &Stored) -> String {
    speedyf::librarysearch::scan_copy(&entries(s))
}

fn filter(s: &Stored) -> Filter {
    speedyf::librarysearch::document_filter(&entries(s))
}

fn run(
    library: &[Stored],
    index: Option<&GramIndex>,
    query: &str,
    case_sensitive: bool,
    per_document_limit: usize,
    document_limit: usize,
) -> (Vec<LibraryHitDto>, bool) {
    let documents: Vec<LibraryDocument> = library
        .iter()
        .map(|s| LibraryDocument {
            path: s.document.path.clone(),
            title: s.document.title.clone(),
            mtime_ms: s.document.mtime_ms,
            size: s.document.size,
        })
        .collect();
    let folded = prepare_query(query, false);
    let allowed = index.and_then(|index| ruled_in_paths(index, &index.candidates(&folded)));
    let mut search = LibrarySearch::begin(
        query,
        case_sensitive,
        per_document_limit,
        document_limit,
        allowed,
        &documents,
    );
    loop {
        match search.step() {
            LibraryStep::Filter(i) => search.filter_read(&documents, Some(&filter(&library[i]))),
            LibraryStep::Scan(i) => search.scan_read(&documents, Some(&scan_copy(&library[i]))),
            LibraryStep::Sidecar(i) => {
                search.sidecar_read(&documents, Some(&sidecar_bytes(&library[i])))
            }
            LibraryStep::Parse(i) => {
                let indexed = IndexedDocument { pages: entries(&library[i]) };
                search.parsed(&documents, Some(&indexed));
            }
            LibraryStep::Done => break,
        }
    }
    search.finish()
}

fn gram_index(library: &[Stored]) -> GramIndex {
    GramIndex::build(
        library
            .iter()
            .map(|s| (s.document.path.clone(), Some(scan_copy(s).into_bytes())))
            .collect(),
        1,
    )
}

#[test]
fn a_phrase_broken_across_lines_still_matches() {
    let library = vec![stored("a.pdf", &[(0, "variance\ncollapse on")])];
    let (hits, _) = run(&library, None, "variance collapse", false, 10, 10);
    assert_eq!(hits.len(), 1);
}

#[test]
fn a_query_with_a_quote_still_searches() {
    let library = vec![stored("a.pdf", &[(0, r#"he said "hello" loudly"#)])];
    let (hits, _) = run(&library, None, r#""hello""#, false, 10, 10);
    assert_eq!(hits.len(), 1, "a quoted phrase must still be findable");
}

#[test]
fn the_gram_index_narrows_without_losing_anything() {
    let library = vec![
        stored("a.pdf", &[(0, "variance collapse under smoothing")]),
        stored("b.pdf", &[(0, "quaternion algebra and smoothing")]),
        stored("c.pdf", &[(2, "the variance of the estimator")]),
    ];
    let index = gram_index(&library);
    let (with_index, _) = run(&library, Some(&index), "variance", false, 10, 10);
    let (without, _) = run(&library, None, "variance", false, 10, 10);
    let names = |hits: &[LibraryHitDto]| hits.iter().map(|h| h.name.clone()).collect::<Vec<_>>();
    assert_eq!(names(&with_index), names(&without));
    assert_eq!(names(&with_index), vec!["a.pdf", "c.pdf"]);
}

#[test]
fn a_capitalized_query_still_finds_lowercase_text() {
    let library = vec![stored("a.pdf", &[(0, "Variance Collapse")])];
    let index = gram_index(&library);
    let (hits, _) = run(&library, Some(&index), "Variance Collapse", true, 10, 10);
    assert_eq!(hits.len(), 1, "a case-sensitive match must survive the filters");
}

#[test]
fn an_empty_query_matches_nothing() {
    let library = vec![stored("a.pdf", &[(0, "text")])];
    let (hits, truncated) = run(&library, None, "   ", false, 10, 10);
    assert!(hits.is_empty());
    assert!(!truncated);
}

#[test]
fn the_document_limit_reports_itself() {
    let library: Vec<Stored> = (0..4)
        .map(|i| stored(&format!("{i}.pdf"), &[(0, "shared term")]))
        .collect();
    let (hits, truncated) = run(&library, None, "shared", false, 10, 2);
    assert_eq!(hits.len(), 2);
    assert!(truncated, "a capped result set must say so");
}

#[test]
fn a_document_with_nothing_stored_is_skipped() {
    let documents = vec![LibraryDocument {
        path: "/lib/new.pdf".into(),
        title: None,
        mtime_ms: 1,
        size: 2,
    }];
    let mut search = LibrarySearch::begin("term", false, 10, 10, None, &documents);
    assert_eq!(search.step(), LibraryStep::Filter(0));
    search.filter_read(&documents, None);
    assert_eq!(search.step(), LibraryStep::Scan(0));
    search.scan_read(&documents, None);
    assert_eq!(search.step(), LibraryStep::Sidecar(0));
    search.sidecar_read(&documents, None);
    assert_eq!(search.step(), LibraryStep::Done);
    let (hits, truncated) = search.finish();
    assert!(hits.is_empty() && !truncated);
}

#[test]
fn a_scan_copy_without_the_query_skips_the_sidecar() {
    let documents = vec![
        LibraryDocument { path: "/lib/a.pdf".into(), title: None, mtime_ms: 1, size: 2 },
        LibraryDocument { path: "/lib/b.pdf".into(), title: None, mtime_ms: 1, size: 2 },
    ];
    let mut search = LibrarySearch::begin("term", false, 10, 10, None, &documents);
    search.filter_read(&documents, None);
    search.scan_read(&documents, Some("nothing relevant"));
    assert_eq!(search.step(), LibraryStep::Filter(1));
    // the gram index can rule a document out before anything is read
    let ruled = LibrarySearch::begin("term", false, 10, 10, Some(vec!["/lib/b.pdf".into()]), &documents);
    assert_eq!(ruled.step(), LibraryStep::Filter(1));
}

#[test]
fn a_scan_copy_is_each_page_folded_one_line_apiece() {
    let s = stored("a.pdf", &[(0, "Variance\u{201C}X\u{201D}"), (3, "  Two   Spaces ")]);
    let copy = scan_copy(&s);
    assert_eq!(copy.lines().count(), 2);
    assert!(copy.starts_with("variance"));
    assert!(copy.contains("two"));
    assert!(!copy.contains('V'));
}

#[test]
fn a_document_filter_admits_what_any_page_holds() {
    let s = stored("a.pdf", &[(0, "Variance collapse"), (1, "under smoothing")]);
    let f = filter(&s);
    assert!(f.might_contain("variance"));
    assert!(f.might_contain("smoothing"));
    assert!(!f.might_contain("quaternion"));
}

#[test]
fn the_gram_index_rules_in_every_document_with_hits() {
    let library = vec![
        stored("a.pdf", &[(0, "Variance collapse"), (1, "under smoothing")]),
        stored("b.pdf", &[(0, "quaternion algebra")]),
        stored("c.pdf", &[(3, "no variance here"), (4, "VARIANCE again")]),
    ];
    let index = gram_index(&library);
    for (query, case_sensitive) in [("variance", false), ("Variance", true), ("VARIANCE", true), ("smoothing", false)] {
        let folded = prepare_query(query, false);
        let allowed = ruled_in_paths(&index, &index.candidates(&folded));
        let (hits, _) = run(&library, None, query, case_sensitive, 10, 10);
        assert!(!hits.is_empty(), "{query}");
        for hit in &hits {
            if let Some(paths) = &allowed {
                assert!(paths.iter().any(|p| p.ends_with(&hit.name)), "{query}: {}", hit.name);
            }
        }
        let (with_index, truncated) = run(&library, Some(&index), query, case_sensitive, 10, 10);
        let (without, truncated_without) = run(&library, None, query, case_sensitive, 10, 10);
        assert_eq!(with_index.len(), without.len(), "{query}");
        assert_eq!(truncated, truncated_without, "{query}");
    }
    let allowed = ruled_in_paths(&index, &index.candidates(&prepare_query("quaternion", false)));
    assert_eq!(allowed, Some(vec!["/lib/b.pdf".to_string()]));
}

fn run_stored(
    library: &[Stored],
    index: Option<&GramIndex>,
    query: &str,
    case_sensitive: bool,
    document_limit: usize,
) -> (Vec<LibraryHitDto>, bool) {
    let documents: Vec<LibraryDocument> = library
        .iter()
        .map(|s| LibraryDocument {
            path: s.document.path.clone(),
            title: s.document.title.clone(),
            mtime_ms: s.document.mtime_ms,
            size: s.document.size,
        })
        .collect();
    let allowed = index.and_then(|index| {
        ruled_in_paths(index, &index.candidates(&prepare_query(query, false)))
    });
    let mut search = LibrarySearch::begin(query, case_sensitive, 10, document_limit, allowed, &documents);
    let filters: Vec<Option<Filter>> = library.iter().map(|s| Some(filter(s))).collect();
    let scans: Vec<Option<String>> = library.iter().map(|s| Some(scan_copy(s))).collect();
    let sidecars: Vec<Option<Vec<u8>>> = library.iter().map(|s| Some(sidecar_bytes(s))).collect();
    let parsed: Vec<Option<IndexedDocument>> =
        library.iter().map(|s| Some(IndexedDocument { pages: entries(s) })).collect();
    search.run_to_end(&documents, &filters, &scans, &sidecars, &parsed);
    assert_eq!(search.step(), LibraryStep::Done);
    search.finish()
}

#[test]
fn a_search_over_stored_files_answers_alike_with_and_without_the_index() {
    let library = vec![
        stored("a.pdf", &[(0, "variance collapse"), (1, "smoothing variance")]),
        stored("b.pdf", &[(0, "quaternion algebra")]),
        stored("c.pdf", &[(2, "the variance of the estimator")]),
        stored("d.pdf", &[(0, "Variance, capitalized")]),
    ];
    let index = gram_index(&library);
    for (query, case_sensitive, limit) in [
        ("variance", false, 10),
        ("variance", false, 2),
        ("Variance", true, 10),
        ("quaternion", false, 10),
        ("absent words", false, 10),
    ] {
        let with_index = run_stored(&library, Some(&index), query, case_sensitive, limit);
        let without = run_stored(&library, None, query, case_sensitive, limit);
        let view = |r: &(Vec<LibraryHitDto>, bool)| {
            (r.0.iter().map(|h| (h.path.clone(), h.total_matches)).collect::<Vec<_>>(), r.1)
        };
        assert_eq!(view(&with_index), view(&without), "{query}");
        assert!(with_index.0.len() <= limit);
        assert_eq!(view(&with_index), view(&run(&library, Some(&index), query, case_sensitive, 10, limit)));
    }
    let (hits, truncated) = run_stored(&library, Some(&index), "variance", false, 2);
    assert_eq!(hits.len(), 2);
    assert!(truncated);
}

#[test]
fn results_lead_with_the_document_that_says_it_most() {
    let library = vec![
        stored("sparse.pdf", &[(0, "manifold")]),
        stored("dense.pdf", &[(0, "manifold manifold"), (3, "manifold again")]),
    ];
    let (hits, _) = run(&library, None, "manifold", false, 20, 10);
    assert_eq!(hits.len(), 2);
    assert_eq!(hits[0].name, "dense.pdf");
    assert_eq!(hits[0].total_matches, 3);
    // Page numbers survive, so a hit can be opened where it actually is.
    assert_eq!(hits[0].pages[1].src, 3);
}
