use speedyf::library::{
    entry_from_filename, entry_from_first_page, path_within, LibraryEntry,
    LibraryState, ScanCandidate,
};
use speedyf::types::CitationIdDto;

fn candidate(path: &str) -> ScanCandidate {
    ScanCandidate {
        path: path.into(),
        mtime_ms: 1,
        size: 2,
        epoch: 3,
        unchanged: false,
    }
}

fn entry(path: &str, text_indexed: bool) -> LibraryEntry {
    LibraryEntry {
        path: path.into(),
        mtime_ms: 10,
        size: 20,
        doi: None,
        arxiv: None,
        title: None,
        text_indexed,
    }
}

#[test]
fn first_page_metadata_extracts_title_and_both_id_schemes() {
    let entry = entry_from_first_page(
        &candidate("paper.pdf"),
        "A sufficiently descriptive paper title\ndoi:10.1000/ABC\narXiv:2401.12345v2",
    );
    assert_eq!(
        entry.title.as_deref(),
        Some("A sufficiently descriptive paper title")
    );
    assert_eq!(entry.doi.as_deref(), Some("10.1000/abc"));
    assert_eq!(entry.arxiv.as_deref(), Some("2401.12345"));
}

#[test]
fn a_first_page_keeps_the_first_of_each_scheme_and_skips_short_lines() {
    let entry = entry_from_first_page(
        &candidate("/lib/x.pdf"),
        "Short\n   \n  Title long enough to keep  \ndoi:10.1000/first doi:10.2000/second",
    );
    assert_eq!(entry.title.as_deref(), Some("Title long enough to keep"));
    assert_eq!(entry.doi.as_deref(), Some("10.1000/first"));
    assert_eq!(entry.arxiv, None);
    assert_eq!(entry.path, "/lib/x.pdf");
    assert!(!entry.text_indexed);
}

#[test]
fn a_file_named_by_its_identifier_needs_no_opening() {
    let found = entry_from_filename(&candidate("/papers/arXiv-2401.12345v2.pdf")).expect("arXiv name");
    assert_eq!(found.arxiv.as_deref(), Some("2401.12345"));
    assert_eq!(found.doi, None);
    assert_eq!(found.mtime_ms, 1);
    assert!(entry_from_filename(&candidate("/papers/notes.pdf")).is_none());
    assert!(entry_from_filename(&candidate("/")).is_none());
}

#[test]
fn the_library_keeps_the_latest_record_of_each_path_in_path_order() {
    let mut newer = entry("/lib/b.pdf", true);
    newer.size = 99;
    let state = LibraryState::new(
        "/data".into(),
        vec!["/lib".into()],
        vec![entry("/lib/b.pdf", false), entry("/lib/a/z.pdf", false), newer, entry("/lib/a-b.pdf", false)],
    );
    let all = state.all_entries();
    let paths: Vec<&str> = all.iter().map(|e| e.path.as_str()).collect();
    // component order: "/lib/a/z.pdf" sorts before "/lib/a-b.pdf"
    assert_eq!(paths, vec!["/lib/a/z.pdf", "/lib/a-b.pdf", "/lib/b.pdf"]);
    assert_eq!(state.entry_for_path("/lib/b.pdf").expect("kept").size, 99);
    assert!(state.entry_for_path("/lib/c.pdf").is_none());
    let status = state.status();
    assert_eq!(status.text_total, 3);
    assert_eq!(status.text_indexed, 1);
    assert_eq!(status.indexed, 3);
    assert!(!status.scanning);
}

#[test]
fn adding_a_folder_twice_does_not_duplicate_it() {
    let mut state = LibraryState::new("/data".into(), Vec::new(), Vec::new());
    assert!(state.add_root("/one".into()));
    assert!(state.add_root("/two".into()));
    assert!(!state.add_root("/two".into()));
    assert_eq!(state.roots(), vec!["/one".to_string(), "/two".to_string()]);
    let dropped = state.remove_root("/one", &vec![Some("/one".into()), Some("/two".into())], &Vec::new());
    assert!(dropped.is_empty());
    assert_eq!(state.roots(), vec!["/two".to_string()]);
}

#[test]
fn a_scan_visits_each_file_once_in_order_and_ignores_stale_work() {
    let mut state = LibraryState::new("/data".into(), vec!["/lib".into()], vec![entry("/lib/a.pdf", false)]);
    let persist = state.schedule_scan(vec!["/lib/b.pdf".into(), "/lib/a.pdf".into(), "/lib/b.pdf".into()]);
    assert!(!persist);
    assert!(state.has_scan_work());
    assert_eq!(state.status().total, 2);

    let first = state.next_pending().expect("a");
    assert_eq!(first, "/lib/a.pdf");
    let cand = state.candidate(first, 10, 20);
    assert!(cand.unchanged, "known in exactly this state");
    let stale = ScanCandidate { epoch: cand.epoch.wrapping_add(5), ..cand.clone() };
    assert_eq!(state.finish_candidate(&stale, None), None);
    assert_eq!(state.finish_candidate(&cand, None), Some(false));

    let second = state.next_pending().expect("b");
    assert_eq!(second, "/lib/b.pdf");
    let cand = state.candidate(second, 5, 6);
    assert!(!cand.unchanged);
    let mut found = entry("/lib/b.pdf", false);
    found.title = Some("B".into());
    // the queue is now empty, so the index is saved and the scan is over
    assert_eq!(state.finish_candidate(&cand, Some(found)), Some(true));
    assert!(!state.scanning());
    assert_eq!(state.entry_for_path("/lib/b.pdf").unwrap().title.as_deref(), Some("B"));
    assert_eq!(state.next_pending(), None);
    assert!(!state.has_scan_work());
}

#[test]
fn text_extraction_is_offered_once_per_document() {
    let mut state = LibraryState::new(
        "/data".into(),
        Vec::new(),
        vec![entry("/lib/b.pdf", false), entry("/lib/a.pdf", true), entry("/lib/c.pdf", false)],
    );
    assert!(state.has_text_work());
    let next = state.next_text_candidate().expect("b first");
    assert_eq!(next.path, "/lib/b.pdf");
    state.finish_text("/lib/b.pdf");
    assert_eq!(state.next_text_candidate().expect("then c").path, "/lib/c.pdf");
    state.finish_text("/lib/c.pdf");
    assert!(state.next_text_candidate().is_none());
    assert!(!state.has_text_work());
    state.remove_entry("/lib/a.pdf");
    assert_eq!(state.all_entries().len(), 2);
}

#[test]
fn a_citation_resolves_to_the_document_that_carries_it() {
    let mut carrying = entry("/lib/x.pdf", false);
    carrying.doi = Some("10.1000/abc".into());
    let state = LibraryState::new("/data".into(), Vec::new(), vec![entry("/lib/a.pdf", false), carrying]);
    assert_eq!(
        state.resolve_path(&CitationIdDto::Doi("10.1000/abc".into())).as_deref(),
        Some("/lib/x.pdf")
    );
    assert_eq!(state.resolve_path(&CitationIdDto::ArXiv("10.1000/abc".into())), None);
}

#[test]
fn only_documents_with_extracted_text_are_searched() {
    let mut titled = entry("/lib/b.pdf", true);
    titled.title = Some("B".into());
    let mut state = LibraryState::new(
        "/data".into(),
        Vec::new(),
        vec![entry("/lib/c.pdf", true), titled, entry("/lib/a.pdf", false)],
    );
    let docs = state.searchable_documents();
    let paths: Vec<&str> = docs.iter().map(|d| d.path.as_str()).collect();
    assert_eq!(paths, vec!["/lib/b.pdf", "/lib/c.pdf"]);
    assert_eq!(docs[0].title.as_deref(), Some("B"));
    assert!(!state.ready_for_gram_index(), "a.pdf still has text to extract");
    state.finish_text("/lib/a.pdf");
    assert!(state.ready_for_gram_index());
    state.schedule_scan(vec!["/lib/a.pdf".into()]);
    assert!(!state.ready_for_gram_index(), "a scan is under way");
}

#[test]
fn a_hover_card_previews_the_first_page_and_finds_its_title() {
    let runs: Vec<String> = vec![
        "  arXiv  ".into(),
        "".into(),
        "  Variance Collapse Under Smoothing ".into(),
        "   ".into(),
        "We study".into(),
    ];
    let (text, title) = speedyf::library::preview_text(&runs);
    assert_eq!(text, "arXiv Variance Collapse Under Smoothing We study");
    assert_eq!(title.as_deref(), Some("Variance Collapse Under Smoothing"));
}

#[test]
fn a_hover_card_preview_is_cut_to_its_length() {
    let long: String = "x".repeat(500);
    let (text, title) = speedyf::library::preview_text(&vec![long.clone(), "tail".into()]);
    assert_eq!(text.chars().count(), 400);
    assert_eq!(title.map(|t| t.chars().count()), Some(300));
    let (empty, none) = speedyf::library::preview_text(&vec!["short".into()]);
    assert_eq!(empty, "short");
    assert_eq!(none, None);
}

#[test]
fn a_folder_holds_whole_components_only() {
    assert!(path_within("/papers", "/papers/a.pdf"));
    assert!(path_within("/papers", "/papers/deep/b.pdf"));
    assert!(path_within("/papers", "/papers"));
    assert!(path_within("/", "/anything.pdf"));
    assert!(!path_within("/papers", "/papers2/a.pdf"));
    assert!(!path_within("/papers", "/pap"));
    assert!(!path_within("/papers/deep", "/papers/a.pdf"));
}

#[test]
fn removing_a_folder_drops_only_what_no_other_folder_holds() {
    let mut state = LibraryState::new(
        "/data".into(),
        vec!["/a".into(), "/b".into()],
        vec![
            entry("/a/b/three.pdf", true),
            entry("/a/one.pdf", true),
            entry("/b/two.pdf", false),
            entry("/gone.pdf", true),
            entry("/link.pdf", true),
        ],
    );
    let paths: Vec<String> = state.all_entries().into_iter().map(|e| e.path).collect();
    assert_eq!(paths, vec!["/a/b/three.pdf", "/a/one.pdf", "/b/two.pdf", "/gone.pdf", "/link.pdf"]);
    let canonical = vec![
        Some("/a/b/three.pdf".to_string()),
        Some("/a/one.pdf".to_string()),
        Some("/b/two.pdf".to_string()),
        None,
        Some("/b/real.pdf".to_string()),
    ];
    let forms = vec![Some("/a".to_string()), Some("/b".to_string())];
    let dropped = state.remove_root("/a", &forms, &canonical);
    assert_eq!(dropped, vec!["/a/b/three.pdf", "/a/one.pdf", "/gone.pdf"]);
    assert_eq!(state.roots(), vec!["/b".to_string()]);
    let left: Vec<String> = state.all_entries().into_iter().map(|e| e.path).collect();
    assert_eq!(left, vec!["/b/two.pdf", "/link.pdf"]);
}

#[test]
fn each_root_keeps_its_own_documents() {
    let mut state = LibraryState::new("/data".into(), Vec::new(), Vec::new());
    assert!(state.add_root("/first".into()));
    assert!(state.add_root("/second".into()));
    assert_eq!(state.roots().len(), 2);
    // Adding the same folder twice is a refresh, not a duplicate.
    assert!(!state.add_root("/second".into()));
    assert_eq!(state.roots().len(), 2);

    // Pretend both were scanned.
    let mut state = LibraryState::new(
        "/data".into(),
        state.roots(),
        vec![entry("/first/a.pdf", true), entry("/second/b.pdf", true)],
    );
    let forms: Vec<Option<String>> = state.roots().into_iter().map(Some).collect();
    let canonical: Vec<Option<String>> = state.all_entries().into_iter().map(|e| Some(e.path)).collect();
    let dropped = state.remove_root("/first", &forms, &canonical);
    assert_eq!(dropped, vec!["/first/a.pdf".to_string()]);
    assert_eq!(state.roots().len(), 1);
    let remaining = state.all_entries();
    assert_eq!(remaining.len(), 1, "only the removed root's files should go");
    assert!(remaining[0].path.ends_with("b.pdf"));
}

#[test]
fn a_file_that_cannot_be_read_is_counted_and_passed_over() {
    let mut state = LibraryState::new("/data".into(), vec!["/lib".into()], vec![entry("/lib/a.pdf", false)]);
    state.schedule_scan(vec!["/lib/a.pdf".into(), "/lib/b.pdf".into()]);
    let first = state.next_pending().expect("a");
    let known = state.consider(first, Some((10, 20))).expect("a readable file is a candidate");
    assert!(known.unchanged);
    assert_eq!(state.status().indexed, 0);
    let second = state.next_pending().expect("b");
    assert!(state.consider(second, None).is_none());
    assert_eq!(state.status().indexed, 1);
    assert!(state.next_pending().is_none());
}
