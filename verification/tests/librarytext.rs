use speedyf::librarytext::{
    filter_path, gram_index_path, library_signature, scan_path, search_document, sidecar_path,
    IndexedDocument, LibraryDocument,
};
use speedyf::librarytext::worth_parsing;
use speedyf::search::{prepare_query, PageEntry};

fn indexed(pages: &[(u32, &str)]) -> IndexedDocument {
    IndexedDocument {
        pages: pages
            .iter()
            .map(|(src, text)| (*src, PageEntry::new(text, text.chars().count() as u32)))
            .collect(),
    }
}

#[test]
fn a_document_s_files_share_a_hashed_name() {
    // FNV-1a of the empty path is the offset basis itself
    assert_eq!(sidecar_path("/data", ""), "/data/text/cbf29ce484222325.json");
    let sidecar = sidecar_path("/data/", "/papers/a.pdf");
    assert!(sidecar.starts_with("/data/text/"));
    assert!(sidecar.ends_with(".json"));
    assert_eq!(sidecar.len(), "/data/text/".len() + 16 + ".json".len());
    let stem = &sidecar["/data/text/".len().."/data/text/".len() + 16];
    assert_eq!(scan_path("/data", "/papers/a.pdf"), format!("/data/text/{stem}.fold"));
    assert_eq!(filter_path("/data", "/papers/a.pdf"), format!("/data/text/{stem}.tri"));
    assert_ne!(sidecar_path("/data", "/papers/b.pdf"), sidecar);
    assert_eq!(gram_index_path("/data"), "/data/text/grams.idx");
}

#[test]
fn a_document_search_reports_pages_with_matches_in_order() {
    let document = indexed(&[(0, "alpha"), (1, "beta beta"), (2, "nothing"), (5, "Beta")]);
    let prepared = prepare_query("beta", false);
    let pages = search_document(&document, &prepared, false, 100);
    assert_eq!(pages.iter().map(|p| p.src).collect::<Vec<_>>(), vec![1, 5]);
    assert_eq!(pages[0].matches.len(), 2);
    assert_eq!(pages[0].matches[1].start, 5);
    // the limit is spent across pages
    let limited = search_document(&document, &prepared, false, 2);
    assert_eq!(limited.len(), 1);
    assert!(search_document(&document, &prepared, false, 0).is_empty());
}

#[test]
fn a_page_contributes_at_most_twenty_matches() {
    let text = "x ".repeat(50);
    let document = indexed(&[(0, &text), (1, "x")]);
    let pages = search_document(&document, "x", true, 1000);
    assert_eq!(pages[0].matches.len(), 20);
    assert_eq!(pages[1].matches.len(), 1);
}

#[test]
fn the_library_signature_tracks_its_documents() {
    let doc = |path: &str, mtime_ms: u64| LibraryDocument {
        path: path.into(),
        title: None,
        mtime_ms,
        size: 3,
    };
    let a = library_signature(&[doc("/a.pdf", 1), doc("/b.pdf", 2)]);
    let b = library_signature(&[doc("/b.pdf", 2), doc("/a.pdf", 1)]);
    assert_eq!(a, b);
    assert_ne!(a, library_signature(&[doc("/a.pdf", 1), doc("/b.pdf", 3)]));
}

fn hit(name: &str, total: u32) -> speedyf::types::LibraryHitDto {
    speedyf::types::LibraryHitDto {
        path: format!("/lib/{name}"),
        name: name.into(),
        title: None,
        total_matches: total,
        pages: Vec::new(),
    }
}

#[test]
fn ranking_puts_more_matches_first_then_names() {
    let ranked = speedyf::librarytext::rank_hits(vec![
        hit("b.pdf", 1),
        hit("c.pdf", 5),
        hit("a.pdf", 1),
        hit("d.pdf", 5),
    ]);
    let names: Vec<&str> = ranked.iter().map(|h| h.name.as_str()).collect();
    assert_eq!(names, vec!["c.pdf", "d.pdf", "a.pdf", "b.pdf"]);
    assert!(speedyf::librarytext::rank_hits(Vec::new()).is_empty());
}

#[test]
fn hits_that_rank_alike_keep_the_order_they_came_in() {
    let mut first = hit("same.pdf", 2);
    first.path = "/lib/one/same.pdf".into();
    let mut second = hit("same.pdf", 2);
    second.path = "/lib/two/same.pdf".into();
    let ranked = speedyf::librarytext::rank_hits(vec![first, hit("z.pdf", 3), second]);
    let paths: Vec<&str> = ranked.iter().map(|h| h.path.as_str()).collect();
    assert_eq!(paths, vec!["/lib/z.pdf", "/lib/one/same.pdf", "/lib/two/same.pdf"]);
}

#[test]
fn a_hit_counts_its_matches_and_names_its_file() {
    let document = LibraryDocument {
        path: "/lib/papers/x.pdf".into(),
        title: Some("X".into()),
        mtime_ms: 1,
        size: 2,
    };
    let pages = search_document(&indexed(&[(0, "beta beta"), (3, "beta")]), "beta", false, 10);
    let found = speedyf::librarytext::library_hit(&document, pages).expect("matches");
    assert_eq!(found.total_matches, 3);
    assert_eq!(found.name, "x.pdf");
    assert_eq!(found.title.as_deref(), Some("X"));
    assert_eq!(found.pages.len(), 2);
    assert!(speedyf::librarytext::library_hit(&document, Vec::new()).is_none());
}

#[test]
fn a_sidecar_is_only_parsed_when_the_query_can_be_in_it() {
    let bytes = br#"{"folded":"variance collapse under smoothing"}"#;
    assert!(worth_parsing(bytes, "collapse under"));
    assert!(!worth_parsing(bytes, "quaternion"));
    // JSON escapes these, so the raw bytes cannot settle it
    assert!(worth_parsing(bytes, "say \"hi\""));
    assert!(worth_parsing(bytes, "a\\b"));
    assert!(worth_parsing(bytes, "tab\there"));
    // not UTF-8: nothing can be read out of it
    assert!(!worth_parsing(&[0xff, 0xfe, b'x'], "x"));
    assert!(worth_parsing(bytes, ""));
}
