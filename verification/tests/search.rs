use speedyf::search::{find_prepared_matches, normalize, prepare_query, PageEntry, SearchStore};

fn matches(text: &str, query: &str, case_sensitive: bool) -> Vec<(u32, u32, String)> {
    let entry = PageEntry::new(text, text.chars().count() as u32);
    let prepared = prepare_query(query, case_sensitive);
    find_prepared_matches(&entry, &prepared, case_sensitive, 100)
}

#[test]
fn normalize_folds_ligatures_via_nfkc() {
    let normalized = normalize("ﬁle");
    assert_eq!(normalized.text, "file");
    assert_eq!(normalized.map.raw_index(0), 0);
    assert_eq!(normalized.map.raw_index(1), 0);
    assert_eq!(normalized.map.raw_index(2), 1);
}

#[test]
fn normalize_collapses_whitespace_runs() {
    assert_eq!(normalize("hello \t\n  world").text, "hello world");
}

#[test]
fn normalize_straightens_curly_quotes() {
    assert_eq!(normalize("it’s “fine”").text, "it's \"fine\"");
}

#[test]
fn finds_case_insensitive_matches_with_pdfium_ranges() {
    let found = matches("The Quick brown the END", "the", false);
    assert_eq!(found.len(), 2);
    assert_eq!(found[0].0, 0);
    assert_eq!(found[0].1, 3);
    assert_eq!(found[1].0, 16);
}

#[test]
fn case_sensitive_toggle_respects_case() {
    let found = matches("The Quick brown the END", "the", true);
    assert_eq!(found.len(), 1);
    assert_eq!(found[0].0, 16);
}

#[test]
fn query_spanning_collapsed_whitespace_matches() {
    let found = matches("hello   \n world", "hello world", false);
    assert_eq!(found.len(), 1);
    assert_eq!(found[0].0, 0);
    assert_eq!(found[0].1, 15);
}

#[test]
fn ligature_text_matches_plain_query() {
    let found = matches("my ﬁle here", "file", false);
    assert_eq!(found.len(), 1);
    assert_eq!(found[0].0, 3);
    assert_eq!(found[0].1, 3);
}

#[test]
fn snippets_surround_the_match() {
    let found = matches("aaaa needle bbbb", "needle", false);
    assert!(found[0].2.contains("needle"));
}

#[test]
fn store_respects_budget_and_reports_truncation() {
    let mut store = SearchStore::new(200);
    assert!(store.store_page(1, 0, "small", 5));
    let big = "x".repeat(10_000);
    assert!(!store.store_page(1, 1, &big, 10_000));
    assert!(store.is_truncated(1));
    assert_eq!(store.indexed_count(1), 1);
    assert_eq!(store.chars_indexed(1), 5);
    store.remove_doc(1);
    assert_eq!(store.used(), 0);
    assert_eq!(store.chars_indexed(1), 0);
}

#[test]
fn a_second_document_reclaims_budget_from_the_one_that_filled_it() {
    let mut store = SearchStore::new(4_000);
    let page = "lorem ipsum dolor sit amet ".repeat(8);
    let mut src = 0;
    while store.store_page(1, src, &page, page.len() as u32) {
        src += 1;
    }
    assert!(store.is_truncated(1), "doc 1 should have filled the budget");
    let doc_one_pages = store.indexed_count(1);
    assert!(doc_one_pages > 2, "need room for a meaningful split");

    assert!(
        store.store_page(2, 0, &page, page.len() as u32),
        "doc 2 must be able to index despite a full budget"
    );
    assert!(store.store_page(2, 1, &page, page.len() as u32));

    assert!(store.used() <= store.budget(), "hard bound still holds");
    assert!(
        store.indexed_count(1) < doc_one_pages,
        "space came out of the largest holder"
    );
    assert!(store.contains_page(1, 0));
}

#[test]
fn reclaim_stops_once_the_requesting_document_is_the_largest_holder() {
    let mut store = SearchStore::new(4_000);
    let page = "lorem ipsum dolor sit amet ".repeat(8);
    let mut src = 0;
    while store.store_page(1, src, &page, page.len() as u32) {
        src += 1;
    }
    let mut src = 0;
    while store.store_page(2, src, &page, page.len() as u32) {
        src += 1;
    }
    let one = store.indexed_count(1);
    let two = store.indexed_count(2);
    assert!(one > 0 && two > 0, "both documents keep a share");
    assert!(
        one.abs_diff(two) <= 1,
        "shares should settle roughly even, got {one} vs {two}"
    );
    assert!(store.used() <= store.budget());
}

#[test]
fn shrinking_budget_evicts_high_pages_to_restore_the_hard_bound() {
    let mut store = SearchStore::new(10_000);
    assert!(store.store_page(1, 0, "first page", 10));
    let one_page_budget = store.used();
    assert!(store.store_page(1, 1, "second page", 11));
    assert!(store.used() > one_page_budget);

    store.set_budget(one_page_budget);

    assert!(store.used() <= one_page_budget);
    assert!(store.contains_page(1, 0));
    assert!(!store.contains_page(1, 1));
    assert!(store.is_truncated(1));
}

#[test]
fn query_returns_page_ordered_results_from_indexed_subset() {
    let mut store = SearchStore::new(1_000_000);
    store.store_page(1, 2, "beta beta", 9);
    store.store_page(1, 0, "alpha beta", 10);
    let result = store.query(1, "beta", false, 10);
    assert_eq!(result.len(), 2);
    assert_eq!(result[0].src, 0);
    assert_eq!(result[1].src, 2);
    assert_eq!(result[1].matches.len(), 2);
}

#[test]
fn compact_index_covers_the_evaluators_thousand_page_text_shape() {
    let mut store = SearchStore::new(16 * 1024 * 1024);
    let body = format!(
        "SpeedyF contract page NEEDLE\n{}\n",
        "ordinary agreement text ".repeat(195)
    );
    assert!(body.len() >= 4_500);

    for src in 0..1_000 {
        assert!(
            store.store_page(7, src, &body, body.chars().count() as u32),
            "page {src} should fit in the compact index"
        );
    }

    assert_eq!(store.indexed_count(7), 1_000);
    assert!(!store.is_truncated(7));
    assert!(store.used() <= store.budget());
}

#[test]
fn query_enforces_a_document_wide_result_limit() {
    let mut store = SearchStore::new(1_000_000);
    for src in 0..10 {
        assert!(store.store_page(3, src, "needle needle", 13));
    }

    let result = store.query_limited(3, "needle", false, 200, 3);

    assert_eq!(
        result
            .pages
            .iter()
            .map(|page| page.matches.len())
            .sum::<usize>(),
        3
    );
    assert!(result.truncated);
}

#[test]
fn an_empty_query_finds_nothing() {
    assert!(matches("anything at all", "", false).is_empty());
    assert!(matches("anything at all", "   ", true).is_empty());
}

#[test]
fn restoring_a_page_replaces_it_rather_than_duplicating_it() {
    let mut store = SearchStore::new(1_000_000);
    assert!(store.store_page(5, 0, "first version", 13));
    assert!(store.store_page(5, 0, "second", 6));
    assert_eq!(store.indexed_count(5), 1);
    assert_eq!(store.chars_indexed(5), 6);
    assert!(store.query(5, "first", false, 10).is_empty());
}

#[test]
fn a_snapshot_lists_pages_in_page_order() {
    let mut store = SearchStore::new(1_000_000);
    assert!(store.store_page(4, 9, "ninth", 5));
    assert!(store.store_page(4, 2, "second", 6));
    assert!(store.store_page(4, 5, "fifth", 5));
    assert!(store.store_page(5, 1, "other document", 14));
    let pages: Vec<u32> = store.snapshot(4).iter().map(|(src, _)| *src).collect();
    assert_eq!(pages, vec![2, 5, 9]);
    assert_eq!(pages.len() as u32, store.indexed_count(4));
    assert!(store.snapshot(6).is_empty());
}

#[test]
fn a_query_within_its_limits_returns_every_match_and_says_so() {
    let mut store = SearchStore::new(1_000_000);
    assert!(store.store_page(8, 0, "needle hay needle", 17));
    assert!(store.store_page(8, 1, "only hay", 8));
    assert!(store.store_page(8, 2, "a needle", 8));
    let all = store.query_limited(8, "needle", false, 10, 10);
    assert!(!all.truncated);
    let counts: Vec<(u32, usize)> = all.pages.iter().map(|p| (p.src, p.matches.len())).collect();
    assert_eq!(counts, vec![(0, 2), (2, 1)]);

    let per_page = store.query_limited(8, "needle", false, 1, 10);
    assert!(per_page.truncated);
    let counts: Vec<(u32, usize)> = per_page.pages.iter().map(|p| (p.src, p.matches.len())).collect();
    assert_eq!(counts, vec![(0, 1), (2, 1)]);

    let exact = store.query_limited(8, "needle", false, 10, 3);
    assert!(!exact.truncated);
    assert_eq!(exact.pages.iter().map(|p| p.matches.len()).sum::<usize>(), 3);
}
