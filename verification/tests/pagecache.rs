use speedyf::pagecache::{link_cost, text_layout_cost, LinkCache, PageLru, TextLayoutCache};

#[test]
fn link_cache_is_budgeted_and_document_scoped() {
    let mut cache: LinkCache<Vec<String>> = LinkCache::new(256);
    // one URI link of one byte each: 64 + 64 + 1
    let cost = link_cost(&vec![1]);
    assert_eq!(cost, 129);
    cache.insert(1, 0, vec!["a".to_string()], cost);
    cache.insert(2, 0, vec!["b".to_string()], cost);
    cache.remove_doc(1);
    assert!(cache.get(1, 0).is_none());
    assert!(cache.get(2, 0).is_some());
}

#[test]
fn foreground_text_layout_cache_is_lru_and_independent_of_search_coverage() {
    let mut cache: TextLayoutCache<u32> = TextLayoutCache::new(500);
    // ten character boxes and no runs
    let cost = text_layout_cost(10, 48, &vec![]);
    assert_eq!(cost, 224);
    cache.insert(1, 10, 10, cost);
    cache.insert(1, 11, 10, cost);
    assert!(cache.get(1, 10).is_some());

    cache.insert(1, 12, 10, cost);

    assert!(cache.get(1, 10).is_some(), "recent layout survives");
    assert!(cache.get(1, 11).is_none(), "least-recent layout is evicted");
    assert!(cache.get(1, 12).is_some());
}

#[test]
fn a_page_result_dearer_than_the_budget_is_handed_back() {
    let mut cache: PageLru<&str> = PageLru::new(100);
    assert_eq!(cache.insert(1, 0, "big", 101), Some("big"));
    assert_eq!(cache.used(), 0);
    assert_eq!(cache.insert(1, 0, "fits", 100), None);
    assert_eq!(cache.get(1, 0), Some(&"fits"));
    // replacing a page's entry charges only the new cost
    assert_eq!(cache.insert(1, 0, "again", 40), None);
    assert_eq!(cache.used(), 40);
    assert_eq!(cache.get(1, 0), Some(&"again"));
}

#[test]
fn a_smaller_budget_evicts_the_least_recently_used_first() {
    let mut cache: PageLru<u8> = PageLru::new(300);
    cache.insert(1, 0, 0, 100);
    cache.insert(1, 1, 1, 100);
    cache.insert(1, 2, 2, 100);
    cache.get(1, 0);
    cache.set_budget(200);
    assert_eq!(cache.budget(), 200);
    assert_eq!(cache.used(), 200);
    assert!(cache.get(1, 1).is_none());
    assert!(cache.get(1, 0).is_some());
    assert!(cache.get(1, 2).is_some());
    assert_eq!(text_layout_cost(2, 48, &vec![3, 4]), 64 + 32 + 96 + 7);
}
