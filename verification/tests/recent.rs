use speedyf::recent::{RecentlyUsed, LIBRARY_DOC_CAP, PAGE_HANDLE_CAP};

#[test]
fn a_full_cache_evicts_the_least_recently_used_entry() {
    let mut docs: RecentlyUsed<()> = RecentlyUsed::new(LIBRARY_DOC_CAP);
    assert_eq!(docs.put(1, ()), None);
    assert_eq!(docs.put(2, ()), None);
    assert_eq!(docs.put(3, ()), None);
    // touching 1 makes 2 the oldest
    assert_eq!(docs.touch(1), Some(()));
    assert_eq!(docs.put(4, ()), Some((2, ())));
    assert_eq!(docs.len(), 3);
    assert_eq!(docs.drain(), vec![(3, ()), (1, ()), (4, ())]);
    assert_eq!(docs.len(), 0);
}

#[test]
fn page_handles_are_found_again_by_page() {
    let mut pages: RecentlyUsed<u64> = RecentlyUsed::new(PAGE_HANDLE_CAP);
    for page in 0..8u32 {
        assert_eq!(pages.put(page, 100 + page as u64), None);
    }
    assert_eq!(pages.touch(5), Some(105));
    assert_eq!(pages.touch(42), None);
    assert_eq!(pages.put(8, 108), Some((0, 100)));
    assert_eq!(pages.remove(5), Some(105));
    assert_eq!(pages.remove(5), None);
    assert_eq!(pages.len(), 7);
}
