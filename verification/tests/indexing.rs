use speedyf::indexing::{IndexChain, IndexScheduler};

#[test]
fn the_first_request_starts_indexing_at_once() {
    let mut s = IndexScheduler::new();
    assert_eq!(s.request(7), Some(IndexChain { doc: 7, chain: 1 }));
    assert!(s.is_current(7, 1));
    // the indexer is busy: a second document waits its turn
    assert_eq!(s.request(9), None);
    // and asking again for a waiting document changes nothing
    assert_eq!(s.request(9), None);
    assert!(s.is_current(7, 1));
}

#[test]
fn a_finished_document_hands_the_indexer_to_the_oldest_request() {
    let mut s = IndexScheduler::new();
    s.request(1);
    s.request(2);
    s.request(3);
    assert_eq!(s.end(1, true), Some(IndexChain { doc: 2, chain: 2 }));
    assert!(!s.is_current(1, 1));
    assert_eq!(s.end(2, true), Some(IndexChain { doc: 3, chain: 3 }));
    assert_eq!(s.end(3, true), None);
    assert!(!s.is_current(3, 3));
}

#[test]
fn the_foreground_document_takes_the_indexer_over() {
    let mut s = IndexScheduler::new();
    s.request(1);
    s.request(2);
    assert_eq!(s.set_foreground(Some(2)), (true, Some(IndexChain { doc: 2, chain: 2 })));
    // the chain it replaced is stale now
    assert!(!s.is_current(1, 1));
    assert!(s.is_current(2, 2));
    // re-activating the same tab is a no-op
    assert_eq!(s.set_foreground(Some(2)), (false, None));
    assert_eq!(s.foreground(), Some(2));
    // when 2 is done, the foreground keeps nothing waiting and 1 resumes
    assert_eq!(s.end(2, true), Some(IndexChain { doc: 1, chain: 3 }));
}

#[test]
fn a_document_already_being_indexed_keeps_its_chain_in_the_foreground() {
    let mut s = IndexScheduler::default();
    s.request(4);
    assert_eq!(s.set_foreground(Some(4)), (true, None));
    assert!(s.is_current(4, 1));
    // a document that is not waiting changes nothing either
    assert_eq!(s.set_foreground(Some(5)), (true, None));
    assert!(s.is_current(4, 1));
}

#[test]
fn an_unfinished_chain_that_ends_is_restarted_with_a_new_number() {
    let mut s = IndexScheduler::new();
    s.request(1);
    assert_eq!(s.end(1, false), Some(IndexChain { doc: 1, chain: 2 }));
    assert!(!s.is_current(1, 1));
}

#[test]
fn closing_a_document_retires_its_indexing() {
    let mut s = IndexScheduler::new();
    s.request(1);
    s.request(2);
    s.set_foreground(Some(1));
    assert_eq!(s.close(1), Some(IndexChain { doc: 2, chain: 2 }));
    assert_eq!(s.foreground(), None);
    assert_eq!(s.close(2), None);
    assert_eq!(s.request(1), Some(IndexChain { doc: 1, chain: 3 }));
}
