use speedyf::cache::ByteLru;
use std::sync::Arc;

fn arc(n: usize) -> Arc<Vec<u8>> {
    Arc::new(vec![0u8; n])
}

#[test]
fn tracks_used_bytes_and_evicts_lru_when_over_budget() {
    let mut c: ByteLru<u32> = ByteLru::new(1000);
    c.insert(1, arc(1), 400);
    c.insert(2, arc(1), 400);
    assert_eq!(c.used(), 800);
    assert!(c.get(&1).is_some());
    c.insert(3, arc(1), 400);
    assert_eq!(c.used(), 800);
    assert!(c.get(&2).is_none(), "LRU entry should have been evicted");
    assert!(c.get(&1).is_some());
    assert!(c.get(&3).is_some());
}

#[test]
fn evicts_stale_entries_before_recently_used_ones() {
    let mut c: ByteLru<u32> = ByteLru::new(1000);
    c.insert(1, arc(1), 400);
    c.insert(2, arc(1), 400);
    assert!(c.get(&2).is_some());
    c.mark_stale(|k| *k == 2);
    c.insert(3, arc(1), 400);
    assert!(c.get(&2).is_none(), "stale entry evicted first");
    assert!(c.get(&1).is_some(), "fresh LRU entry survives");
}

#[test]
fn a_hit_clears_staleness_so_visible_entries_stop_being_victims() {
    let mut c: ByteLru<u32> = ByteLru::new(1000);
    c.insert(1, arc(1), 400);
    c.insert(2, arc(1), 400);
    c.mark_stale(|k| *k == 1);
    assert!(c.get(&1).is_some());
    c.insert(3, arc(1), 400);
    assert!(c.get(&1).is_some(), "re-requested entry survives");
    assert!(c.get(&2).is_none(), "untouched LRU entry evicted instead");
}

#[test]
fn repeated_marking_does_not_grow_the_order_heap() {
    let mut c: ByteLru<u32> = ByteLru::new(10_000);
    for k in 0..20 {
        c.insert(k, arc(1), 100);
    }
    let baseline = c.order_len();
    for _ in 0..500 {
        c.mark_stale(|_| true);
    }
    assert!(
        c.order_len() <= baseline + c.len(),
        "order heap grew to {} from {baseline}",
        c.order_len()
    );
}

#[test]
fn rejects_entries_larger_than_the_whole_budget() {
    let mut c: ByteLru<u32> = ByteLru::new(100);
    c.insert(1, arc(1), 500);
    assert_eq!(c.used(), 0);
    assert_eq!(c.len(), 0);
}

#[test]
fn shrinking_budget_evicts_to_fit() {
    let mut c: ByteLru<u32> = ByteLru::new(1200);
    c.insert(1, arc(1), 400);
    c.insert(2, arc(1), 400);
    c.insert(3, arc(1), 400);
    c.set_budget(500);
    assert!(c.used() <= 500);
    assert!(c.get(&3).is_some(), "most recent survives");
}

#[test]
fn replacing_a_key_updates_cost_accounting() {
    let mut c: ByteLru<u32> = ByteLru::new(1000);
    c.insert(1, arc(1), 400);
    c.insert(1, arc(1), 100);
    assert_eq!(c.used(), 100);
}

#[test]
fn remove_matching_drops_entries_and_cost() {
    let mut c: ByteLru<u32> = ByteLru::new(1000);
    c.insert(1, arc(1), 300);
    c.insert(2, arc(1), 300);
    c.remove_matching(|k| *k == 1);
    assert_eq!(c.used(), 300);
    assert!(c.get(&1).is_none());
}

#[test]
fn counts_hits_and_lookups() {
    let mut c: ByteLru<u32> = ByteLru::new(1000);
    c.insert(1, arc(1), 100);
    let _ = c.get(&1);
    let _ = c.get(&9);
    assert_eq!(c.hits, 1);
    assert_eq!(c.lookups, 2);
}

#[test]
fn a_hit_returns_the_bytes_that_were_stored() {
    let mut c: ByteLru<u64> = ByteLru::new(1000);
    let bytes = Arc::new(vec![1u8, 2, 3]);
    c.insert(7, Arc::clone(&bytes), 3);
    let got = c.get(&7).expect("held");
    assert_eq!(*got, vec![1u8, 2, 3]);
    assert!(c.is_empty() == false);
    assert_eq!(c.budget(), 1000);
}
