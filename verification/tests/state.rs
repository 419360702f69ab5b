use speedyf::metrics::Metrics;
use speedyf::opens::PendingOpens;

#[test]
fn paths_that_arrive_before_the_interface_are_kept_in_order() {
    let mut pending = PendingOpens::default();
    pending.extend(vec!["/a.pdf".into()]);
    pending.extend(vec!["/b.pdf".into(), "/c.pdf".into()]);
    assert_eq!(pending.take(), vec!["/a.pdf", "/b.pdf", "/c.pdf"]);
    assert!(pending.take().is_empty());
}

#[test]
fn metrics_count_each_kind_of_work_separately() {
    let mut metrics = Metrics::default();
    metrics.count_rendered();
    metrics.count_rendered();
    metrics.count_skipped_stale();
    metrics.count_page_indexed();
    metrics.count_page_indexed();
    metrics.count_page_indexed();
    assert_eq!(metrics.counts(), (2, 1, 3));
}
