use speedyf::bench::{sample_indices, select_category};

#[test]
fn category_matching_is_case_insensitive_and_specific() {
    assert_eq!(
        select_category("TEXT-1000P-contract.pdf"),
        Some("text-1000p")
    );
    assert_eq!(
        select_category("customer-scanned-large-01.pdf"),
        Some("scanned-large")
    );
    assert_eq!(select_category("cad-page-a0.pdf"), Some("cad-page"));
    assert_eq!(select_category("image-100p-photo.pdf"), Some("image-100p"));
    assert_eq!(
        select_category("malformed-truncated.pdf"),
        Some("malformed")
    );
    assert_eq!(
        select_category("edited-save-smoke.pdf"),
        Some("edited-save")
    );
    assert_eq!(select_category("ordinary.pdf"), None);
}

#[test]
fn sample_indices_cover_both_ends_without_duplicates() {
    assert_eq!(sample_indices(1, 8), vec![0]);
    assert_eq!(sample_indices(5, 5), vec![0, 1, 2, 3, 4]);
    assert_eq!(sample_indices(100, 3), vec![0, 50, 99]);
}

#[test]
fn sampling_edge_cases() {
    assert!(sample_indices(0, 4).is_empty());
    assert!(sample_indices(9, 0).is_empty());
    assert_eq!(sample_indices(9, 1), vec![0]);
    // 1.5 and 4.5 round up
    assert_eq!(sample_indices(7, 5), vec![0, 2, 3, 5, 6]);
    let picked = sample_indices(1000, 20);
    assert_eq!(picked.len(), 20);
    assert_eq!(picked[0], 0);
    assert_eq!(picked[19], 999);
    assert!(picked.windows(2).all(|w| w[0] < w[1]));
}
