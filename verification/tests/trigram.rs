use speedyf::trigram::{Filter, FILTER_BYTES};

#[test]
fn admits_text_it_was_built_from() {
    let filter = Filter::from_text("variance collapse under Rao-Blackwellization");
    for query in [
        "variance",
        "collapse",
        "variance collapse",
        "Rao-Blackwell",
        "under",
    ] {
        assert!(filter.might_contain(query), "{query}");
    }
}

#[test]
fn rejects_what_cannot_be_there() {
    let filter = Filter::from_text("variance collapse under smoothing");
    for query in ["quaternion", "zzzznotinanypaper", "hyperbolic geometry"] {
        assert!(!filter.might_contain(query), "{query}");
    }
}

#[test]
fn never_rejects_something_present_however_odd() {
    let text = "σ² ≤ ∇_M log q(x) — see §4.1 (Eq. 12), naïve ﬁle";
    let filter = Filter::from_text(text);
    for query in ["σ² ≤", "∇_M log", "§4.1", "(Eq. 12)", "naïve", "ﬁle"] {
        assert!(filter.might_contain(query), "{query:?} is in the text");
    }
}

#[test]
fn case_and_query_length_never_cause_a_miss() {
    let filter = Filter::from_text("Variance Collapse");
    assert!(filter.might_contain("variance collapse"));
    assert!(filter.might_contain("VARIANCE"));
    assert!(filter.might_contain("va"));
    assert!(filter.might_contain(""));
}

#[test]
fn pages_accumulate_into_one_document_filter() {
    let mut filter = Filter::default();
    filter.add("first page about manifolds");
    filter.add("second page about quaternions");
    assert!(filter.might_contain("manifolds"));
    assert!(filter.might_contain("quaternions"));
    assert!(!filter.might_contain("zzzznotinanypaper"));
}

#[test]
fn trigram_survives_a_round_trip_through_bytes() {
    let filter = Filter::from_text("variance collapse");
    let restored = Filter::from_bytes(filter.as_bytes().to_vec()).expect("same length");
    assert!(restored.might_contain("variance collapse"));
    assert!(!restored.might_contain("quaternion"));
    assert_eq!(filter.as_bytes().len(), FILTER_BYTES);
    assert!(Filter::from_bytes(vec![0; 10]).is_none());
}

#[test]
fn an_empty_document_admits_only_short_queries() {
    let filter = Filter::default();
    assert!(!filter.might_contain("anything"));
    assert!(filter.might_contain("an"));
}

#[test]
fn a_restored_filter_answers_exactly_as_the_filter_it_came_from() {
    let filter = Filter::from_text("Gaussian smoothing of the chord map");
    let restored = Filter::from_bytes(filter.as_bytes().to_vec()).expect("same length");
    for query in ["gaussian", "chord map", "quaternion", "xy"] {
        assert_eq!(filter.might_contain(query), restored.might_contain(query), "{query}");
    }
}
