use speedyf::links::{normalized_link_text, runaway_retained, RunawayLink};

fn group(texts: &[(&str, u64)]) -> Vec<RunawayLink> {
    texts
        .iter()
        .enumerate()
        .map(|(index, (text, width_rank))| RunawayLink {
            index,
            text: text.to_string(),
            width_rank: *width_rank,
        })
        .collect()
}

#[test]
fn link_text_is_compared_lowercased_and_alphanumeric() {
    assert_eq!(normalized_link_text("https://GitHub.com/a-b_c"), "httpsgithubcomabc");
    assert_eq!(normalized_link_text("Ünï 2"), "ünï2");
    assert_eq!(normalized_link_text(" -/ "), "");
}

#[test]
fn a_runaway_group_keeps_only_the_visible_uri_fragment() {
    let uri = "https://github.com/alphanso-org/alphanso";
    let mut texts: Vec<(&str, u64)> = vec![("ordinary body text that must not become a link", 1); 11];
    texts.push(("org/alphanso", 0));
    assert_eq!(runaway_retained(uri, &group(&texts)), Some(vec![11]));
}

#[test]
fn an_arbitrary_label_keeps_its_narrowest_text_bearing_rectangle() {
    let mut texts: Vec<(&str, u64)> = vec![("click here", 2); 10];
    texts.push(("", 0));
    texts.push(("see the paper", 1));
    texts.push(("see", 1));
    // the empty rectangle has no text to judge by; of the narrowest with
    // text, the one with the shorter text wins
    assert_eq!(runaway_retained("https://example.test/x", &group(&texts)), Some(vec![12]));
}

#[test]
fn a_small_or_textless_group_is_left_alone() {
    let few = group(&[("https://example.test/long/path", 0); 11]);
    assert_eq!(runaway_retained("https://example.test/long/path", &few), None);
    let blank = group(&[("  ", 0); 12]);
    assert_eq!(runaway_retained("https://example.test/long/path", &blank), None);
}
