use speedyf::figures::{join_caption_line, parse_caption, truncate_words, MAX_TITLE_CHARS};

fn label_of(line: &str) -> Option<String> {
    parse_caption(line).map(|(label, _)| label)
}

#[test]
fn reads_a_caption_opening_and_its_text() {
    assert_eq!(
        parse_caption("Figure 2: A caption"),
        Some(("Figure 2".into(), "A caption".into()))
    );
    assert_eq!(
        parse_caption("Table 1. Results for the three models"),
        Some(("Table 1".into(), "Results for the three models".into()))
    );
    assert_eq!(label_of("Algorithm 3)").as_deref(), Some("Algorithm 3"));
    assert_eq!(label_of("Figure 12").as_deref(), Some("Figure 12"));
}

#[test]
fn a_caption_keeps_the_latex_the_line_reader_restored() {
    assert_eq!(
        parse_caption("Figure 3. Error of r_σ at L^2"),
        Some(("Figure 3".into(), "Error of r_σ at L^2".into()))
    );
}

#[test]
fn a_sentence_beginning_with_a_figure_reference_is_not_a_caption() {
    assert_eq!(parse_caption("Figure 2 computes r(z) numerically"), None);
    assert_eq!(parse_caption("Figures 2 and 3 show the same"), None);
}

#[test]
fn ignores_lines_that_are_not_captions_at_all() {
    assert_eq!(parse_caption(""), None);
    assert_eq!(parse_caption("Theorem 3.1"), None);
    assert_eq!(parse_caption("Section 4: Results"), None);
    assert_eq!(parse_caption("Figure"), None);
}

#[test]
fn a_long_caption_is_trimmed_on_a_word_boundary() {
    let text = format!("{}", "words and more words ".repeat(20));
    let title = truncate_words(&text, MAX_TITLE_CHARS);
    assert!(title.chars().count() <= MAX_TITLE_CHARS + 1, "{title}");
    assert!(title.ends_with('…'), "{title}");
    assert!(!title.contains("  "), "{title}");
}

#[test]
fn a_caption_rejoins_a_word_broken_across_its_lines() {
    assert_eq!(
        join_caption_line("Convergence of the esti-", "mator as n grows"),
        "Convergence of the estimator as n grows"
    );
    // a capital after the hyphen is a new word, not a continuation
    assert_eq!(
        join_caption_line("Error for the semi-", "Lagrangian scheme"),
        "Error for the semi- Lagrangian scheme"
    );
    assert_eq!(join_caption_line("Error of", "the fit"), "Error of the fit");
}

#[test]
fn caption_words_are_matched_regardless_of_case_and_keep_their_printing() {
    assert_eq!(label_of("FIGURE 7: Loss").as_deref(), Some("FIGURE 7"));
    assert_eq!(label_of("  Fig. 3.2: Layout").as_deref(), Some("Fig. 3.2"));
    assert_eq!(label_of("Listing 4 — Driver").as_deref(), Some("Listing 4"));
    assert_eq!(label_of("Alg. 2 | step").as_deref(), Some("Alg. 2"));
}

#[test]
fn short_text_is_only_trimmed() {
    assert_eq!(truncate_words("  a short title  ", 140), "a short title");
    assert_eq!(truncate_words("abcdefghij", 4), "abcd…");
    assert_eq!(truncate_words("ab cdefghij", 6), "ab…");
}
