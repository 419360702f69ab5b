use speedyf::formal::{
    assemble_line, merge_structure, nest_headings, LineGlyph, ReadingPosition, HeadingPosition, OutlineGroup, StructureRow,
    destination_number, heading_depth, is_section_destination, is_structural_destination,
    opens_with_counter, parse_heading, push_script, reconcile, Script,
};

#[test]
fn skips_the_structural_destinations_hyperref_also_emits() {
    for name in [
        "Doc-Start",
        "page.7",
        "cite.Knuth1984",
        "Item.12",
        "equation.4",
    ] {
        assert!(is_structural_destination(name), "{name} should be skipped");
    }
    assert!(!is_structural_destination("theorem.1.1"));
    assert!(!is_structural_destination("figure.3"));
    // headings are kept, but to group the list rather than populate it
    assert!(!is_structural_destination("section.2"));
    assert_eq!(heading_depth("section.2"), Some(0));
    assert_eq!(heading_depth("subsection.2.1"), Some(1));
    assert_eq!(heading_depth("appendix.A"), Some(0));
    assert_eq!(heading_depth("theorem.1.1"), None);
}

#[test]
fn reads_the_counter_value_out_of_a_destination_name() {
    assert_eq!(destination_number("theorem.3.1").as_deref(), Some("3.1"));
    assert_eq!(destination_number("figure.2").as_deref(), Some("2"));
    assert_eq!(destination_number("definition.1.4").as_deref(), Some("1.4"));
    assert_eq!(destination_number("Doc-Start"), None);
    assert_eq!(destination_number("nodots"), None);
}

#[test]
fn parses_a_bare_numbered_environment() {
    let h = parse_heading("Theorem 1.1. The mistake bound is finite.").unwrap();
    assert_eq!(h.kind, "Theorem");
    assert_eq!(h.number, "1.1");
}

#[test]
fn parses_an_appendix_counter() {
    let lemma = parse_heading("Lemma B.1 (Chord expansion). Uniformly in z").expect("lemma");
    assert_eq!(
        (lemma.kind.as_str(), lemma.number.as_str()),
        ("Lemma", "B.1")
    );
    let prop = parse_heading("Proposition F.10 (Uniform charts).").expect("prop");
    assert_eq!(prop.number, "F.10");
    let remark = parse_heading("Remark C.1 (Restriction).").expect("remark");
    assert_eq!(remark.number, "C.1");
}

#[test]
fn a_capitalized_word_is_not_a_counter() {
    assert!(parse_heading("Lemma Suppose that x is small").is_none());
    assert!(parse_heading("Theorem Under these assumptions").is_none());
}

#[test]
fn parses_a_named_environment_even_without_the_space_pdf_drops() {
    let h = parse_heading("Theorem 1.1(Main).No label here.").unwrap();
    assert_eq!(h.kind, "Theorem");
    assert_eq!(h.number, "1.1");
}

#[test]
fn keeps_the_printed_name_for_shared_counter_environments() {
    assert_eq!(
        parse_heading("Lemma 1.2.An unlabeled lemma.").unwrap().kind,
        "Lemma"
    );
    assert_eq!(
        parse_heading("Corollary 1.3.An unlabeled corollary.")
            .unwrap()
            .kind,
        "Corollary"
    );
}

#[test]
fn a_counter_opens_a_heading_but_not_a_calculation() {
    assert!(opens_with_counter("4. Canonicality", "4"));
    assert!(opens_with_counter("4.1. L2 Optimality", "4.1"));
    assert!(opens_with_counter("A. Some Useful Results", "A"));
    assert!(!opens_with_counter("1 + 2 = 3", "1"));
    assert!(!opens_with_counter("4.1. L2 Optimality", "4"));
    assert!(!opens_with_counter("5. Something", "4"));
}

#[test]
fn only_top_level_structure_groups_the_list() {
    assert!(is_section_destination("section.2"));
    assert!(is_section_destination("chapter.4"));
    assert!(is_section_destination("subsection.2.1"));
    assert!(!is_section_destination("theorem.1.1"));
}

#[test]
fn rejects_text_that_is_not_a_numbered_environment() {
    assert!(parse_heading("1 Setup").is_none());
    assert!(parse_heading("The theorem states that").is_none());
    assert!(parse_heading("").is_none());
    assert!(parse_heading("Proof. Immediate.").is_none());
}

#[test]
fn reconciles_only_when_the_numbers_agree() {
    let ok = reconcile("theorem.1.2", "Lemma 1.2.An unlabeled lemma.").unwrap();
    assert_eq!(ok.kind, "Lemma");
    assert_eq!(ok.number, "1.2");
    assert!(reconcile("theorem.1.2", "Theorem 9.9. Elsewhere.").is_none());
    assert!(reconcile("section.1", "Theorem 1.1.").is_none());
}

#[test]
fn scripts_are_written_the_way_latex_needs() {
    let mut out = String::from("L");
    push_script("2", Script::Super, &mut out);
    assert_eq!(out, "L^2");
    push_script("ij", Script::Sub, &mut out);
    assert_eq!(out, "L^2_{ij}");
    push_script(" x", Script::Normal, &mut out);
    assert_eq!(out, "L^2_{ij} x");
    push_script("", Script::Super, &mut out);
    assert_eq!(out, "L^2_{ij} x");
}

struct Entry {
    label: &'static str,
    depth: u8,
    at: ReadingPosition,
}

fn head(depth: u8, label: &'static str, page: u32, y: i64) -> Entry {
    Entry { label, depth, at: ReadingPosition { page, height: y } }
}

fn env(label: &'static str, page: u32, y: i64) -> Entry {
    Entry { label, depth: 0, at: ReadingPosition { page, height: y } }
}

fn merge(headings: &[Entry], environments: &[Entry]) -> Vec<String> {
    let heads: Vec<HeadingPosition> = headings
        .iter()
        .map(|h| HeadingPosition { depth: h.depth, at: h.at })
        .collect();
    let envs: Vec<ReadingPosition> = environments.iter().map(|e| e.at).collect();
    let rows: Vec<StructureRow> = merge_structure(&heads, &envs);
    rows.iter()
        .map(|r| {
            let label = if r.heading {
                headings[r.index].label
            } else {
                environments[r.index].label
            };
            format!("{}{}", "  ".repeat(r.depth as usize), label)
        })
        .collect()
}

#[test]
fn nests_environments_under_their_section_and_subsection() {
    let merged = merge(
        &[
            head(0, "1 Introduction", 0, 700),
            head(1, "1.2 Preliminaries", 1, 600),
            head(0, "2 Results", 3, 700),
        ],
        &[
            env("Theorem 1.1", 0, 500),
            env("Definition 1.2", 1, 400),
            env("Lemma 2.1", 3, 500),
        ],
    );
    assert_eq!(
        merged,
        vec![
            "1 Introduction",
            "  Theorem 1.1",
            "  1.2 Preliminaries",
            "    Definition 1.2",
            "2 Results",
            "  Lemma 2.1",
        ]
    );
}

#[test]
fn a_new_section_closes_the_subsection_under_it() {
    let merged = merge(
        &[
            head(0, "1 One", 0, 700),
            head(1, "1.1 Sub", 0, 600),
            head(0, "2 Two", 1, 700),
        ],
        &[env("Lemma 1.1", 0, 500), env("Lemma 2.1", 1, 500)],
    );
    // the second lemma sits directly under section 2, not under 1.1
    assert_eq!(
        merged,
        vec!["1 One", "  1.1 Sub", "    Lemma 1.1", "2 Two", "  Lemma 2.1"]
    );
}

#[test]
fn drops_headings_that_contain_nothing() {
    let merged = merge(
        &[head(0, "1 Empty", 0, 700), head(0, "2 Full", 1, 700)],
        &[env("Theorem 2.1", 1, 500)],
    );
    assert_eq!(merged, vec!["2 Full", "  Theorem 2.1"]);
}

#[test]
fn leaves_environments_flat_when_a_document_has_no_headings() {
    let merged = merge(&[], &[env("Theorem 1", 0, 500)]);
    assert_eq!(merged, vec!["Theorem 1"]);
}

#[test]
fn headings_after_the_last_environment_are_not_shown() {
    let merged = merge(
        &[head(0, "1 One", 0, 700), head(0, "2 Two", 2, 700)],
        &[env("Lemma 1.1", 0, 500), env("Lemma 1.2", 1, 500)],
    );
    // the second lemma stays under section 1; section 2 holds nothing
    assert_eq!(merged, vec!["1 One", "  Lemma 1.1", "  Lemma 1.2"]);
}

#[test]
fn a_heading_level_with_an_environment_opens_above_it() {
    // a heading at the environment's own height counts as standing above it
    let merged = merge(&[head(1, "1.1 Sub", 0, 500)], &[env("Lemma 1.1", 0, 500)]);
    assert_eq!(merged, vec!["  1.1 Sub", "    Lemma 1.1"]);
}

#[test]
fn subsections_nest_under_the_section_above_them() {
    let groups = nest_headings(&vec![0, 1, 1, 0, 0, 1]);
    assert_eq!(
        groups,
        vec![
            OutlineGroup { index: 0, children: vec![1, 2] },
            OutlineGroup { index: 3, children: vec![] },
            OutlineGroup { index: 4, children: vec![5] },
        ]
    );
}

#[test]
fn a_subsection_with_no_section_above_stays_at_the_top() {
    let groups = nest_headings(&vec![1, 1, 0]);
    assert_eq!(
        groups,
        vec![
            OutlineGroup { index: 0, children: vec![1] },
            OutlineGroup { index: 2, children: vec![] },
        ]
    );
    assert!(nest_headings(&vec![]).is_empty());
}

fn glyphs(parts: &[(&str, Script, bool)]) -> Vec<LineGlyph> {
    let mut out = Vec::new();
    for (text, kind, gap) in parts {
        for (i, ch) in text.chars().enumerate() {
            out.push(LineGlyph { ch, kind: *kind, word_gap: *gap && i == 0 });
        }
    }
    out
}

#[test]
fn restores_the_scripts_a_line_was_set_with() {
    let line = glyphs(&[
        ("L", Script::Normal, false),
        ("2", Script::Super, false),
        (" Optimality", Script::Normal, false),
    ]);
    assert_eq!(assemble_line(&line), "L^2 Optimality");
    let inverse = glyphs(&[("x", Script::Normal, false), ("-1", Script::Super, false)]);
    assert_eq!(assemble_line(&inverse), "x^{-1}");
    let indexed = glyphs(&[("a", Script::Normal, false), ("ij", Script::Sub, false)]);
    assert_eq!(assemble_line(&indexed), "a_{ij}");
}

#[test]
fn puts_back_the_word_space_a_text_object_boundary_lost() {
    let line = glyphs(&[
        ("S", Script::Normal, false),
        ("2", Script::Super, false),
        ("under", Script::Normal, true),
    ]);
    assert_eq!(assemble_line(&line), "S^2 under");
    // a space already there is not doubled
    let spaced = glyphs(&[("a ", Script::Normal, false), ("b", Script::Normal, true)]);
    assert_eq!(assemble_line(&spaced), "a b");
}

#[test]
fn an_unmapped_glyph_at_the_line_end_is_the_broken_hyphen() {
    let broken = glyphs(&[("corrup\u{2}", Script::Normal, false)]);
    assert_eq!(assemble_line(&broken), "corrup-");
    let trailing = glyphs(&[("corrup\u{2}  ", Script::Normal, false)]);
    assert_eq!(assemble_line(&trailing), "corrup-");
    let inside = glyphs(&[("a\u{2}b\u{3}c", Script::Normal, false)]);
    assert_eq!(assemble_line(&inside), "abc");
    assert_eq!(assemble_line(&glyphs(&[("  Theorem 1.1  ", Script::Normal, false)])), "Theorem 1.1");
    assert_eq!(assemble_line(&Vec::new()), "");
}
