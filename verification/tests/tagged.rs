use std::collections::HashSet;

use speedyf::tagged::{is_math_tag, to_latex, MathNode};

fn claimed(chars: &[u32]) -> HashSet<u32> {
    chars.iter().copied().collect()
}

fn leaf(tag: &str, text: &str) -> MathNode {
    MathNode::Leaf {
        tag: tag.into(),
        text: text.into(),
    }
}

fn row(tag: &str, children: Vec<MathNode>) -> MathNode {
    MathNode::Row {
        tag: tag.into(),
        children,
    }
}

#[test]
fn renders_a_superscript_the_way_it_was_written() {
    let node = row("msup", vec![leaf("mi", "L"), leaf("mn", "2")]);
    assert_eq!(to_latex(&node), "L^2");
}

#[test]
fn braces_a_multi_character_script() {
    let node = row("msup", vec![leaf("mi", "x"), leaf("mn", "10")]);
    assert_eq!(to_latex(&node), "x^{10}");
    let sub = row("msub", vec![leaf("mi", "α"), leaf("mtext", "ext")]);
    assert_eq!(to_latex(&sub), "α_{ext}");
}

#[test]
fn renders_the_structures_geometry_could_never_recover() {
    let frac = row("mfrac", vec![leaf("mi", "a"), leaf("mi", "b")]);
    assert_eq!(to_latex(&frac), "\\frac{a}{b}");
    let sqrt = row("msqrt", vec![leaf("mi", "x")]);
    assert_eq!(to_latex(&sqrt), "\\sqrt{x}");
    let root = row("mroot", vec![leaf("mi", "x"), leaf("mn", "3")]);
    assert_eq!(to_latex(&root), "\\sqrt[3]{x}");
}

#[test]
fn renders_a_sub_and_superscript_pair() {
    let node = row(
        "msubsup",
        vec![leaf("mi", "y"), leaf("mi", "i"), leaf("mn", "2")],
    );
    assert_eq!(to_latex(&node), "y_i^2");
}

#[test]
fn a_row_is_just_its_children_in_order() {
    let node = row(
        "math",
        vec![row(
            "mrow",
            vec![leaf("mi", "a"), leaf("mo", "+"), leaf("mi", "b")],
        )],
    );
    assert_eq!(to_latex(&node), "a+b");
}

#[test]
fn an_unknown_container_degrades_to_its_text() {
    let node = row("mfenced", vec![leaf("mi", "x"), leaf("mi", "y")]);
    assert_eq!(to_latex(&node), "xy");
}

#[test]
fn a_display_equation_survives_its_table_wrapper() {
    let node = row(
        "math",
        vec![row(
            "mtable",
            vec![row(
                "mtr",
                vec![row(
                    "mtd",
                    vec![
                        row("mfrac", vec![leaf("mi", "a"), leaf("mi", "b")]),
                        leaf("mo", "="),
                        row("msqrt", vec![leaf("mi", "x")]),
                    ],
                )],
            )],
        )],
    );
    assert_eq!(to_latex(&node), "\\frac{a}{b}=\\sqrt{x}");
}

#[test]
fn a_phantom_prints_nothing() {
    let node = row(
        "mrow",
        vec![leaf("mi", "a"), row("mphantom", vec![leaf("mi", "zzz")])],
    );
    assert_eq!(to_latex(&node), "a");
}

#[test]
fn only_mathml_elements_are_treated_as_mathematics() {
    for tag in ["math", "msup", "mfrac", "mi", "mo"] {
        assert!(is_math_tag(tag), "{tag}");
    }
    for tag in ["P", "Sect", "H1", "Formula", "Figure", "Span", ""] {
        assert!(!is_math_tag(tag), "{tag}");
    }
}

#[test]
fn a_math_span_takes_in_the_radical_drawn_beside_it() {
    let text: Vec<char> = "xy \u{221A}\nz".chars().collect();
    let span = speedyf::tagged::math_span("\\sqrt{z}".into(), &vec![5], &claimed(&[0, 1, 5]), &text)
        .expect("a span");
    assert_eq!((span.start, span.end), (3, 6));
    assert_eq!(span.latex, "\\sqrt{z}");
}

#[test]
fn a_math_span_reaches_back_only_so_far() {
    let text: Vec<char> = "a".repeat(30).chars().collect();
    let span = speedyf::tagged::math_span("x".into(), &vec![21, 20, 23], &claimed(&[]), &text).expect("a span");
    assert_eq!((span.start, span.end), (14, 24));
    // a claimed character stops it
    let stopped = speedyf::tagged::math_span("x".into(), &vec![20], &claimed(&[17]), &text).expect("a span");
    assert_eq!(stopped.start, 18);
}

#[test]
fn blank_or_empty_math_makes_no_span() {
    let text: Vec<char> = "abc".chars().collect();
    assert!(speedyf::tagged::math_span("  ".into(), &vec![1], &claimed(&[]), &text).is_none());
    assert!(speedyf::tagged::math_span("x".into(), &vec![], &claimed(&[]), &text).is_none());
}
