use speedyf::text::is_math_font;

#[test]
fn recognizes_the_families_tex_sets_mathematics_in() {
    for name in [
        "EWJNXA+CMMI10",
        "AUHLHB+CMSY10",
        "ZUKTGO+CMEX10",
        "TONINC+MSAM10",
        "XSBJNE+MSBM10",
        "CMMI7",
    ] {
        assert!(is_math_font(name), "{name}");
    }
}

#[test]
fn does_not_mistake_text_families_for_mathematics() {
    for name in [
        "FVZQGE+NimbusRomNo9L-Regu",
        "XKNVGO+CMR10",
        "Times-Roman",
        "Helvetica",
        "XTETFA+NimbusMonL-Regu",
        "",
    ] {
        assert!(!is_math_font(name), "{name}");
    }
}

#[test]
fn math_family_names_match_in_any_case_after_the_tag() {
    assert!(is_math_font("ABCDEF+cmmi10"));
    assert!(is_math_font("Foo-MathItalic"));
    assert!(is_math_font("XX+Math-Italic"));
    // the tag is not part of the family
    assert!(!is_math_font("CMMIAB+Roman"));
}
