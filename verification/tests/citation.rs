use speedyf::citation::{citation_from_filename, find_explicit_citations, parse_citation_id};
use speedyf::types::CitationIdDto;

#[test]
fn parses_doi_and_strips_sentence_punctuation() {
    assert_eq!(
        parse_citation_id("doi:10.1145/1234567."),
        Some(CitationIdDto::Doi("10.1145/1234567".into()))
    );
}

#[test]
fn parses_doi_url_and_rejects_incomplete_registrant() {
    assert_eq!(
        parse_citation_id("https://doi.org/10.1000/ABC_def"),
        Some(CitationIdDto::Doi("10.1000/abc_def".into()))
    );
    assert_eq!(parse_citation_id("10.114/nope"), None);
    assert_eq!(parse_citation_id("10.1145"), None);
}

#[test]
fn strips_arxiv_versions_for_modern_and_legacy_ids() {
    assert_eq!(
        parse_citation_id("arXiv:2401.12345v2"),
        Some(CitationIdDto::ArXiv("2401.12345".into()))
    );
    assert_eq!(
        parse_citation_id("https://arxiv.org/abs/math.GT/0309136v1"),
        Some(CitationIdDto::ArXiv("math.GT/0309136".into()))
    );
    assert_eq!(parse_citation_id("arXiv:2401.12345version"), None);
}

#[test]
fn reports_pdfium_character_ranges_for_explicit_text_ids() {
    let found = find_explicit_citations("See doi:10.1000/example and arXiv:2401.12345v3.");
    assert_eq!(found.len(), 2);
    assert_eq!(found[0].start, 4);
    assert_eq!(found[0].len, 19);
    assert_eq!(found[1].id, CitationIdDto::ArXiv("2401.12345".into()));
}

#[test]
fn recognizes_common_library_filename_patterns() {
    assert_eq!(
        citation_from_filename("arXiv-2401.12345v2.pdf"),
        Some(CitationIdDto::ArXiv("2401.12345".into()))
    );
    assert_eq!(
        citation_from_filename("10.1145_1234567.pdf"),
        Some(CitationIdDto::Doi("10.1145/1234567".into()))
    );
}

#[test]
fn text_without_a_prefixed_identifier_has_no_citations() {
    assert!(find_explicit_citations("plain prose, 10.1000/bare and 2401.12345").is_empty());
}
