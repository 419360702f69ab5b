use speedyf::types::{Priority, RenderKind, TileRect};
use speedyf::urls::{
    parse_render_query, render_query_from_parts, sanitize_external_url, sanitize_parsed, UrlParts,
    MAX_URL_BYTES,
};

#[test]
fn accepts_ordinary_web_and_mail_links() {
    assert_eq!(
        sanitize_external_url("https://arxiv.org/abs/1706.03762").as_deref(),
        Some("https://arxiv.org/abs/1706.03762")
    );
    assert_eq!(
        sanitize_external_url("http://example.com/a?b=c#d").as_deref(),
        Some("http://example.com/a?b=c#d")
    );
    assert!(sanitize_external_url("mailto:someone@example.edu").is_some());
}

#[test]
fn refuses_schemes_that_reach_the_local_machine() {
    for hostile in [
        "file:///etc/passwd",
        "javascript:alert(1)",
        "data:text/html,<script>alert(1)</script>",
        "vscode://file/Users/me/.ssh/id_rsa",
        "smb://198.51.100.4/share",
    ] {
        assert!(
            sanitize_external_url(hostile).is_none(),
            "should have refused {hostile}"
        );
    }
}

#[test]
fn refuses_malformed_hostless_and_oversized_links() {
    assert!(sanitize_external_url("").is_none());
    assert!(sanitize_external_url("   ").is_none());
    assert!(sanitize_external_url("not a url at all").is_none());
    assert!(sanitize_external_url("https://").is_none());
    let huge = format!("https://example.com/{}", "a".repeat(MAX_URL_BYTES));
    assert!(sanitize_external_url(&huge).is_none());
}

#[test]
fn normalization_encodes_what_the_document_embedded() {
    let sanitized = sanitize_external_url("https://example.com/a b\"c").expect("valid");
    assert!(!sanitized.contains(' '), "{sanitized}");
    assert!(!sanitized.contains('"'), "{sanitized}");
}

#[test]
fn output_never_carries_control_characters() {
    for raw in [
        "https://example.com/\u{0}x",
        "https://example.com/a\nb",
        "https://example.com/a\tb",
    ] {
        let sanitized = sanitize_external_url(raw).expect("host is valid");
        assert!(
            !sanitized.chars().any(char::is_control),
            "{raw:?} normalized to {sanitized:?}"
        );
    }
}

#[test]
fn surrounding_whitespace_is_not_part_of_a_link() {
    assert_eq!(
        sanitize_external_url("  https://example.com/x \n").as_deref(),
        Some("https://example.com/x")
    );
}

#[test]
fn parses_native_custom_scheme_render_urls() {
    let query = parse_render_query(
        "pdfr://localhost/render?doc=7&src=12&rot=90&scale=1750&gen=4&kind=page&p=2",
    )
    .expect("valid native render URL");
    assert_eq!(query.key.doc, 7);
    assert_eq!(query.key.src, 12);
    assert_eq!(query.key.rot, 90);
    assert_eq!(query.key.scale_milli, 1750);
    assert_eq!(query.key.kind, RenderKind::Page);
    assert_eq!(query.gen, 4);
    assert_eq!(query.prio, Priority::HoverPreview);
}

#[test]
fn parses_windows_http_rewrite_and_tile_query() {
    let query = parse_render_query(
        "http://pdfr.localhost/render?doc=2&src=3&rot=270&scale=4000&gen=9&kind=tile&tx=1024&ty=2048&tw=1024&th=900",
    )
    .expect("valid Windows render URL");
    assert_eq!(query.key.kind, RenderKind::Tile);
    assert_eq!(
        query.key.tile,
        Some(TileRect {
            x: 1024,
            y: 2048,
            w: 1024,
            h: 900,
        })
    );
    assert_eq!(query.prio, Priority::VisibleTile);
}

#[test]
fn parses_preview_crop_with_hover_priority() {
    let query = parse_render_query(
        "pdfr://localhost/render?doc=2&src=4&rot=0&scale=2000&gen=3&kind=preview&tx=20&ty=40&tw=840&th=600",
    )
    .expect("valid preview URL");
    assert_eq!(query.key.kind, RenderKind::Preview);
    assert_eq!(
        query.key.tile,
        Some(TileRect {
            x: 20,
            y: 40,
            w: 840,
            h: 600,
        })
    );
    assert_eq!(query.prio, Priority::HoverPreview);
}

#[test]
fn parses_deep_zoom_and_source_indices_above_u16() {
    let query = parse_render_query(
        "pdfr://localhost/render?doc=4&src=69999&rot=0&scale=12000&gen=2&kind=tile&tx=0&ty=0&tw=1024&th=1024",
    )
    .expect("large source indices and the maximum sharp zoom are valid");
    assert_eq!(query.key.src, 69_999);
    assert_eq!(query.key.scale_milli, 12_000);
}

#[test]
fn cache_busting_retry_param_does_not_change_the_render_key() {
    let base = "pdfr://localhost/render?doc=3&src=8&rot=0&scale=2000&gen=5&kind=tile&tx=0&ty=1024&tw=1024&th=1024";
    let plain = parse_render_query(base).expect("valid render URL");
    let retried = parse_render_query(&format!("{base}&retry=2")).expect("retry URL stays valid");
    assert_eq!(plain.key, retried.key);
    assert_eq!(plain.gen, retried.gen);
    assert_eq!(plain.prio, retried.prio);
}

#[test]
fn rejects_unsafe_or_malformed_render_queries() {
    assert!(
        parse_render_query("pdfr://localhost/render?doc=1&src=0&rot=45&scale=1000&gen=0").is_none()
    );
    assert!(
        parse_render_query("pdfr://localhost/render?doc=1&src=0&rot=0&scale=13000&gen=0").is_none()
    );
    assert!(parse_render_query(
        "pdfr://localhost/render?doc=1&src=0&rot=0&scale=1000&gen=0&kind=tile&tw=0&th=1024"
    )
    .is_none());
    assert!(parse_render_query(
        "pdfr://localhost/render?doc=1&src=0&rot=0&scale=2000&gen=0&kind=preview"
    )
    .is_none());
    assert!(parse_render_query("pdfr://localhost/not-render?doc=1&src=0&rot=0&scale=1000&gen=0").is_none());
}

#[test]
fn a_missing_or_unreadable_document_refuses_the_request() {
    assert!(parse_render_query("pdfr://localhost/render?src=0").is_none());
    assert!(parse_render_query("pdfr://localhost/render?doc=x").is_none());
    // a number that does not parse refuses the request outright
    assert!(parse_render_query("pdfr://localhost/render?doc=1&src=-1").is_none());
    assert!(parse_render_query("pdfr://localhost/render?doc=1&rot=70000").is_none());
    // defaults: a page at 1x, visible priority, an unreadable priority ignored
    let q = parse_render_query("pdfr://localhost/render?doc=%2B9&p=oops").expect("defaults");
    assert_eq!(q.key.doc, 9);
    assert_eq!(q.key.scale_milli, 1000);
    assert_eq!(q.key.tile, None);
    assert_eq!(q.prio, Priority::VisiblePage);
    let q = parse_render_query("pdfr://localhost/render?doc=1&kind=thumb&p=200").expect("thumb");
    assert_eq!(q.key.kind, RenderKind::Thumb);
    assert_eq!(q.prio, Priority::Idle);
}

fn parts(scheme: &str, has_host: bool, serialized: &str, path: &str, query: &[(&str, &str)]) -> UrlParts {
    UrlParts {
        scheme: scheme.to_string(),
        has_host,
        serialized: serialized.to_string(),
        path: path.to_string(),
        query: query.iter().map(|(k, v)| (k.to_string(), v.to_string())).collect(),
    }
}

#[test]
fn a_parsed_link_is_judged_by_scheme_host_and_characters() {
    assert_eq!(
        sanitize_parsed(&parts("https", true, "https://example.org/x", "/x", &[])).as_deref(),
        Some("https://example.org/x")
    );
    assert_eq!(
        sanitize_parsed(&parts("mailto", false, "mailto:a@b.c", "a@b.c", &[])).as_deref(),
        Some("mailto:a@b.c")
    );
    assert!(sanitize_parsed(&parts("http", false, "http:x", "x", &[])).is_none());
    assert!(sanitize_parsed(&parts("file", true, "file://host/etc", "/etc", &[])).is_none());
    assert!(sanitize_parsed(&parts("https", true, "https://e.org/\u{7}", "/", &[])).is_none());
    assert!(sanitize_parsed(&parts("https", true, "https://e.org/\u{85}", "/", &[])).is_none());
}

#[test]
fn a_parsed_render_url_is_read_from_its_path_and_pairs() {
    let q = render_query_from_parts(&parts(
        "pdfr",
        true,
        "pdfr://localhost/render?doc=3&src=8&kind=thumb&gen=5",
        "/render",
        &[("doc", "3"), ("src", "8"), ("kind", "thumb"), ("gen", "5")],
    ))
    .expect("a thumbnail request");
    assert_eq!(q.key.doc, 3);
    assert_eq!(q.key.src, 8);
    assert_eq!(q.key.kind, RenderKind::Thumb);
    assert_eq!(q.gen, 5);
    assert_eq!(q.prio, Priority::VisibleThumb);
    assert!(render_query_from_parts(&parts("pdfr", true, "pdfr://localhost/other?doc=3", "/other", &[("doc", "3")])).is_none());
    assert!(render_query_from_parts(&parts("pdfr", true, "pdfr://localhost/render?src=1", "/render", &[("src", "1")])).is_none());
    assert!(render_query_from_parts(&parts("pdfr", true, "x", "/render", &[("doc", "1"), ("rot", "45")])).is_none());
}
