//! URLs, as the `url` crate parses them, and the two things the application
//! decides about one: whether a link from a document may be opened, and what
//! a render request asks for.

use crate::chars::{char_vec, ends_with_chars, is_digit, space, spaces, string_of, trim_by, trim_chars};
use crate::citation::ends_with;
use crate::printing::digits_value;
use crate::types::{priority_of, DocId, Priority, RenderKey, RenderKind, TileRect};
use vstd::prelude::*;

verus! {

// ---------------------------------------------------------------------------
// Parsing.

/// What the library reads of a parsed URL.
pub struct UrlParts {
    pub scheme: String,
    pub has_host: bool,
    /// The URL as the parser serializes it.
    pub serialized: String,
    pub path: String,
    /// The query's key-value pairs, decoded, in order.
    pub query: Vec<(String, String)>,
}

pub open spec fn pair_views(q: Seq<(String, String)>) -> Seq<(Seq<char>, Seq<char>)> {
    q.map_values(|p: (String, String)| (p.0@, p.1@))
}

pub open spec fn parts_view(p: UrlParts) -> (Seq<char>, bool, Seq<char>, Seq<char>, Seq<(Seq<char>, Seq<char>)>) {
    (p.scheme@, p.has_host, p.serialized@, p.path@, pair_views(p.query@))
}

/// What `url::Url::parse` makes of `input`: its scheme, whether it has a
/// host, its serialization, its path and its decoded query pairs; none when
/// the parser refuses the input.
pub uninterp spec fn url_parse(input: Seq<char>) -> Option<
    (Seq<char>, bool, Seq<char>, Seq<char>, Seq<(Seq<char>, Seq<char>)>),
>;

/// Calls `url::Url::parse` and reads the parts back out; the contract only
/// names the result.
#[verifier::external_body]
fn parse_url(input: &str) -> (r: Option<UrlParts>)
    ensures
        match r {
            Some(p) => url_parse(input@) == Some(parts_view(p)),
            None => url_parse(input@) is None,
        },
{
    match url::Url::parse(input) {
        Ok(u) => Some(UrlParts {
            scheme: u.scheme().to_owned(),
            has_host: u.host().is_some(),
            serialized: u.as_str().to_owned(),
            path: u.path().to_owned(),
            query: u.query_pairs().map(|(k, v)| (k.into_owned(), v.into_owned())).collect(),
        }),
        Err(_) => None,
    }
}

// ---------------------------------------------------------------------------
// Links out of a document.

/// Longest link looked at; real links are nowhere near this.
pub const MAX_URL_BYTES: usize = 4096;

/// The Unicode control characters (general category Cc), which is what
/// `char::is_control` tests.
pub open spec fn is_control(c: char) -> bool {
    ('\u{0}' <= c && c <= '\u{1f}') || ('\u{7f}' <= c && c <= '\u{9f}')
}

/// Schemes a document may send the user to. `file:` reaches the local disk,
/// `javascript:` and `data:` execute, and a custom scheme hands control to
/// whatever program claimed it, so everything else is refused.
pub open spec fn allowed_scheme(s: Seq<char>) -> bool {
    s == seq!['h', 't', 't', 'p'] || s == seq!['h', 't', 't', 'p', 's'] || s == seq!['m', 'a', 'i', 'l', 't', 'o']
}

/// The link to hand to the browser for a parsed URL: its serialization,
/// when it has an allowed scheme, a host unless it is `mailto:`, and no
/// control character.
pub open spec fn sanitized_parts(scheme: Seq<char>, has_host: bool, serialized: Seq<char>) -> Option<
    Seq<char>,
> {
    if !allowed_scheme(scheme) || (scheme != seq!['m', 'a', 'i', 'l', 't', 'o'] && !has_host)
        || exists|i: int| 0 <= i < serialized.len() && is_control(#[trigger] serialized[i]) {
        None
    } else {
        Some(serialized)
    }
}

/// The link to hand to the browser for `raw`: the parser's serialization of
/// the trimmed text, when that is at most 4096 bytes of UTF-8 and passes
/// `sanitized_parts`.
pub open spec fn sanitized(raw: Seq<char>) -> Option<Seq<char>> {
    let t = trim_by(raw, spaces());
    if t.len() == 0 || vstd::utf8::encode_utf8(t).len() > MAX_URL_BYTES {
        None
    } else {
        match url_parse(t) {
            None => None,
            Some((scheme, has_host, serialized, _, _)) => sanitized_parts(scheme, has_host, serialized),
        }
    }
}

fn same_chars(a: &[char], b: &[char]) -> (r: bool)
    ensures
        r == (a@ == b@),
{
    if a.len() != b.len() {
        return false;
    }
    let mut i: usize = 0;
    while i < a.len()
        invariant
            i <= a@.len(),
            a@.len() == b@.len(),
            forall|j: int| 0 <= j < i ==> a@[j] == b@[j],
        decreases a@.len() - i,
    {
        if a[i] != b[i] {
            return false;
        }
        i += 1;
    }
    proof {
        assert(a@ =~= b@);
    }
    true
}

pub(crate) fn control(c: char) -> (r: bool)
    ensures
        r == is_control(c),
{
    ('\u{0}' <= c && c <= '\u{1f}') || ('\u{7f}' <= c && c <= '\u{9f}')
}

fn scheme_allowed(s: &[char]) -> (r: (bool, bool))
    ensures
        r.0 == allowed_scheme(s@),
        r.1 == (s@ == seq!['m', 'a', 'i', 'l', 't', 'o']),
{
    let mut http: Vec<char> = Vec::new();
    http.push('h');
    http.push('t');
    http.push('t');
    http.push('p');
    let mut https: Vec<char> = Vec::new();
    https.push('h');
    https.push('t');
    https.push('t');
    https.push('p');
    https.push('s');
    let mut mailto: Vec<char> = Vec::new();
    mailto.push('m');
    mailto.push('a');
    mailto.push('i');
    mailto.push('l');
    mailto.push('t');
    mailto.push('o');
    proof {
        assert(http@ =~= seq!['h', 't', 't', 'p']);
        assert(https@ =~= seq!['h', 't', 't', 'p', 's']);
        assert(mailto@ =~= seq!['m', 'a', 'i', 'l', 't', 'o']);
    }
    let m = same_chars(s, &mailto);
    (same_chars(s, &http) || same_chars(s, &https) || m, m)
}

/// Decides on a parsed link: its serialization if the scheme is allowed, it
/// has a host where one is needed, and it holds no control character.
pub fn sanitize_parsed(parts: &UrlParts) -> (r: Option<String>)
    ensures
        match sanitized_parts(parts.scheme@, parts.has_host, parts.serialized@) {
            Some(s) => r matches Some(x) && x@ == s,
            None => r is None,
        },
        r matches Some(x) ==> forall|i: int| 0 <= i < x@.len() ==> !is_control(#[trigger] x@[i]),
{
    let scheme = char_vec(parts.scheme.as_str());
    let (allowed, mailto) = scheme_allowed(&scheme);
    if !allowed || (!mailto && !parts.has_host) {
        return None;
    }
    let out = char_vec(parts.serialized.as_str());
    let mut i: usize = 0;
    while i < out.len()
        invariant
            i <= out@.len(),
            out@ == parts.serialized@,
            forall|j: int| 0 <= j < i ==> !is_control(#[trigger] out@[j]),
        decreases out@.len() - i,
    {
        if control(out[i]) {
            proof {
                assert(is_control(parts.serialized@[i as int]));
            }
            return None;
        }
        i += 1;
    }
    Some(parts.serialized.clone())
}

/// Parses and normalizes a link a document points at, or refuses it. What
/// comes back is the parser's serialization, not the document's bytes:
/// parsing percent-encodes whatever was embedded, so quoting tricks cannot
/// survive into the command the platform opener builds.
pub fn sanitize_external_url(raw: &str) -> (r: Option<String>)
    ensures
        match sanitized(raw@) {
            Some(s) => r matches Some(x) && x@ == s,
            None => r is None,
        },
        r matches Some(x) ==> forall|i: int| 0 <= i < x@.len() ==> !is_control(#[trigger] x@[i]),
{
    let t = trim_chars(&char_vec(raw), space, Ghost(spaces()));
    let trimmed = string_of(&t);
    if t.len() == 0 || trimmed.as_str().as_bytes().len() > MAX_URL_BYTES {
        return None;
    }
    match parse_url(trimmed.as_str()) {
        Some(parts) => sanitize_parsed(&parts),
        None => None,
    }
}

// ---------------------------------------------------------------------------
// Render requests.

/// `s` without the `+` that may open a number.
pub open spec fn unsigned_digits(s: Seq<char>) -> Seq<char> {
    if s.len() > 0 && s[0] == '+' {
        s.skip(1)
    } else {
        s
    }
}

pub open spec fn all_digits(d: Seq<char>) -> bool {
    forall|i: int| 0 <= i < d.len() ==> is_digit(#[trigger] d[i])
}

/// `s` read as `str::parse` reads an unsigned number: an optional `+`, then
/// one or more decimal digits, worth at most `max`.
pub open spec fn parse_uint(s: Seq<char>, max: nat) -> Option<nat> {
    let d = unsigned_digits(s);
    if d.len() > 0 && all_digits(d) && digits_value(d) <= max {
        Some(digits_value(d) as nat)
    } else {
        None
    }
}

/// What the query of a render request has said so far.
#[derive(Clone, Copy, Debug)]
pub struct QueryFields {
    pub doc: Option<DocId>,
    pub src: u32,
    pub rot: u16,
    pub scale: u32,
    pub gen: u64,
    pub kind: RenderKind,
    pub tx: u32,
    pub ty: u32,
    pub tw: u32,
    pub th: u32,
    pub prio: Option<u8>,
}

pub open spec fn initial_fields() -> QueryFields {
    QueryFields {
        doc: None,
        src: 0,
        rot: 0,
        scale: 1000,
        gen: 0,
        kind: RenderKind::Page,
        tx: 0,
        ty: 0,
        tw: 0,
        th: 0,
        prio: None,
    }
}

pub open spec fn kind_named(v: Seq<char>) -> RenderKind {
    if v == "thumb"@ {
        RenderKind::Thumb
    } else if v == "tile"@ {
        RenderKind::Tile
    } else if v == "preview"@ {
        RenderKind::Preview
    } else {
        RenderKind::Page
    }
}

/// The fields once the pair `k`=`v` is read: a number that does not parse
/// refuses the whole request, except for `doc` and `p`, which it unsets.
/// Keys the request does not use are ignored.
pub open spec fn apply_pair(f: QueryFields, k: Seq<char>, v: Seq<char>) -> Option<QueryFields> {
    if k == "doc"@ {
        Some(
            QueryFields {
                doc: match parse_uint(v, u32::MAX as nat) {
                    Some(n) => Some(n as u32),
                    None => None,
                },
                ..f
            },
        )
    } else if k == "src"@ {
        match parse_uint(v, u32::MAX as nat) {
            Some(n) => Some(QueryFields { src: n as u32, ..f }),
            None => None,
        }
    } else if k == "rot"@ {
        match parse_uint(v, u16::MAX as nat) {
            Some(n) => Some(QueryFields { rot: n as u16, ..f }),
            None => None,
        }
    } else if k == "scale"@ {
        match parse_uint(v, u32::MAX as nat) {
            Some(n) => Some(QueryFields { scale: n as u32, ..f }),
            None => None,
        }
    } else if k == "gen"@ {
        match parse_uint(v, u64::MAX as nat) {
            Some(n) => Some(QueryFields { gen: n as u64, ..f }),
            None => None,
        }
    } else if k == "kind"@ {
        Some(QueryFields { kind: kind_named(v), ..f })
    } else if k == "tx"@ {
        match parse_uint(v, u32::MAX as nat) {
            Some(n) => Some(QueryFields { tx: n as u32, ..f }),
            None => None,
        }
    } else if k == "ty"@ {
        match parse_uint(v, u32::MAX as nat) {
            Some(n) => Some(QueryFields { ty: n as u32, ..f }),
            None => None,
        }
    } else if k == "tw"@ {
        match parse_uint(v, u32::MAX as nat) {
            Some(n) => Some(QueryFields { tw: n as u32, ..f }),
            None => None,
        }
    } else if k == "th"@ {
        match parse_uint(v, u32::MAX as nat) {
            Some(n) => Some(QueryFields { th: n as u32, ..f }),
            None => None,
        }
    } else if k == "p"@ {
        Some(
            QueryFields {
                prio: match parse_uint(v, u8::MAX as nat) {
                    Some(n) => Some(n as u8),
                    None => None,
                },
                ..f
            },
        )
    } else {
        Some(f)
    }
}

/// The fields after reading `pairs` in order.
pub open spec fn read_pairs(pairs: Seq<(Seq<char>, Seq<char>)>) -> Option<QueryFields>
    decreases pairs.len(),
{
    if pairs.len() == 0 {
        Some(initial_fields())
    } else {
        match read_pairs(pairs.drop_last()) {
            None => None,
            Some(f) => apply_pair(f, pairs.last().0, pairs.last().1),
        }
    }
}

/// The priority a kind of render gets when the request names none.
pub open spec fn default_priority(kind: RenderKind) -> Priority {
    match kind {
        RenderKind::Page => Priority::VisiblePage,
        RenderKind::Tile => Priority::VisibleTile,
        RenderKind::Thumb => Priority::VisibleThumb,
        RenderKind::Preview => Priority::HoverPreview,
    }
}

/// The request the fields make, if they make one: a document is named, the
/// rotation is a quarter turn below a full one, the scale is 1 to 12000
/// thousandths, and a tile or preview names a rectangle of 1 to 4096 pixels
/// each way.
pub open spec fn finish(f: QueryFields) -> Option<(RenderKey, u64, Priority)> {
    match f.doc {
        None => None,
        Some(doc) => {
            if f.rot % 90 != 0 || f.rot >= 360 || f.scale == 0 || f.scale > 12_000 {
                None
            } else {
                let tiled = f.kind == RenderKind::Tile || f.kind == RenderKind::Preview;
                if tiled && (f.tw == 0 || f.th == 0 || f.tw > 4096 || f.th > 4096) {
                    None
                } else {
                    let tile = if tiled {
                        Some(TileRect { x: f.tx, y: f.ty, w: f.tw, h: f.th })
                    } else {
                        None
                    };
                    let prio = match f.prio {
                        Some(p) => priority_of(p),
                        None => default_priority(f.kind),
                    };
                    Some(
                        (
                            RenderKey { doc, src: f.src, rot: f.rot, scale_milli: f.scale, kind: f.kind, tile },
                            f.gen,
                            prio,
                        ),
                    )
                }
            }
        },
    }
}

/// The render a parsed URL with `path` and query `pairs` asks for.
pub open spec fn render_from_parts(path: Seq<char>, pairs: Seq<(Seq<char>, Seq<char>)>) -> Option<
    (RenderKey, u64, Priority),
> {
    if !ends_with(path, "/render"@) {
        None
    } else {
        match read_pairs(pairs) {
            None => None,
            Some(f) => finish(f),
        }
    }
}

/// The render a `…/render?doc=…&src=…` URL asks for.
pub open spec fn render_request(uri: Seq<char>) -> Option<(RenderKey, u64, Priority)> {
    match url_parse(uri) {
        None => None,
        Some((_, _, _, path, pairs)) => render_from_parts(path, pairs),
    }
}

/// A render request: what to render, the generation it was asked under, and
/// how urgently.
#[derive(Clone, Copy, Debug)]
pub struct RenderQuery {
    pub key: RenderKey,
    pub gen: u64,
    pub prio: Priority,
}

fn parse_number(s: &[char], max: u64) -> (r: Option<u64>)
    ensures
        match parse_uint(s@, max as nat) {
            Some(n) => r == Some(n as u64),
            None => r is None,
        },
        r matches Some(n) ==> n <= max,
        parse_uint(s@, max as nat) matches Some(n) ==> n <= max,
{
    let start: usize = if s.len() > 0 && s[0] == '+' {
        1
    } else {
        0
    };
    let ghost d = s@.skip(start as int);
    proof {
        if start == 0 {
            assert(d =~= s@);
        }
        assert(d == unsigned_digits(s@));
    }
    if start >= s.len() {
        proof {
            assert(d.len() == 0);
        }
        return None;
    }
    let mut value: u128 = 0;
    let mut i = start;
    while i < s.len()
        invariant
            start <= i <= s@.len(),
            start < s@.len(),
            d == s@.skip(start as int),
            d == unsigned_digits(s@),
            forall|k: int| 0 <= k < i - start ==> is_digit(#[trigger] d[k]),
            value == digits_value(d.take(i - start)),
            value <= max,
        decreases s@.len() - i,
    {
        let c = s[i];
        proof {
            assert(d[i - start] == c);
        }
        if !('0' <= c && c <= '9') {
            proof {
                assert(!is_digit(d[i - start]));
                assert(!all_digits(d));
            }
            return None;
        }
        proof {
            assert(d.take(i - start + 1).drop_last() =~= d.take(i - start));
            assert(d.take(i - start + 1).last() == c);
        }
        value = value * 10 + (c as u32 - '0' as u32) as u128;
        proof {
            assert(value == digits_value(d.take(i - start + 1)));
        }
        if value > max as u128 {
            proof {
                if all_digits(d) {
                    lemma_digits_grow(d, i - start + 1);
                }
            }
            return None;
        }
        i += 1;
    }
    proof {
        assert(d.take(i - start) =~= d);
        assert(all_digits(d));
    }
    Some(value as u64)
}

/// Appending digits never makes a number smaller.
proof fn lemma_digits_grow(d: Seq<char>, n: int)
    requires
        0 <= n <= d.len(),
        forall|k: int| 0 <= k < d.len() ==> is_digit(#[trigger] d[k]),
    ensures
        digits_value(d) >= digits_value(d.take(n)),
    decreases d.len(),
{
    if n < d.len() {
        assert forall|k: int| 0 <= k < d.drop_last().len() implies is_digit(#[trigger] d.drop_last()[k]) by {
            assert(d.drop_last()[k] == d[k]);
        }
        lemma_digits_grow(d.drop_last(), n);
        assert(d.drop_last().take(n) =~= d.take(n));
        lemma_digits_nonneg(d.drop_last());
        assert(is_digit(d.last()));
    } else {
        assert(d.take(n) =~= d);
    }
}

proof fn lemma_digits_nonneg(d: Seq<char>)
    requires
        forall|k: int| 0 <= k < d.len() ==> is_digit(#[trigger] d[k]),
    ensures
        digits_value(d) >= 0,
    decreases d.len(),
{
    if d.len() > 0 {
        assert forall|k: int| 0 <= k < d.drop_last().len() implies is_digit(#[trigger] d.drop_last()[k]) by {
            assert(d.drop_last()[k] == d[k]);
        }
        lemma_digits_nonneg(d.drop_last());
        assert(is_digit(d.last()));
    }
}

fn key_is(k: &[char], name: &str) -> (r: bool)
    ensures
        r == (k@ == name@),
{
    same_chars(k, &char_vec(name))
}

fn read_pair(f: QueryFields, k: &[char], v: &[char]) -> (r: Option<QueryFields>)
    ensures
        r == apply_pair(f, k@, v@),
{
    if key_is(k, "doc") {
        let doc = match parse_number(v, 0xffff_ffff) {
            Some(n) => Some(n as u32),
            None => None,
        };
        Some(QueryFields { doc, ..f })
    } else if key_is(k, "src") {
        match parse_number(v, 0xffff_ffff) {
            Some(n) => Some(QueryFields { src: n as u32, ..f }),
            None => None,
        }
    } else if key_is(k, "rot") {
        match parse_number(v, 0xffff) {
            Some(n) => Some(QueryFields { rot: n as u16, ..f }),
            None => None,
        }
    } else if key_is(k, "scale") {
        match parse_number(v, 0xffff_ffff) {
            Some(n) => Some(QueryFields { scale: n as u32, ..f }),
            None => None,
        }
    } else if key_is(k, "gen") {
        match parse_number(v, 0xffff_ffff_ffff_ffff) {
            Some(n) => Some(QueryFields { gen: n, ..f }),
            None => None,
        }
    } else if key_is(k, "kind") {
        let kind = if key_is(v, "thumb") {
            RenderKind::Thumb
        } else if key_is(v, "tile") {
            RenderKind::Tile
        } else if key_is(v, "preview") {
            RenderKind::Preview
        } else {
            RenderKind::Page
        };
        Some(QueryFields { kind, ..f })
    } else if key_is(k, "tx") {
        match parse_number(v, 0xffff_ffff) {
            Some(n) => Some(QueryFields { tx: n as u32, ..f }),
            None => None,
        }
    } else if key_is(k, "ty") {
        match parse_number(v, 0xffff_ffff) {
            Some(n) => Some(QueryFields { ty: n as u32, ..f }),
            None => None,
        }
    } else if key_is(k, "tw") {
        match parse_number(v, 0xffff_ffff) {
            Some(n) => Some(QueryFields { tw: n as u32, ..f }),
            None => None,
        }
    } else if key_is(k, "th") {
        match parse_number(v, 0xffff_ffff) {
            Some(n) => Some(QueryFields { th: n as u32, ..f }),
            None => None,
        }
    } else if key_is(k, "p") {
        let prio = match parse_number(v, 0xff) {
            Some(n) => Some(n as u8),
            None => None,
        };
        Some(QueryFields { prio, ..f })
    } else {
        Some(f)
    }
}

fn finish_fields(f: QueryFields) -> (r: Option<RenderQuery>)
    ensures
        match finish(f) {
            Some((key, gen, prio)) => r matches Some(q) && q.key == key && q.gen == gen && q.prio == prio,
            None => r is None,
        },
{
    let doc = match f.doc {
        Some(d) => d,
        None => {
            return None;
        },
    };
    if f.rot % 90 != 0 || f.rot >= 360 || f.scale == 0 || f.scale > 12_000 {
        return None;
    }
    let tiled = match f.kind {
        RenderKind::Tile | RenderKind::Preview => true,
        _ => false,
    };
    if tiled && (f.tw == 0 || f.th == 0 || f.tw > 4096 || f.th > 4096) {
        return None;
    }
    let tile = if tiled {
        Some(TileRect { x: f.tx, y: f.ty, w: f.tw, h: f.th })
    } else {
        None
    };
    let prio = match f.prio {
        Some(p) => Priority::from_u8(p),
        None => match f.kind {
            RenderKind::Page => Priority::VisiblePage,
            RenderKind::Tile => Priority::VisibleTile,
            RenderKind::Thumb => Priority::VisibleThumb,
            RenderKind::Preview => Priority::HoverPreview,
        },
    };
    Some(
        RenderQuery {
            key: RenderKey { doc, src: f.src, rot: f.rot, scale_milli: f.scale, kind: f.kind, tile },
            gen: f.gen,
            prio,
        },
    )
}

/// Reads the render request a parsed URL makes: its path must end in
/// `/render`, and its query pairs are read in order.
pub fn render_query_from_parts(parts: &UrlParts) -> (r: Option<RenderQuery>)
    ensures
        match render_from_parts(parts.path@, pair_views(parts.query@)) {
            Some((key, gen, prio)) => r matches Some(q) && q.key == key && q.gen == gen && q.prio == prio,
            None => r is None,
        },
{
    let path = char_vec(parts.path.as_str());
    let suffix = char_vec("/render");
    if !ends_with_chars(&path, &suffix) {
        return None;
    }
    let ghost pairs = pair_views(parts.query@);
    let mut fields = QueryFields {
        doc: None,
        src: 0,
        rot: 0,
        scale: 1000,
        gen: 0,
        kind: RenderKind::Page,
        tx: 0,
        ty: 0,
        tw: 0,
        th: 0,
        prio: None,
    };
    let mut k: usize = 0;
    proof {
        assert(pairs.take(0) =~= Seq::<(Seq<char>, Seq<char>)>::empty());
    }
    while k < parts.query.len()
        invariant
            k <= parts.query@.len(),
            pairs == pair_views(parts.query@),
            ends_with(parts.path@, "/render"@),
            read_pairs(pairs.take(k as int)) == Some(fields),
        decreases parts.query@.len() - k,
    {
        let key = char_vec(parts.query[k].0.as_str());
        let value = char_vec(parts.query[k].1.as_str());
        proof {
            assert(pairs.take(k + 1).drop_last() =~= pairs.take(k as int));
            assert(pairs.take(k + 1).last() == (key@, value@));
        }
        match read_pair(fields, &key, &value) {
            Some(f) => {
                fields = f;
            },
            None => {
                proof {
                    assert(read_pairs(pairs.take(k + 1)) is None);
                    lemma_read_pairs_fails(pairs, (k + 1) as int);
                }
                return None;
            },
        }
        k += 1;
    }
    proof {
        assert(pairs.take(k as int) =~= pairs);
    }
    finish_fields(fields)
}

/// Reads a render request URL: `pdfr://localhost/render?doc=7&src=12&…`, or
/// the `http://pdfr.localhost/render?…` form some platforms rewrite it to.
/// Parameters it does not know, such as a retry counter, do not change what
/// it asks for.
pub fn parse_render_query(uri: &str) -> (r: Option<RenderQuery>)
    ensures
        match render_request(uri@) {
            Some((key, gen, prio)) => r matches Some(q) && q.key == key && q.gen == gen && q.prio == prio,
            None => r is None,
        },
{
    match parse_url(uri) {
        Some(parts) => render_query_from_parts(&parts),
        None => None,
    }
}

/// Once a prefix of the pairs refuses a request, the whole query does.
proof fn lemma_read_pairs_fails(pairs: Seq<(Seq<char>, Seq<char>)>, n: int)
    requires
        0 <= n <= pairs.len(),
        read_pairs(pairs.take(n)) is None,
    ensures
        read_pairs(pairs) is None,
    decreases pairs.len() - n,
{
    if n < pairs.len() {
        assert(pairs.take(n + 1).drop_last() =~= pairs.take(n));
        lemma_read_pairs_fails(pairs, n + 1);
    } else {
        assert(pairs.take(n) =~= pairs);
    }
}

/// The keys a render request reads.
pub open spec fn known_key(k: Seq<char>) -> bool {
    k == "doc"@ || k == "src"@ || k == "rot"@ || k == "scale"@ || k == "gen"@ || k == "kind"@ || k == "tx"@
        || k == "ty"@ || k == "tw"@ || k == "th"@ || k == "p"@
}

/// A parameter the request does not read, such as the counter a retry
/// appends to defeat the webview's cache, changes nothing it asks for.
pub proof fn lemma_unknown_parameter_changes_nothing(pairs: Seq<(Seq<char>, Seq<char>)>, k: Seq<char>, v: Seq<char>)
    requires
        !known_key(k),
    ensures
        read_pairs(pairs.push((k, v))) == read_pairs(pairs),
{
    assert(pairs.push((k, v)).drop_last() =~= pairs);
}

} // verus!
