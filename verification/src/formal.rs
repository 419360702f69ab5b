//! Recovering formal environments (theorems, lemmas, definitions, figures)
//! from the named destinations a LaTeX-compiled PDF carries.
//!
//! A destination supplies the anchor and the counter, the text at that anchor
//! supplies the real name, and the number appearing in both is what lets a
//! bad pairing be rejected rather than emitted with the wrong label.

use crate::chars::{
    alphabetic, alphas, ascii_alpha, ascii_alnum, ascii_digit, ascii_upper, char_vec, is_alnum,
    is_alpha, is_digit, is_space, is_upper, lead, lemma_lead_bound, push_all, skip_while,
    slice_chars, space, spaces, starts_with_chars, string_of, trim_chars, trim_end_by,
    trim_end_chars, trim_start_by, trim_ws, unicode_alpha, unicode_upper, uppercase,
};
use crate::search::{utf8_len, utf8_width, utf8_width_of};
use vstd::prelude::*;
use vstd::string::StringExecFns;

verus! {

pub open spec fn has_prefix(s: Seq<char>, p: Seq<char>) -> bool {
    s.len() >= p.len() && s.take(p.len() as int) == p
}

/// Section and chapter headings group the list at depth 0, subsections at 1.
pub open spec fn depth_of(name: Seq<char>) -> Option<u8> {
    if has_prefix(name, "section."@) || has_prefix(name, "chapter."@) || has_prefix(
        name,
        "appendix."@,
    ) {
        Some(0u8)
    } else if has_prefix(name, "subsection."@) {
        Some(1u8)
    } else {
        None
    }
}

/// Destinations hyperref emits that are never formal environments.
pub open spec fn structural_prefixes() -> Seq<Seq<char>> {
    seq![
        "page."@,
        "subsubsection."@,
        "part."@,
        "paragraph."@,
        "subparagraph."@,
        "cite."@,
        "Item."@,
        "thmt@dummyctr"@,
        "section*."@,
        "chapter*."@,
        "Hfootnote."@,
        "footnote."@,
        "equation."@,
    ]
}

pub open spec fn structural(name: Seq<char>) -> bool {
    name == "Doc-Start"@ || name == "Navigation"@ || exists|k: int|
        0 <= k < structural_prefixes().len() && has_prefix(name, #[trigger] structural_prefixes()[k])
}

pub open spec fn not_dot() -> spec_fn(char) -> bool {
    |c: char| c != '.'
}

/// One component of a printed counter: a number, or up to three letters.
pub open spec fn part_ok(p: Seq<char>) -> bool {
    p.len() > 0 && ((forall|i: int| 0 <= i < p.len() ==> is_digit(#[trigger] p[i])) || (p.len() <= 3
        && forall|i: int| 0 <= i < p.len() ==> is_alpha(#[trigger] p[i])))
}

/// A printed counter: dot-separated components, each a number or a short
/// letter like the `A` of an appendix.
pub open spec fn counter_ok(s: Seq<char>) -> bool
    decreases s.len(),
{
    let k = lead(s, not_dot()) as int;
    proof {
        lemma_lead_bound(s, not_dot());
    }
    part_ok(s.take(k)) && (k >= s.len() || counter_ok(s.skip(k + 1)))
}

/// The counter value a destination name encodes: what follows its first dot.
pub open spec fn number_of(name: Seq<char>) -> Option<Seq<char>> {
    let k = lead(name, not_dot()) as int;
    if k >= name.len() {
        None
    } else if counter_ok(name.skip(k + 1)) {
        Some(name.skip(k + 1))
    } else {
        None
    }
}

/// Where a counter's leading component ends: up to three capital letters, or
/// a run of digits.
pub open spec fn counter_head(rest: Seq<char>) -> int {
    if rest.len() > 0 && is_upper(rest[0]) {
        let u = lead(rest, |c: char| is_upper(c)) as int;
        if u < 3 {
            u
        } else {
            3
        }
    } else {
        lead(rest, |c: char| is_digit(c)) as int
    }
}

/// Where a counter ends once its dotted numeric components are taken: a dot
/// belongs to it only when a digit follows.
pub open spec fn dotted_end(rest: Seq<char>, n: int) -> int
    decreases rest.len() - n,
{
    if 0 <= n && n + 1 < rest.len() && rest[n] == '.' && is_digit(rest[n + 1]) {
        let d = lead(rest.skip(n + 1), |c: char| is_digit(c)) as int;
        proof {
            lemma_lead_bound(rest.skip(n + 1), |c: char| is_digit(c));
        }
        dotted_end(rest, n + 1 + d)
    } else {
        n
    }
}

/// The heading at the start of `text`: a capitalized word of at least three
/// bytes, then a counter that ends at a word boundary. Gives (kind, number).
pub open spec fn heading_of(text: Seq<char>) -> Option<(Seq<char>, Seq<char>)> {
    let t = trim_start_by(text, spaces());
    if t.len() == 0 || !unicode_upper(t[0]) {
        None
    } else {
        let k = lead(t, alphas()) as int;
        let kind = t.take(k);
        if utf8_len(kind) < 3 {
            None
        } else {
            let rest = trim_start_by(t.skip(k), spaces());
            let n0 = counter_head(rest);
            if n0 == 0 {
                None
            } else {
                let n = dotted_end(rest, n0);
                if 0 <= n < rest.len() && is_alnum(rest[n]) {
                    None
                } else {
                    Some((kind, rest.take(n)))
                }
            }
        }
    }
}

/// Bytes of text scanned for a heading after an anchor.
pub const HEADING_SEARCH_CHARS: u64 = 320;

/// The first heading, from character `k` on, that starts a word and carries
/// number `num`; the scan stops past the first 320 bytes.
pub open spec fn find_from(t: Seq<char>, k: int, boundary: bool, num: Seq<char>) -> Option<
    (Seq<char>, Seq<char>),
>
    decreases t.len() - k,
{
    if k < 0 || k >= t.len() || utf8_len(t.take(k)) > HEADING_SEARCH_CHARS {
        None
    } else if boundary && unicode_upper(t[k]) && heading_of(t.skip(k)) is Some && heading_of(
        t.skip(k),
    ).unwrap().1 == num {
        heading_of(t.skip(k))
    } else {
        find_from(t, k + 1, is_space(t[k]), num)
    }
}

/// What a destination and the text at its anchor agree on, if anything.
pub open spec fn reconciled(dest: Seq<char>, anchor: Seq<char>) -> Option<(Seq<char>, Seq<char>)> {
    if structural(dest) {
        None
    } else {
        match number_of(dest) {
            Some(num) => find_from(anchor, 0, true, num),
            None => None,
        }
    }
}

pub open spec fn opener(c: char) -> bool {
    c == '.' || c == ':' || c == ')' || c == ' '
}

/// A line opens with counter `counter` and then a title.
pub open spec fn opens_with(line: Seq<char>, counter: Seq<char>) -> bool {
    let t = trim_start_by(line, spaces());
    has_prefix(t, counter) && ({
        let rest = trim_start_by(t.skip(counter.len() as int), |c: char| opener(c));
        rest.len() > 0 && unicode_alpha(rest[0])
    })
}

// ---------------------------------------------------------------------------

fn has_prefix_str(v: &[char], p: &str) -> (r: bool)
    ensures
        r == has_prefix(v@, p@),
{
    let pv = char_vec(p);
    starts_with_chars(v, &pv)
}

/// Headings group the list rather than populate it: their depth is the
/// nesting the panel shows.
pub fn heading_depth(name: &str) -> (r: Option<u8>)
    ensures
        r == depth_of(name@),
{
    let v = char_vec(name);
    if has_prefix_str(&v, "section.") || has_prefix_str(&v, "chapter.") || has_prefix_str(
        &v,
        "appendix.",
    ) {
        Some(0)
    } else if has_prefix_str(&v, "subsection.") {
        Some(1)
    } else {
        None
    }
}

pub fn is_section_destination(name: &str) -> (r: bool)
    ensures
        r == depth_of(name@) is Some,
{
    heading_depth(name).is_some()
}

fn structural_prefix_list() -> (r: Vec<&'static str>)
    ensures
        r@.map_values(|p: &str| p@) == structural_prefixes(),
{
    let r = vec![
        "page.",
        "subsubsection.",
        "part.",
        "paragraph.",
        "subparagraph.",
        "cite.",
        "Item.",
        "thmt@dummyctr",
        "section*.",
        "chapter*.",
        "Hfootnote.",
        "footnote.",
        "equation.",
    ];
    assert(r@.map_values(|p: &str| p@) =~= structural_prefixes());
    r
}

fn str_eq(v: &[char], s: &str) -> (r: bool)
    ensures
        r == (v@ == s@),
{
    let w = char_vec(s);
    if v.len() != w.len() {
        return false;
    }
    let r = starts_with_chars(v, &w);
    proof {
        assert(v@.take(w@.len() as int) =~= v@);
    }
    r
}

pub fn is_structural_destination(name: &str) -> (r: bool)
    ensures
        r == structural(name@),
{
    let v = char_vec(name);
    if str_eq(&v, "Doc-Start") || str_eq(&v, "Navigation") {
        return true;
    }
    let prefixes = structural_prefix_list();
    let ghost ps = prefixes@.map_values(|p: &str| p@);
    let mut k: usize = 0;
    while k < prefixes.len()
        invariant
            k <= prefixes@.len(),
            ps == prefixes@.map_values(|p: &str| p@),
            ps == structural_prefixes(),
            v@ == name@,
            forall|j: int| 0 <= j < k ==> !has_prefix(v@, #[trigger] ps[j]),
        decreases prefixes@.len() - k,
    {
        if has_prefix_str(&v, prefixes[k]) {
            proof {
                assert(ps[k as int] == prefixes@[k as int]@);
                assert(has_prefix(name@, structural_prefixes()[k as int]));
            }
            return true;
        }
        k += 1;
    }
    proof {
        assert forall|j: int| 0 <= j < structural_prefixes().len() implies !has_prefix(
            name@,
            #[trigger] structural_prefixes()[j],
        ) by {
            assert(ps[j] == structural_prefixes()[j]);
        }
    }
    false
}

fn not_dot_char(c: char) -> (r: bool)
    ensures
        r == (c != '.'),
{
    c != '.'
}

fn part_is_ok(v: &[char], from: usize, to: usize) -> (r: bool)
    requires
        from <= to <= v@.len(),
    ensures
        r == part_ok(v@.subrange(from as int, to as int)),
{
    let ghost p = v@.subrange(from as int, to as int);
    if from == to {
        return false;
    }
    let mut digits = true;
    let mut letters = true;
    let mut i = from;
    while i < to
        invariant
            from <= i <= to <= v@.len(),
            p == v@.subrange(from as int, to as int),
            digits == forall|j: int| 0 <= j < i - from ==> is_digit(#[trigger] p[j]),
            letters == forall|j: int| 0 <= j < i - from ==> is_alpha(#[trigger] p[j]),
        decreases to - i,
    {
        let c = v[i];
        proof {
            assert(p[i - from] == c);
        }
        if !ascii_digit(c) {
            digits = false;
        }
        if !ascii_alpha(c) {
            letters = false;
        }
        i += 1;
    }
    digits || (to - from <= 3 && letters)
}

/// A printed counter: dotted components that are each a number, or a short
/// letter like the `A` of an appendix.
fn is_counter_value(v: &[char], from: usize) -> (r: bool)
    requires
        from <= v@.len(),
    ensures
        r == counter_ok(v@.skip(from as int)),
{
    let mut i = from;
    loop
        invariant
            from <= i <= v@.len(),
            counter_ok(v@.skip(from as int)) == counter_ok(v@.skip(i as int)),
        decreases v@.len() - i,
    {
        let e = skip_while(v, i, not_dot_char, Ghost(not_dot()));
        let ghost s = v@.skip(i as int);
        proof {
            lemma_lead_bound(s, not_dot());
            assert(s.take(e - i) =~= v@.subrange(i as int, e as int));
        }
        if !part_is_ok(v, i, e) {
            return false;
        }
        if e >= v.len() {
            return true;
        }
        proof {
            assert(s.skip(e - i + 1) =~= v@.skip(e + 1));
        }
        i = e + 1;
    }
}

/// The counter value encoded in a destination name: `theorem.3.1` gives
/// `3.1`; nothing when the name has no dotted counter tail.
pub fn destination_number(name: &str) -> (r: Option<String>)
    ensures
        match number_of(name@) {
            Some(n) => r matches Some(s) && s@ == n,
            None => r is None,
        },
{
    let v = char_vec(name);
    let k = skip_while(&v, 0, not_dot_char, Ghost(not_dot()));
    proof {
        assert(v@.skip(0) =~= v@);
        lemma_lead_bound(v@, not_dot());
    }
    if k >= v.len() {
        return None;
    }
    if is_counter_value(&v, k + 1) {
        Some(string_of(&slice_chars(&v, k + 1, v.len())))
    } else {
        None
    }
}

#[derive(Debug, PartialEq, Eq)]
pub struct Heading {
    /// the word as printed: "Theorem", "Lemma", "Figure"
    pub kind: String,
    pub number: String,
}

pub open spec fn heading_view(h: Heading) -> (Seq<char>, Seq<char>) {
    (h.kind@, h.number@)
}

fn upper_char(c: char) -> (r: bool)
    ensures
        r == is_upper(c),
{
    ascii_upper(c)
}

fn digit_char(c: char) -> (r: bool)
    ensures
        r == is_digit(c),
{
    ascii_digit(c)
}

fn utf8_bytes_of(v: &[char], from: usize, to: usize) -> (n: u64)
    requires
        from <= to <= v@.len(),
        to - from <= 0x1_0000_0000,
    ensures
        n == utf8_len(v@.subrange(from as int, to as int)),
{
    let mut n: u64 = 0;
    let mut i = from;
    while i < to
        invariant
            from <= i <= to <= v@.len(),
            to - from <= 0x1_0000_0000,
            n == utf8_len(v@.subrange(from as int, i as int)),
            n <= 4 * (i - from),
        decreases to - i,
    {
        proof {
            assert(v@.subrange(from as int, i + 1).drop_last() =~= v@.subrange(from as int, i as int));
        }
        n = n + utf8_width_of(v[i]);
        i += 1;
    }
    n
}

fn heading_at(v: &[char], from: usize) -> (r: Option<Heading>)
    requires
        from <= v@.len(),
    ensures
        match heading_of(v@.skip(from as int)) {
            Some(h) => r matches Some(x) && heading_view(x) == h,
            None => r is None,
        },
{
    let ghost text = v@.skip(from as int);
    let a = skip_while(v, from, space, Ghost(spaces()));
    let ghost t = trim_start_by(text, spaces());
    proof {
        lemma_lead_bound(text, spaces());
        assert(t =~= v@.skip(a as int));
    }
    if a >= v.len() || !uppercase(v[a]) {
        proof {
            if a < v@.len() {
                assert(t[0] == v@[a as int]);
            }
        }
        return None;
    }
    let e = skip_while(v, a, alphabetic, Ghost(alphas()));
    proof {
        lemma_lead_bound(t, alphas());
        assert(t.take(e - a) =~= v@.subrange(a as int, e as int));
    }
    if e - a < 3 {
        // at most two characters: fewer than three bytes unless wide
        let b = utf8_bytes_of(v, a, e);
        if b < 3 {
            return None;
        }
    } else {
        let b = utf8_bytes_of(v, a, a + 3);
        proof {
            lemma_utf8_len_at_least(v@.subrange(a as int, a + 3));
            lemma_utf8_len_mono(v@.subrange(a as int, e as int), 3);
            assert(v@.subrange(a as int, e as int).take(3) =~= v@.subrange(a as int, a + 3));
        }
    }
    let kind = slice_chars(v, a, e);
    let r0 = skip_while(v, e, space, Ghost(spaces()));
    let ghost rest = trim_start_by(t.skip(e - a), spaces());
    proof {
        assert(t.skip(e - a) =~= v@.skip(e as int));
        lemma_lead_bound(v@.skip(e as int), spaces());
        assert(rest =~= v@.skip(r0 as int));
    }
    match counter_len(v, r0) {
        None => None,
        Some(n) => {
            proof {
                assert(counter_len_of(v@.skip(r0 as int)) is Some);
                let m = counter_len_of(v@.skip(r0 as int)).unwrap();
                assert(r0 + m <= v@.len());
                assert(n as int == m);
            }
            let number = slice_chars(v, r0, r0 + n);
            proof {
                assert(number@ =~= rest.take(n as int));
            }
            Some(Heading { kind: string_of(&kind), number: string_of(&number) })
        },
    }
}

/// The length of the counter opening `rest`, if it is one that ends at a
/// word boundary.
pub open spec fn counter_len_of(rest: Seq<char>) -> Option<int> {
    let n0 = counter_head(rest);
    if n0 == 0 {
        None
    } else {
        let n = dotted_end(rest, n0);
        if 0 <= n < rest.len() && is_alnum(rest[n]) {
            None
        } else {
            Some(n)
        }
    }
}

fn counter_len(v: &[char], r0: usize) -> (r: Option<usize>)
    requires
        r0 <= v@.len(),
    ensures
        match counter_len_of(v@.skip(r0 as int)) {
            Some(n) => r matches Some(k) && k as int == n && r0 + n <= v@.len(),
            None => r is None,
        },
{
    let ghost rest = v@.skip(r0 as int);
    let len = v.len();
    let mut n: usize = 0;
    if r0 < len && ascii_upper(v[r0]) {
        let u = skip_while(v, r0, upper_char, Ghost(|c: char| is_upper(c)));
        proof {
            lemma_lead_bound(rest, |c: char| is_upper(c));
        }
        n = if u - r0 < 3 {
            u - r0
        } else {
            3
        };
    } else {
        let d = skip_while(v, r0, digit_char, Ghost(|c: char| is_digit(c)));
        proof {
            lemma_lead_bound(rest, |c: char| is_digit(c));
        }
        n = d - r0;
    }
    proof {
        if r0 < len {
            assert(rest[0] == v@[r0 as int]);
        }
        assert(n == counter_head(rest));
    }
    if n == 0 {
        return None;
    }
    while len - (r0 + n) > 1 && v[r0 + n] == '.' && ascii_digit(v[r0 + n + 1])
        invariant
            r0 <= len,
            len == v@.len(),
            rest == v@.skip(r0 as int),
            r0 + n <= len,
            n > 0,
            dotted_end(rest, counter_head(rest)) == dotted_end(rest, n as int),
        decreases len - n,
    {
        let d = skip_while(v, r0 + n + 1, digit_char, Ghost(|c: char| is_digit(c)));
        proof {
            assert(rest[n as int] == v@[r0 + n]);
            assert(rest[n + 1] == v@[r0 + n + 1]);
            assert(rest.skip(n + 1) =~= v@.skip(r0 + n + 1));
            lemma_lead_bound(rest.skip(n + 1), |c: char| is_digit(c));
        }
        n = d - r0;
    }
    proof {
        if len - (r0 + n) > 1 {
            assert(rest[n as int] == v@[r0 + n]);
            assert(rest[n + 1] == v@[r0 + n + 1]);
        }
        assert(dotted_end(rest, n as int) == n);
    }
    if r0 + n < len && ascii_alnum(v[r0 + n]) {
        proof {
            assert(rest[n as int] == v@[r0 + n]);
        }
        return None;
    }
    proof {
        if r0 + n < len {
            assert(rest[n as int] == v@[r0 + n]);
        }
    }
    Some(n)
}


proof fn lemma_utf8_len_at_least(s: Seq<char>)
    ensures
        utf8_len(s) >= s.len(),
    decreases s.len(),
{
    if s.len() > 0 {
        lemma_utf8_len_at_least(s.drop_last());
    }
}

proof fn lemma_utf8_len_mono(s: Seq<char>, k: int)
    requires
        0 <= k <= s.len(),
    ensures
        utf8_len(s.take(k)) <= utf8_len(s),
    decreases s.len() - k,
{
    if k < s.len() {
        lemma_utf8_len_mono(s, k + 1);
        assert(s.take(k + 1).drop_last() =~= s.take(k));
    } else {
        assert(s.take(k) =~= s);
    }
}

/// Parses the head of the text sitting at an anchor: `Theorem 1.1.`,
/// `Lemma B.1 (Name).`, `Figure 3: A caption.` give kind and number.
pub fn parse_heading(text: &str) -> (r: Option<Heading>)
    ensures
        match heading_of(text@) {
            Some(h) => r matches Some(x) && heading_view(x) == h,
            None => r is None,
        },
{
    let v = char_vec(text);
    proof {
        assert(v@.skip(0) =~= v@);
    }
    heading_at(&v, 0)
}

fn seq_eq(a: &[char], b: &[char]) -> (r: bool)
    ensures
        r == (a@ == b@),
{
    if a.len() != b.len() {
        return false;
    }
    let r = starts_with_chars(a, b);
    proof {
        assert(a@.take(b@.len() as int) =~= a@);
    }
    r
}

fn find_heading(v: &[char], number: &[char]) -> (r: Option<Heading>)
    ensures
        match find_from(v@, 0, true, number@) {
            Some(h) => r matches Some(x) && heading_view(x) == h,
            None => r is None,
        },
{
    let mut at_boundary = true;
    let mut offset: u64 = 0;
    let mut k: usize = 0;
    while k < v.len()
        invariant
            k <= v@.len(),
            offset == utf8_len(v@.take(k as int)),
            offset <= HEADING_SEARCH_CHARS + 4,
            find_from(v@, 0, true, number@) == find_from(v@, k as int, at_boundary, number@),
        decreases v@.len() - k,
    {
        if offset > HEADING_SEARCH_CHARS {
            return None;
        }
        let c = v[k];
        if at_boundary && uppercase(c) {
            let found = heading_at(v, k);
            match found {
                Some(h) => {
                    let num = char_vec(h.number.as_str());
                    if seq_eq(&num, number) {
                        return Some(h);
                    }
                },
                None => {},
            }
        }
        at_boundary = space(c);
        proof {
            assert(v@.take(k + 1).drop_last() =~= v@.take(k as int));
        }
        offset = offset + utf8_width_of(c);
        k += 1;
    }
    None
}

/// Pairs a destination with the text found at it. Nothing unless the two
/// agree on the number: that agreement is the whole verification story.
pub fn reconcile(dest_name: &str, anchor_text: &str) -> (r: Option<Heading>)
    ensures
        match reconciled(dest_name@, anchor_text@) {
            Some(h) => r matches Some(x) && heading_view(x) == h,
            None => r is None,
        },
{
    if is_structural_destination(dest_name) {
        return None;
    }
    match destination_number(dest_name) {
        None => None,
        Some(num) => {
            let v = char_vec(anchor_text);
            let n = char_vec(num.as_str());
            find_heading(&v, &n)
        },
    }
}

fn opener_char(c: char) -> (r: bool)
    ensures
        r == opener(c),
{
    c == '.' || c == ':' || c == ')' || c == ' '
}

/// Whether `line` opens with the counter `counter` and then a title: the
/// title's letter separates "4. Canonicality" from arithmetic, and stops the
/// counter "4" from claiming the line "4.1. ...".
pub fn opens_with_counter(line: &str, counter: &str) -> (r: bool)
    ensures
        r == opens_with(line@, counter@),
{
    let v = char_vec(line);
    let c = char_vec(counter);
    let a = skip_while(&v, 0, space, Ghost(spaces()));
    proof {
        assert(v@.skip(0) =~= v@);
        lemma_lead_bound(v@, spaces());
    }
    let t = slice_chars(&v, a, v.len());
    proof {
        assert(t@ =~= trim_start_by(line@, spaces()));
    }
    if !starts_with_chars(&t, &c) {
        return false;
    }
    let b = skip_while(&t, c.len(), opener_char, Ghost(|ch: char| opener(ch)));
    proof {
        lemma_lead_bound(t@.skip(c@.len() as int), |ch: char| opener(ch));
        if b < t@.len() {
            assert(trim_start_by(t@.skip(c@.len() as int), |ch: char| opener(ch))[0] == t@[b as int]);
        }
    }
    b < t.len() && alphabetic(t[b])
}

/// At most `limit` characters of `raw` from character `start` on.
pub open spec fn chars_window(raw: Seq<char>, start: int, limit: int) -> Seq<char> {
    let s = if start <= raw.len() {
        raw.skip(start)
    } else {
        Seq::empty()
    };
    if limit <= s.len() {
        s.take(limit)
    } else {
        s
    }
}

fn take_chars(raw: &str, start: usize, limit: usize) -> (r: String)
    ensures
        r@ == chars_window(raw@, start as int, limit as int),
{
    let v = char_vec(raw);
    let from = if start <= v.len() {
        start
    } else {
        v.len()
    };
    let to = if limit <= v.len() - from {
        from + limit
    } else {
        v.len()
    };
    let w = slice_chars(&v, from, to);
    proof {
        assert(w@ =~= chars_window(raw@, start as int, limit as int));
    }
    string_of(&w)
}

/// Whether a run of glyphs sits on the line, above it or below it.
#[derive(Clone, Copy, PartialEq, Eq, Structural, Debug)]
pub enum Script {
    Normal,
    Super,
    Sub,
}

/// How a run is written: as is on the line, else after `^` or `_`, braced
/// when it runs to more than one character, exactly as LaTeX requires.
pub open spec fn script_text(run: Seq<char>, kind: Script) -> Seq<char> {
    if run.len() == 0 {
        Seq::empty()
    } else {
        match kind {
            Script::Normal => run,
            Script::Super => if run.len() == 1 {
                seq!['^'] + run
            } else {
                seq!['^', '{'] + run + seq!['}']
            },
            Script::Sub => if run.len() == 1 {
                seq!['_'] + run
            } else {
                seq!['_', '{'] + run + seq!['}']
            },
        }
    }
}

/// Appends the characters of `run` to `out` the way `kind` says it is set.
fn push_script_chars(run: &Vec<char>, kind: Script, out: &mut Vec<char>)
    ensures
        final(out)@ == old(out)@ + script_text(run@, kind),
{
    let ghost start = out@;
    if run.len() == 0 {
        proof {
            assert(start + script_text(run@, kind) =~= start);
        }
        return;
    }
    let braced = match kind {
        Script::Normal => false,
        _ => run.len() != 1,
    };
    match kind {
        Script::Normal => {},
        Script::Super => {
            out.push('^');
        },
        Script::Sub => {
            out.push('_');
        },
    }
    if braced {
        out.push('{');
    }
    push_all(out, run.as_slice());
    if braced {
        out.push('}');
    }
    proof {
        match kind {
            Script::Normal => {
                assert(out@ =~= start + script_text(run@, kind));
            },
            Script::Super => {
                if run@.len() == 1 {
                    assert(out@ =~= start + script_text(run@, kind));
                } else {
                    assert(out@ =~= start + script_text(run@, kind));
                }
            },
            Script::Sub => {
                if run@.len() == 1 {
                    assert(out@ =~= start + script_text(run@, kind));
                } else {
                    assert(out@ =~= start + script_text(run@, kind));
                }
            },
        }
    }
}

/// Appends `run` to `out` the way `kind` says it is set.
pub fn push_script(run: &str, kind: Script, out: &mut String)
    ensures
        final(out)@ == old(out)@ + script_text(run@, kind),
{
    let v = char_vec(run);
    let mut w: Vec<char> = Vec::new();
    push_script_chars(&v, kind, &mut w);
    proof {
        assert(w@ =~= script_text(run@, kind));
    }
    let s = string_of(&w);
    out.append(s.as_str());
}

/// One glyph of a visual line, as the page geometry placed it: the character,
/// the script it is set in, and whether the gap before it reads as a word
/// space the text stream lost.
#[derive(Clone, Copy, PartialEq, Eq, Debug)]
pub struct LineGlyph {
    pub ch: char,
    pub kind: Script,
    pub word_gap: bool,
}

pub open spec fn ends_with_space(s: Seq<char>) -> bool {
    s.len() > 0 && s.last() == ' '
}

/// The text written so far, the run of same-script glyphs not yet written,
/// and that run's script, after the first `n` glyphs of a line.
///
/// A run is written out whenever the script changes. A lost word space is
/// restored where the geometry saw one, unless the text or the run already
/// ends in a space.
pub open spec fn line_state(g: Seq<LineGlyph>, n: int) -> (Seq<char>, Seq<char>, Script)
    decreases n,
{
    if n <= 0 {
        (Seq::empty(), Seq::empty(), Script::Normal)
    } else {
        let prev = line_state(g, n - 1);
        let x = g[n - 1];
        let spaced = x.word_gap && !ends_with_space(prev.1) && !ends_with_space(prev.0);
        let t1 = if spaced {
            prev.0 + script_text(prev.1, prev.2) + seq![' ']
        } else {
            prev.0
        };
        let r1 = if spaced {
            Seq::empty()
        } else {
            prev.1
        };
        let k1 = if spaced {
            Script::Normal
        } else {
            prev.2
        };
        if x.kind != k1 {
            (t1 + script_text(r1, k1), seq![x.ch], x.kind)
        } else {
            (t1, r1.push(x.ch), k1)
        }
    }
}

/// The whole line written out, scripts restored.
pub open spec fn line_written(g: Seq<LineGlyph>) -> Seq<char> {
    let s = line_state(g, g.len() as int);
    s.0 + script_text(s.1, s.2)
}

/// The last control character among the first `n` of `t`.
pub open spec fn last_control(t: Seq<char>, n: int) -> Option<int>
    decreases n,
{
    if n <= 0 {
        None
    } else if crate::urls::is_control(t[n - 1]) {
        Some(n - 1)
    } else {
        last_control(t, n - 1)
    }
}

/// A glyph PDFium cannot map to Unicode comes back as a control character,
/// which in these papers is nearly always the hyphen a word was broken with.
/// The last one turns back into a hyphen when nothing but white space follows
/// it.
pub open spec fn broken_hyphen(t: Seq<char>) -> Option<int> {
    match last_control(t, t.len() as int) {
        Some(i) => if trim_end_by(t, spaces()).len() <= i + 1 {
            Some(i)
        } else {
            None
        },
        None => None,
    }
}

pub open spec fn controls_dropped(t: Seq<char>, hyphen: Option<int>, n: int) -> Seq<char>
    decreases n,
{
    if n <= 0 {
        Seq::empty()
    } else {
        let p = controls_dropped(t, hyphen, n - 1);
        if !crate::urls::is_control(t[n - 1]) {
            p.push(t[n - 1])
        } else if hyphen == Some(n - 1) {
            p.push('-')
        } else {
            p
        }
    }
}

/// `t` with its control characters dropped, but for the broken hyphen.
pub open spec fn without_controls(t: Seq<char>) -> Seq<char> {
    controls_dropped(t, broken_hyphen(t), t.len() as int)
}

/// The text of a visual line: written out, cleaned of control characters
/// and trimmed of white space.
pub open spec fn line_text(g: Seq<LineGlyph>) -> Seq<char> {
    trim_ws(without_controls(line_written(g)))
}

fn ends_in_space(v: &Vec<char>) -> (r: bool)
    ensures
        r == ends_with_space(v@),
{
    v.len() > 0 && v[v.len() - 1] == ' '
}

fn same_script(a: Script, b: Script) -> (r: bool)
    ensures
        r == (a == b),
{
    match (a, b) {
        (Script::Normal, Script::Normal) => true,
        (Script::Super, Script::Super) => true,
        (Script::Sub, Script::Sub) => true,
        _ => false,
    }
}

proof fn lemma_last_control_range(t: Seq<char>, n: int)
    ensures
        last_control(t, n) matches Some(k) ==> 0 <= k < n,
    decreases n,
{
    if n > 0 && !crate::urls::is_control(t[n - 1]) {
        lemma_last_control_range(t, n - 1);
    }
}

fn drop_controls(t: &Vec<char>) -> (r: Vec<char>)
    ensures
        r@ == without_controls(t@),
{
    let mut last: Option<usize> = None;
    let mut i: usize = 0;
    while i < t.len()
        invariant
            i <= t@.len(),
            last == (match last_control(t@, i as int) {
                Some(k) => Some(k as usize),
                None => None::<usize>,
            }),
            last matches Some(k) ==> k < i,
        decreases t@.len() - i,
    {
        if crate::urls::control(t[i]) {
            last = Some(i);
        }
        i = i + 1;
    }
    proof {
        lemma_last_control_range(t@, t@.len() as int);
    }
    let trimmed = trim_end_chars(t.as_slice(), space, Ghost(spaces()));
    let hyphen: Option<usize> = match last {
        Some(k) => if trimmed.len() <= k + 1 {
            Some(k)
        } else {
            None
        },
        None => None,
    };
    let ghost h = broken_hyphen(t@);
    assert(hyphen == (match h {
        Some(k) => Some(k as usize),
        None => None::<usize>,
    }));
    let mut out: Vec<char> = Vec::new();
    let mut j: usize = 0;
    while j < t.len()
        invariant
            j <= t@.len(),
            h == broken_hyphen(t@),
            hyphen == (match h {
                Some(k) => Some(k as usize),
                None => None::<usize>,
            }),
            h matches Some(k) ==> 0 <= k < t@.len(),
            out@ == controls_dropped(t@, h, j as int),
        decreases t@.len() - j,
    {
        let c = t[j];
        if !crate::urls::control(c) {
            out.push(c);
        } else if hyphen == Some(j) {
            out.push('-');
        }
        j = j + 1;
    }
    out
}

/// The text of one visual line from its glyphs: runs written with their
/// scripts restored, lost word spaces put back, the control characters
/// PDFium substitutes for unmapped glyphs dropped (the last, at the line's
/// end, becoming the hyphen it was), and white space trimmed.
pub fn assemble_line(glyphs: &Vec<LineGlyph>) -> (r: String)
    ensures
        r@ == line_text(glyphs@),
{
    let mut text: Vec<char> = Vec::new();
    let mut run: Vec<char> = Vec::new();
    let mut kind = Script::Normal;
    let mut i: usize = 0;
    while i < glyphs.len()
        invariant
            i <= glyphs@.len(),
            line_state(glyphs@, i as int).0 == text@,
            line_state(glyphs@, i as int).1 == run@,
            line_state(glyphs@, i as int).2 == kind,
        decreases glyphs@.len() - i,
    {
        let g = glyphs[i];
        if g.word_gap && !ends_in_space(&run) && !ends_in_space(&text) {
            push_script_chars(&run, kind, &mut text);
            text.push(' ');
            run = Vec::new();
            kind = Script::Normal;
        }
        if !same_script(g.kind, kind) {
            push_script_chars(&run, kind, &mut text);
            run = Vec::new();
            kind = g.kind;
        }
        run.push(g.ch);
        i = i + 1;
        proof {
            let s = line_state(glyphs@, i as int);
            assert(s.0 =~= text@);
            assert(s.1 =~= run@);
        }
    }
    push_script_chars(&run, kind, &mut text);
    let cleaned = drop_controls(&text);
    let t = trim_chars(cleaned.as_slice(), space, Ghost(spaces()));
    string_of(&t)
}


/// Where an anchor sits in reading order: its page, and its height on the page
/// (display space is y-up, so a larger height is nearer the top).
#[derive(Clone, Copy, PartialEq, Eq, Debug)]
pub struct ReadingPosition {
    pub page: u32,
    pub height: i64,
}

/// A section (depth 0) or subsection (depth 1 and deeper) heading, placed.
#[derive(Clone, Copy, PartialEq, Eq, Debug)]
pub struct HeadingPosition {
    pub depth: u8,
    pub at: ReadingPosition,
}

/// One row of the merged list: the heading or environment at `index` of its
/// input, at the nesting depth it is shown with.
#[derive(Clone, Copy, PartialEq, Eq, Debug)]
pub struct StructureRow {
    pub heading: bool,
    pub index: usize,
    pub depth: u8,
}

/// A heading stands above an environment when it is on an earlier page, or on
/// the same page at or above it.
pub open spec fn stands_above(h: ReadingPosition, e: ReadingPosition) -> bool {
    h.page < e.page || (h.page == e.page && h.height >= e.height)
}

/// The end of the run of headings from `k` on that stand above `e`.
pub open spec fn run_end(heads: Seq<HeadingPosition>, k: int, e: ReadingPosition) -> int
    decreases heads.len() - k,
{
    if k < 0 || k >= heads.len() || !stands_above(heads[k].at, e) {
        k
    } else {
        run_end(heads, k + 1, e)
    }
}

/// The last section heading among `heads[a..b]`.
pub open spec fn last_section(heads: Seq<HeadingPosition>, a: int, b: int) -> Option<int>
    decreases b - a,
{
    if b <= a {
        None
    } else if heads[b - 1].depth == 0 {
        Some(b - 1)
    } else {
        last_section(heads, a, b - 1)
    }
}

pub open spec fn heading_row(heads: Seq<HeadingPosition>, i: int) -> StructureRow {
    StructureRow { heading: true, index: i as usize, depth: heads[i].depth }
}

/// The rows one environment brings: the section that opened since the last
/// environment, then the subsection standing under it, then the environment.
/// A run of headings that ends in a subsection leaves the environment two
/// levels deep, one that ends in a section one level, and no new heading at
/// all leaves it where the previous environment was.
pub open spec fn block(
    heads: Seq<HeadingPosition>,
    start: int,
    end: int,
    shown: u8,
    env: int,
) -> (u8, Seq<StructureRow>) {
    let sub = end > start && heads[end - 1].depth >= 1;
    let sec = last_section(heads, start, end);
    let depth: u8 = if sub {
        2
    } else if sec is Some {
        1
    } else {
        shown
    };
    let sec_rows = match sec {
        Some(i) => seq![heading_row(heads, i)],
        None => Seq::empty(),
    };
    let sub_rows = if sub {
        seq![heading_row(heads, end - 1)]
    } else {
        Seq::empty()
    };
    (
        depth,
        sec_rows + sub_rows + seq![StructureRow { heading: false, index: env as usize, depth }],
    )
}

/// The merge after the first `j` environments: how many headings it has
/// passed, the depth the last environment was shown at, and the rows so far.
pub open spec fn merge_upto(heads: Seq<HeadingPosition>, envs: Seq<ReadingPosition>, j: int) -> (
    int,
    u8,
    Seq<StructureRow>,
)
    decreases j,
{
    if j <= 0 {
        (0, 0u8, Seq::empty())
    } else {
        let prev = merge_upto(heads, envs, j - 1);
        let end = run_end(heads, prev.0, envs[j - 1]);
        let b = block(heads, prev.0, end, prev.1, j - 1);
        (end, b.0, prev.2 + b.1)
    }
}

pub open spec fn merged(heads: Seq<HeadingPosition>, envs: Seq<ReadingPosition>) -> Seq<StructureRow> {
    merge_upto(heads, envs, envs.len() as int).2
}

proof fn lemma_last_section_range(heads: Seq<HeadingPosition>, a: int, b: int)
    ensures
        last_section(heads, a, b) matches Some(i) ==> a <= i < b && heads[i].depth == 0,
    decreases b - a,
{
    if b > a && heads[b - 1].depth != 0 {
        lemma_last_section_range(heads, a, b - 1);
    }
}

proof fn lemma_run_end_bounds(heads: Seq<HeadingPosition>, k: int, e: ReadingPosition)
    requires
        0 <= k <= heads.len(),
    ensures
        k <= run_end(heads, k, e) <= heads.len(),
    decreases heads.len() - k,
{
    if k < heads.len() && stands_above(heads[k].at, e) {
        lemma_run_end_bounds(heads, k + 1, e);
    }
}

proof fn lemma_merge_upto_bounds(heads: Seq<HeadingPosition>, envs: Seq<ReadingPosition>, j: int)
    requires
        0 <= j <= envs.len(),
    ensures
        0 <= merge_upto(heads, envs, j).0 <= heads.len(),
        merge_upto(heads, envs, j).1 <= 2,
    decreases j,
{
    if j > 0 {
        lemma_merge_upto_bounds(heads, envs, j - 1);
        let prev = merge_upto(heads, envs, j - 1);
        lemma_run_end_bounds(heads, prev.0, envs[j - 1]);
    }
}

/// Interleaves headings and environments into the list the formal panel
/// renders: each row names its entry by index into `headings` or
/// `environments`, headings keep their own depth, and each environment gets
/// the depth of the heading levels standing above it.
///
/// A heading is emitted only once something lands under it, and both inputs
/// are read in document order.
pub fn merge_structure(headings: &Vec<HeadingPosition>, environments: &Vec<ReadingPosition>) -> (rows: Vec<
    StructureRow,
>)
    ensures
        rows@ == merged(headings@, environments@),
{
    let mut rows: Vec<StructureRow> = Vec::new();
    let mut k: usize = 0;
    let mut shown: u8 = 0;
    let mut j: usize = 0;
    while j < environments.len()
        invariant
            j <= environments.len(),
            merge_upto(headings@, environments@, j as int) == (k as int, shown, rows@),
        decreases environments.len() - j,
    {
        proof {
            lemma_merge_upto_bounds(headings@, environments@, j as int);
        }
        let e = environments[j];
        let start = k;
        let mut section: Option<usize> = None;
        while k < headings.len() && stands_above_exec(headings[k].at, e)
            invariant
                start <= k <= headings.len(),
                run_end(headings@, start as int, e) == run_end(headings@, k as int, e),
                section == (match last_section(headings@, start as int, k as int) {
                    Some(i) => Some(i as usize),
                    None => None::<usize>,
                }),
            decreases headings.len() - k,
        {
            if headings[k].depth == 0 {
                section = Some(k);
            }
            k = k + 1;
        }
        proof {
            lemma_last_section_range(headings@, start as int, k as int);
        }
        assert(run_end(headings@, start as int, e) == k);
        let sub = k > start && headings[k - 1].depth >= 1;
        let depth: u8 = if sub {
            2
        } else if section.is_some() {
            1
        } else {
            shown
        };
        let ghost before = rows@;
        match section {
            Some(i) => {
                rows.push(StructureRow { heading: true, index: i, depth: headings[i].depth });
            },
            None => {},
        }
        if sub {
            rows.push(StructureRow { heading: true, index: k - 1, depth: headings[k - 1].depth });
        }
        rows.push(StructureRow { heading: false, index: j, depth });
        proof {
            let b = block(headings@, start as int, k as int, shown, j as int);
            assert(rows@ =~= before + b.1);
            assert(merge_upto(headings@, environments@, j + 1) == (k as int, depth, rows@));
        }
        shown = depth;
        j = j + 1;
    }
    rows
}

fn stands_above_exec(h: ReadingPosition, e: ReadingPosition) -> (r: bool)
    ensures
        r == stands_above(h, e),
{
    h.page < e.page || (h.page == e.page && h.height >= e.height)
}


/// The environment indices the rows name, in the order they appear.
pub open spec fn environment_order(rows: Seq<StructureRow>) -> Seq<int>
    decreases rows.len(),
{
    if rows.len() == 0 {
        Seq::empty()
    } else {
        let rest = environment_order(rows.drop_last());
        if rows.last().heading {
            rest
        } else {
            rest.push(rows.last().index as int)
        }
    }
}

/// Every heading row has an environment at most two rows below it.
pub open spec fn headings_are_filled(rows: Seq<StructureRow>) -> bool {
    forall|i: int|
        0 <= i < rows.len() && #[trigger] rows[i].heading ==> (i + 1 < rows.len() && !rows[i
            + 1].heading) || (i + 2 < rows.len() && !rows[i + 2].heading)
}

proof fn lemma_environment_order_append(a: Seq<StructureRow>, b: Seq<StructureRow>)
    ensures
        environment_order(a + b) == environment_order(a) + environment_order(b),
    decreases b.len(),
{
    if b.len() == 0 {
        assert(a + b =~= a);
        assert(environment_order(a) + environment_order(b) =~= environment_order(a));
    } else {
        lemma_environment_order_append(a, b.drop_last());
        assert((a + b).drop_last() =~= a + b.drop_last());
        assert((a + b).last() == b.last());
        if !b.last().heading {
            assert(environment_order(a + b) =~= environment_order(a) + environment_order(b));
        }
    }
}

proof fn lemma_heading_rows_name_no_environment(rows: Seq<StructureRow>)
    requires
        forall|k: int| 0 <= k < rows.len() ==> #[trigger] rows[k].heading,
    ensures
        environment_order(rows) == Seq::<int>::empty(),
    decreases rows.len(),
{
    if rows.len() > 0 {
        let rest = rows.drop_last();
        assert forall|k: int| 0 <= k < rest.len() implies #[trigger] rest[k].heading by {
            assert(rest[k] == rows[k]);
        }
        lemma_heading_rows_name_no_environment(rest);
        assert(rows.last().heading);
    }
}

proof fn lemma_merge_upto_rows(heads: Seq<HeadingPosition>, envs: Seq<ReadingPosition>, j: int)
    requires
        0 <= j <= envs.len(),
        envs.len() <= usize::MAX,
    ensures
        environment_order(merge_upto(heads, envs, j).2) == Seq::new(j as nat, |i: int| i),
        headings_are_filled(merge_upto(heads, envs, j).2),
        merge_upto(heads, envs, j).2.len() > 0 ==> !merge_upto(heads, envs, j).2.last().heading,
    decreases j,
{
    if j == 0 {
        assert(environment_order(Seq::<StructureRow>::empty()) =~= Seq::new(0, |i: int| i));
    } else {
        lemma_merge_upto_rows(heads, envs, j - 1);
        let prev = merge_upto(heads, envs, j - 1);
        let end = run_end(heads, prev.0, envs[j - 1]);
        let b = block(heads, prev.0, end, prev.1, j - 1);
        let rows = prev.2 + b.1;
        let env_row = StructureRow { heading: false, index: (j - 1) as usize, depth: b.0 };
        let heads_rows = b.1.drop_last();
        assert(b.1 =~= heads_rows + seq![env_row]);
        assert(heads_rows.len() <= 2);
        assert forall|k: int| 0 <= k < heads_rows.len() implies #[trigger] heads_rows[k].heading by {}
        lemma_heading_rows_name_no_environment(heads_rows);
        let single = seq![env_row];
        assert(single.drop_last() =~= Seq::<StructureRow>::empty());
        assert(environment_order(Seq::<StructureRow>::empty()) =~= Seq::<int>::empty());
        assert(environment_order(single) =~= seq![(j - 1) as int]);
        lemma_environment_order_append(heads_rows, seq![env_row]);
        lemma_environment_order_append(prev.2, b.1);
        assert(environment_order(rows) =~= Seq::new(j as nat, |i: int| i));
        assert forall|i: int|
            0 <= i < rows.len() && #[trigger] rows[i].heading implies (i + 1 < rows.len()
                && !rows[i + 1].heading) || (i + 2 < rows.len() && !rows[i + 2].heading) by {
            if i < prev.2.len() {
                assert(prev.2[i].heading);
                if i + 1 < prev.2.len() && !prev.2[i + 1].heading {
                    assert(rows[i + 1] == prev.2[i + 1]);
                } else {
                    assert(rows[i + 2] == prev.2[i + 2]);
                }
            } else {
                assert(rows[rows.len() - 1] == env_row);
            }
        }
        assert(rows.last() == env_row);
    }
}

/// Merging keeps every environment exactly once and in document order, and
/// shows a heading only with an environment standing under it: each heading
/// row has an environment at most two rows below, and the list ends in an
/// environment.
pub proof fn lemma_merge_keeps_environments(heads: Seq<HeadingPosition>, envs: Seq<ReadingPosition>)
    requires
        envs.len() <= usize::MAX,
    ensures
        environment_order(merged(heads, envs)) == Seq::new(envs.len(), |i: int| i),
        headings_are_filled(merged(heads, envs)),
        merged(heads, envs).len() > 0 ==> !merged(heads, envs).last().heading,
{
    lemma_merge_upto_rows(heads, envs, envs.len() as int);
}


/// A top-level outline entry and the entries nested under it, each named by
/// its index in the flat heading list.
#[derive(Clone, Debug, PartialEq, Eq)]
pub struct OutlineGroup {
    pub index: usize,
    pub children: Vec<usize>,
}

pub open spec fn group_view(groups: Seq<OutlineGroup>) -> Seq<(usize, Seq<usize>)> {
    groups.map_values(|g: OutlineGroup| (g.index, g.children@))
}

/// A heading opens a group when it is a section, or when nothing stands
/// above it to hold it.
pub open spec fn opens_group(depths: Seq<u8>, i: int) -> bool {
    i == 0 || depths[i] == 0
}

/// The first `n` headings of a flat list, nested: each one that opens a group
/// starts a new top-level entry, and every other one joins the group above it.
pub open spec fn grouped(depths: Seq<u8>, n: int) -> Seq<(usize, Seq<usize>)>
    decreases n,
{
    if n <= 0 {
        Seq::empty()
    } else {
        let prev = grouped(depths, n - 1);
        if opens_group(depths, n - 1) {
            prev.push(((n - 1) as usize, Seq::empty()))
        } else {
            prev.update(prev.len() - 1, (prev.last().0, prev.last().1.push((n - 1) as usize)))
        }
    }
}

/// Nests a flat list of heading depths into the two-level outline: a section
/// (depth 0) starts a top-level entry, and a subsection attaches to the
/// section standing above it, or stays at the top when there is none.
pub fn nest_headings(depths: &Vec<u8>) -> (groups: Vec<OutlineGroup>)
    ensures
        group_view(groups@) == grouped(depths@, depths@.len() as int),
{
    let mut groups: Vec<OutlineGroup> = Vec::new();
    let mut i: usize = 0;
    proof {
        assert(group_view(groups@) =~= grouped(depths@, 0));
    }
    while i < depths.len()
        invariant
            i <= depths.len(),
            group_view(groups@) == grouped(depths@, i as int),
            i > 0 ==> groups@.len() >= 1,
        decreases depths.len() - i,
    {
        let ghost before = groups@;
        if i == 0 || depths[i] == 0 {
            let fresh = OutlineGroup { index: i, children: Vec::new() };
            groups.push(fresh);
            proof {
                assert(groups@ == before.push(fresh));
                assert(group_view(groups@) =~= grouped(depths@, i + 1));
            }
        } else {
            let mut last = groups.pop().unwrap();
            let ghost old_children = last.children@;
            last.children.push(i);
            groups.push(last);
            proof {
                let gv = group_view(before);
                assert(gv.len() == before.len());
                assert(groups@ =~= before.update(before.len() - 1, last));
                assert(gv.last() == (before.last().index, old_children));
                assert(group_view(groups@) =~= grouped(depths@, i + 1));
            }
        }
        i = i + 1;
    }
    groups
}

/// The destinations that are never formal environments are exactly hyperref's
/// own: the document start, the navigation anchor, and every name under one of
/// the prefixes for pages, lower sectioning levels, parts, paragraphs,
/// citations, list items, the theorem package's dummy counter, starred
/// sections and chapters, footnotes (`Hfootnote.` and `footnote.`) and
/// equations. Every other name may be offered as an environment.
pub proof fn lemma_structural_names(name: Seq<char>)
    ensures
        structural(name) <==> (name == "Doc-Start"@ || name == "Navigation"@ || has_prefix(name, "page."@)
            || has_prefix(name, "subsubsection."@) || has_prefix(name, "part."@) || has_prefix(
            name,
            "paragraph."@,
        ) || has_prefix(name, "subparagraph."@) || has_prefix(name, "cite."@) || has_prefix(
            name,
            "Item."@,
        ) || has_prefix(name, "thmt@dummyctr"@) || has_prefix(name, "section*."@) || has_prefix(
            name,
            "chapter*."@,
        ) || has_prefix(name, "Hfootnote."@) || has_prefix(name, "footnote."@) || has_prefix(
            name,
            "equation."@,
        )),
{
    let ps = structural_prefixes();
    assert(ps[0] == "page."@ && ps[1] == "subsubsection."@ && ps[2] == "part."@ && ps[3] == "paragraph."@);
    assert(ps[4] == "subparagraph."@ && ps[5] == "cite."@ && ps[6] == "Item."@ && ps[7] == "thmt@dummyctr"@);
    assert(ps[8] == "section*."@ && ps[9] == "chapter*."@ && ps[10] == "Hfootnote."@ && ps[11] == "footnote."@);
    assert(ps[12] == "equation."@ && ps.len() == 13);
}

/// A hyperref footnote anchor is never offered as a formal environment.
pub proof fn lemma_footnotes_are_structural(name: Seq<char>)
    requires
        has_prefix(name, "Hfootnote."@) || has_prefix(name, "footnote."@),
    ensures
        structural(name),
{
    lemma_structural_names(name);
}

} // verus!
