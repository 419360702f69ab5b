//! Character classes and the conversions between `str` and character
//! vectors that the parsers work on.

use vstd::prelude::*;

verus! {

pub open spec fn is_digit(c: char) -> bool {
    '0' <= c && c <= '9'
}

pub open spec fn is_upper(c: char) -> bool {
    'A' <= c && c <= 'Z'
}

pub open spec fn is_lower(c: char) -> bool {
    'a' <= c && c <= 'z'
}

pub open spec fn is_alpha(c: char) -> bool {
    is_upper(c) || is_lower(c)
}

pub open spec fn is_alnum(c: char) -> bool {
    is_alpha(c) || is_digit(c)
}

pub open spec fn lower(c: char) -> char {
    if is_upper(c) {
        ((c as u32) + 32) as char
    } else {
        c
    }
}

pub open spec fn upper(c: char) -> char {
    if is_lower(c) {
        ((c as u32) - 32) as char
    } else {
        c
    }
}

/// Unicode White_Space, which is what `char::is_whitespace` tests.
pub open spec fn is_space(c: char) -> bool {
    ('\u{9}' <= c && c <= '\u{d}') || c == ' ' || c == '\u{85}' || c == '\u{a0}' || c == '\u{1680}'
        || ('\u{2000}' <= c && c <= '\u{200a}') || c == '\u{2028}' || c == '\u{2029}' || c
        == '\u{202f}' || c == '\u{205f}' || c == '\u{3000}'
}

pub fn ascii_digit(c: char) -> (r: bool)
    ensures
        r == is_digit(c),
{
    '0' <= c && c <= '9'
}

pub fn ascii_upper(c: char) -> (r: bool)
    ensures
        r == is_upper(c),
{
    'A' <= c && c <= 'Z'
}

pub fn ascii_alpha(c: char) -> (r: bool)
    ensures
        r == is_alpha(c),
{
    ('A' <= c && c <= 'Z') || ('a' <= c && c <= 'z')
}

pub fn ascii_alnum(c: char) -> (r: bool)
    ensures
        r == is_alnum(c),
{
    ascii_alpha(c) || ascii_digit(c)
}

pub fn to_lower(c: char) -> (r: char)
    ensures
        r == lower(c),
{
    if 'A' <= c && c <= 'Z' {
        let v = (c as u32) + 32;
        proof {
            assert(v <= 0x7a);
        }
        char_from_ascii(v)
    } else {
        c
    }
}

pub fn to_upper(c: char) -> (r: char)
    ensures
        r == upper(c),
{
    if 'a' <= c && c <= 'z' {
        let v = (c as u32) - 32;
        char_from_ascii(v)
    } else {
        c
    }
}

fn char_from_ascii(v: u32) -> (c: char)
    requires
        v < 128,
    ensures
        c == v as char,
{
    let b = v as u8;
    b as char
}

pub fn space(c: char) -> (r: bool)
    ensures
        r == is_space(c),
{
    ('\u{9}' <= c && c <= '\u{d}') || c == ' ' || c == '\u{85}' || c == '\u{a0}' || c == '\u{1680}'
        || ('\u{2000}' <= c && c <= '\u{200a}') || c == '\u{2028}' || c == '\u{2029}' || c
        == '\u{202f}' || c == '\u{205f}' || c == '\u{3000}'
}

/// Number of leading characters of `s` that satisfy `p`.
pub open spec fn lead(s: Seq<char>, p: spec_fn(char) -> bool) -> nat
    decreases s.len(),
{
    if s.len() > 0 && p(s[0]) {
        1 + lead(s.drop_first(), p)
    } else {
        0
    }
}

/// Number of trailing characters of `s` that satisfy `p`.
pub open spec fn trail(s: Seq<char>, p: spec_fn(char) -> bool) -> nat
    decreases s.len(),
{
    if s.len() > 0 && p(s.last()) {
        1 + trail(s.drop_last(), p)
    } else {
        0
    }
}

/// `s` with leading characters satisfying `p` removed.
pub open spec fn trim_start_by(s: Seq<char>, p: spec_fn(char) -> bool) -> Seq<char> {
    s.skip(lead(s, p) as int)
}

/// `s` with trailing characters satisfying `p` removed.
pub open spec fn trim_end_by(s: Seq<char>, p: spec_fn(char) -> bool) -> Seq<char> {
    s.take(s.len() - trail(s, p))
}

pub open spec fn trim_by(s: Seq<char>, p: spec_fn(char) -> bool) -> Seq<char> {
    trim_end_by(trim_start_by(s, p), p)
}

pub open spec fn trim_ws(s: Seq<char>) -> Seq<char> {
    trim_by(s, spaces())
}

pub proof fn lemma_lead_bound(s: Seq<char>, p: spec_fn(char) -> bool)
    ensures
        lead(s, p) <= s.len(),
        forall|i: int| 0 <= i < lead(s, p) ==> p(#[trigger] s[i]),
        lead(s, p) < s.len() ==> !p(s[lead(s, p) as int]),
    decreases s.len(),
{
    if s.len() > 0 && p(s[0]) {
        lemma_lead_bound(s.drop_first(), p);
        assert forall|i: int| 0 <= i < lead(s, p) implies p(#[trigger] s[i]) by {
            if i > 0 {
                assert(s[i] == s.drop_first()[i - 1]);
            }
        }
    }
}

/// A run of exactly `m` leading characters satisfying `p`.
pub proof fn lemma_lead_exact(s: Seq<char>, p: spec_fn(char) -> bool, m: int)
    requires
        0 <= m <= s.len(),
        forall|i: int| 0 <= i < m ==> p(#[trigger] s[i]),
        m < s.len() ==> !p(s[m]),
    ensures
        lead(s, p) == m,
    decreases m,
{
    if m > 0 {
        let d = s.drop_first();
        assert forall|i: int| 0 <= i < m - 1 implies p(#[trigger] d[i]) by {
            assert(d[i] == s[i + 1]);
        }
        if m < s.len() {
            assert(d[m - 1] == s[m]);
        }
        lemma_lead_exact(d, p, m - 1);
    }
}

/// A run of exactly `m` trailing characters satisfying `p`.
pub proof fn lemma_trail_exact(s: Seq<char>, p: spec_fn(char) -> bool, m: int)
    requires
        0 <= m <= s.len(),
        forall|i: int| s.len() - m <= i < s.len() ==> p(#[trigger] s[i]),
        m < s.len() ==> !p(s[s.len() - m - 1]),
    ensures
        trail(s, p) == m,
    decreases m,
{
    if m > 0 {
        let d = s.drop_last();
        assert forall|i: int| d.len() - (m - 1) <= i < d.len() implies p(#[trigger] d[i]) by {
            assert(d[i] == s[i]);
        }
        if m < s.len() {
            assert(d[d.len() - (m - 1) - 1] == s[s.len() - m - 1]);
        }
        assert(p(s.last()));
        lemma_trail_exact(d, p, m - 1);
    }
}

pub proof fn lemma_trail_bound(s: Seq<char>, p: spec_fn(char) -> bool)
    ensures
        trail(s, p) <= s.len(),
        forall|i: int| s.len() - trail(s, p) <= i < s.len() ==> p(#[trigger] s[i]),
        trail(s, p) < s.len() ==> !p(s[s.len() - trail(s, p) - 1]),
    decreases s.len(),
{
    if s.len() > 0 && p(s.last()) {
        lemma_trail_bound(s.drop_last(), p);
        assert forall|i: int| s.len() - trail(s, p) <= i < s.len() implies p(#[trigger] s[i]) by {
            if i < s.len() - 1 {
                assert(s[i] == s.drop_last()[i]);
            }
        }
    }
}

/// The characters of `s`.
pub(crate) fn char_vec(s: &str) -> (v: Vec<char>)
    ensures
        v@ == s@,
{
    let mut v: Vec<char> = Vec::new();
    let mut it = s.chars();
    proof {
        assert(v@ + vstd::std_specs::iter::IteratorSpec::remaining(&it) =~= s@);
    }
    loop
        invariant
            v@ + vstd::std_specs::iter::IteratorSpec::remaining(&it) == s@,
            vstd::std_specs::iter::IteratorSpec::decrease(&it) is Some,
        ensures
            v@ == s@,
        decreases vstd::std_specs::iter::IteratorSpec::decrease(&it)->0,
    {
        let ghost before = vstd::std_specs::iter::IteratorSpec::remaining(&it);
        match it.next() {
            Some(c) => {
                let ghost prev = v@;
                v.push(c);
                proof {
                    assert(before == seq![c] + vstd::std_specs::iter::IteratorSpec::remaining(&it));
                    assert(v@ + vstd::std_specs::iter::IteratorSpec::remaining(&it) =~= prev + before);
                }
            },
            None => {
                proof {
                    assert(v@ + before =~= v@);
                }
                break;
            },
        }
    }
    v
}

/// The string made of `v`'s characters.
#[verifier::external_body]
pub(crate) fn string_of(v: &[char]) -> (s: String)
    ensures
        s@ == v@,
{
    v.iter().collect()
}

/// Characters `from..to` of `v`.
pub fn slice_chars(v: &[char], from: usize, to: usize) -> (r: Vec<char>)
    requires
        from <= to <= v@.len(),
    ensures
        r@ == v@.subrange(from as int, to as int),
{
    let mut r: Vec<char> = Vec::new();
    let mut i = from;
    while i < to
        invariant
            from <= i <= to <= v@.len(),
            r@ == v@.subrange(from as int, i as int),
        decreases to - i,
    {
        r.push(v[i]);
        i += 1;
        proof {
            assert(r@ =~= v@.subrange(from as int, i as int));
        }
    }
    r
}

/// Index just past the leading characters of `v` from `from` on that satisfy
/// `p`, where `f` decides `p`.
pub(crate) fn skip_while<F: Fn(char) -> bool>(v: &[char], from: usize, f: F, Ghost(p): Ghost<spec_fn(char) -> bool>) -> (e: usize)
    requires
        from <= v@.len(),
        forall|c: char| #[trigger] f.requires((c,)),
        forall|c: char, r: bool| f.ensures((c,), r) ==> r == p(c),
    ensures
        e == from + lead(v@.skip(from as int), p),
{
    let mut i = from;
    proof {
        lemma_lead_bound(v@.skip(from as int), p);
    }
    while i < v.len() && f(v[i])
        invariant
            from <= i <= v@.len(),
            forall|c: char| #[trigger] f.requires((c,)),
            forall|c: char, r: bool| f.ensures((c,), r) ==> r == p(c),
            lead(v@.skip(from as int), p) == (i - from) + lead(v@.skip(i as int), p),
        decreases v@.len() - i,
    {
        proof {
            assert(v@.skip(i as int).drop_first() =~= v@.skip(i + 1));
        }
        i += 1;
    }
    i
}

/// `v` with the leading and trailing characters satisfying `p` (decided by
/// `f`) removed.
pub(crate) fn trim_chars<F: Fn(char) -> bool>(v: &[char], f: F, Ghost(p): Ghost<spec_fn(char) -> bool>) -> (r: Vec<char>)
    requires
        forall|c: char| #[trigger] f.requires((c,)),
        forall|c: char, r: bool| f.ensures((c,), r) ==> r == p(c),
    ensures
        r@ == trim_by(v@, p),
{
    let len = v.len();
    let a = skip_while(v, 0, &f, Ghost(p));
    proof {
        assert(v@.skip(0) =~= v@);
        lemma_lead_bound(v@, p);
    }
    let ghost u = v@.skip(a as int);
    let mut b = len;
    proof {
        assert(v@.subrange(a as int, len as int) =~= u);
    }
    while b > a && f(v[b - 1])
        invariant
            a <= b <= len,
            len == v@.len(),
            u == v@.skip(a as int),
            forall|c: char| #[trigger] f.requires((c,)),
            forall|c: char, r: bool| f.ensures((c,), r) ==> r == p(c),
            trail(u, p) == (len - b) + trail(v@.subrange(a as int, b as int), p),
        decreases b,
    {
        proof {
            let w = v@.subrange(a as int, b as int);
            assert(w.drop_last() =~= v@.subrange(a as int, b - 1));
            assert(w.last() == v@[b - 1]);
        }
        b -= 1;
    }
    proof {
        let w = v@.subrange(a as int, b as int);
        if b > a {
            assert(w.last() == v@[b - 1]);
        }
        assert(trail(w, p) == 0);
        assert(trim_start_by(v@, p) == u);
        assert(u.take(u.len() - trail(u, p)) =~= w);
    }
    slice_chars(v, a, b)
}

/// `v` with the trailing characters satisfying `p` (decided by `f`) removed.
pub(crate) fn trim_end_chars<F: Fn(char) -> bool>(v: &[char], f: F, Ghost(p): Ghost<spec_fn(char) -> bool>) -> (r: Vec<char>)
    requires
        forall|c: char| #[trigger] f.requires((c,)),
        forall|c: char, r: bool| f.ensures((c,), r) ==> r == p(c),
    ensures
        r@ == trim_end_by(v@, p),
{
    let len = v.len();
    let mut b = len;
    proof {
        assert(v@.subrange(0, len as int) =~= v@);
    }
    while b > 0 && f(v[b - 1])
        invariant
            b <= len,
            len == v@.len(),
            forall|c: char| #[trigger] f.requires((c,)),
            forall|c: char, r: bool| f.ensures((c,), r) ==> r == p(c),
            trail(v@, p) == (len - b) + trail(v@.subrange(0, b as int), p),
        decreases b,
    {
        proof {
            let w = v@.subrange(0, b as int);
            assert(w.drop_last() =~= v@.subrange(0, b - 1));
            assert(w.last() == v@[b - 1]);
        }
        b -= 1;
    }
    proof {
        let w = v@.subrange(0, b as int);
        if b > 0 {
            assert(w.last() == v@[b - 1]);
        }
        assert(trail(w, p) == 0);
        assert(v@.take(v@.len() - trail(v@, p)) =~= w);
    }
    slice_chars(v, 0, b)
}

/// Appends the characters of `v` to `out`.
pub(crate) fn push_all(out: &mut Vec<char>, v: &[char])
    ensures
        final(out)@ == old(out)@ + v@,
{
    let ghost head = out@;
    let mut i: usize = 0;
    while i < v.len()
        invariant
            i <= v@.len(),
            out@ == head + v@.take(i as int),
        decreases v@.len() - i,
    {
        out.push(v[i]);
        i += 1;
        proof {
            assert(out@ =~= head + v@.take(i as int));
        }
    }
    proof {
        assert(v@.take(i as int) =~= v@);
    }
}

/// Whether `v` ends with `x`.
pub(crate) fn ends_with_chars(v: &[char], x: &[char]) -> (r: bool)
    ensures
        r == (v@.len() >= x@.len() && v@.skip(v@.len() - x@.len()) == x@),
{
    let n = v.len();
    let m = x.len();
    if m > n {
        return false;
    }
    let mut j: usize = 0;
    while j < m
        invariant
            m <= n,
            n == v@.len(),
            m == x@.len(),
            j <= m,
            forall|k: int| 0 <= k < j ==> v@[n - m + k] == x@[k],
        decreases m - j,
    {
        if v[n - m + j] != x[j] {
            proof {
                assert(v@.skip(n - m)[j as int] != x@[j as int]);
            }
            return false;
        }
        j += 1;
    }
    assert(v@.skip(n - m) =~= x@);
    true
}

/// Whether `v` starts with `x`.
pub(crate) fn starts_with_chars(v: &[char], x: &[char]) -> (r: bool)
    ensures
        r == (v@.len() >= x@.len() && v@.take(x@.len() as int) == x@),
{
    let n = v.len();
    let m = x.len();
    if m > n {
        return false;
    }
    let mut j: usize = 0;
    while j < m
        invariant
            m <= n,
            n == v@.len(),
            m == x@.len(),
            j <= m,
            forall|k: int| 0 <= k < j ==> v@[k] == x@[k],
        decreases m - j,
    {
        if v[j] != x[j] {
            proof {
                assert(v@.take(m as int)[j as int] != x@[j as int]);
            }
            return false;
        }
        j += 1;
    }
    assert(v@.take(m as int) =~= x@);
    true
}

pub open spec fn spaces() -> spec_fn(char) -> bool {
    |c: char| is_space(c)
}


/// Whether `c` has the Unicode Uppercase property, as `char::is_uppercase`
/// reports it.
pub uninterp spec fn unicode_upper(c: char) -> bool;

/// Whether `c` has the Unicode Alphabetic property, as `char::is_alphabetic`
/// reports it.
pub uninterp spec fn unicode_alpha(c: char) -> bool;

/// Calls `char::is_uppercase`; the contract only names the result.
#[verifier::external_body]
pub(crate) fn uppercase(c: char) -> (r: bool)
    ensures
        r == unicode_upper(c),
{
    c.is_uppercase()
}

/// Calls `char::is_alphabetic`; the contract only names the result.
#[verifier::external_body]
pub(crate) fn alphabetic(c: char) -> (r: bool)
    ensures
        r == unicode_alpha(c),
{
    c.is_alphabetic()
}

/// Whether `c` has the Unicode Lowercase property, as `char::is_lowercase`
/// reports it.
pub uninterp spec fn unicode_lower(c: char) -> bool;

/// Calls `char::is_lowercase`; the contract only names the result.
#[verifier::external_body]
pub(crate) fn lowercase(c: char) -> (r: bool)
    ensures
        r == unicode_lower(c),
{
    c.is_lowercase()
}

pub open spec fn alphas() -> spec_fn(char) -> bool {
    |c: char| unicode_alpha(c)
}


pub open spec fn not_newline() -> spec_fn(char) -> bool {
    |c: char| c != '\n'
}

pub open spec fn not_space() -> spec_fn(char) -> bool {
    |c: char| !is_space(c)
}

/// A line without the carriage return that ends it before a newline.
pub open spec fn without_cr(line: Seq<char>) -> Seq<char> {
    if line.len() > 0 && line.last() == '\r' {
        line.drop_last()
    } else {
        line
    }
}

/// The lines of `s`, as `str::lines` gives them: split at newlines, a
/// carriage return before a newline dropped, and no empty line after a final
/// newline.
pub open spec fn lines_of(s: Seq<char>) -> Seq<Seq<char>>
    decreases s.len(),
{
    if s.len() == 0 {
        Seq::empty()
    } else {
        let k = lead(s, not_newline()) as int;
        proof {
            lemma_lead_bound(s, not_newline());
        }
        if k >= s.len() {
            seq![s]
        } else {
            seq![without_cr(s.take(k))] + lines_of(s.skip(k + 1))
        }
    }
}

/// The whitespace-separated words of `s`, as `str::split_whitespace` gives
/// them.
pub open spec fn words_of(s: Seq<char>) -> Seq<Seq<char>>
    decreases s.len(),
{
    let t = trim_start_by(s, spaces());
    proof {
        lemma_lead_bound(s, spaces());
    }
    if t.len() == 0 {
        Seq::empty()
    } else {
        let k = lead(t, not_space()) as int;
        proof {
            lemma_lead_bound(t, not_space());
        }
        seq![t.take(k)] + words_of(t.skip(k))
    }
}

fn not_newline_char(c: char) -> (r: bool)
    ensures
        r == (c != '\n'),
{
    c != '\n'
}

fn not_space_char(c: char) -> (r: bool)
    ensures
        r == !is_space(c),
{
    !space(c)
}

/// The lines of `v`.
pub fn lines(v: &[char]) -> (r: Vec<Vec<char>>)
    ensures
        r@.map_values(|l: Vec<char>| l@) == lines_of(v@),
{
    let mut out: Vec<Vec<char>> = Vec::new();
    let mut i: usize = 0;
    proof {
        assert(v@.skip(0) =~= v@);
        assert(out@.map_values(|l: Vec<char>| l@) =~= Seq::<Seq<char>>::empty());
    }
    while i < v.len()
        invariant
            i <= v@.len(),
            lines_of(v@) == out@.map_values(|l: Vec<char>| l@) + lines_of(v@.skip(i as int)),
        decreases v@.len() - i,
    {
        let ghost s = v@.skip(i as int);
        let e = skip_while(v, i, not_newline_char, Ghost(not_newline()));
        proof {
            lemma_lead_bound(s, not_newline());
        }
        let ghost before = out@;
        if e >= v.len() {
            let line = slice_chars(v, i, e);
            out.push(line);
            proof {
                assert(line@ =~= s);
                assert(lines_of(s) == seq![s]);
                assert(out@.map_values(|l: Vec<char>| l@) =~= before.map_values(|l: Vec<char>| l@).push(s));
                assert(v@.skip(e as int) =~= Seq::<char>::empty());
                assert(lines_of(v@.skip(e as int)) =~= Seq::<Seq<char>>::empty());
            }
            i = e;
        } else {
            let end = if e > i && v[e - 1] == '\r' {
                e - 1
            } else {
                e
            };
            let line = slice_chars(v, i, end);
            out.push(line);
            proof {
                assert(s.take(e - i) =~= v@.subrange(i as int, e as int));
                assert(line@ =~= without_cr(s.take(e - i)));
                assert(s.skip(e - i + 1) =~= v@.skip(e + 1));
                assert(out@.map_values(|l: Vec<char>| l@) =~= before.map_values(|l: Vec<char>| l@).push(line@));
            }
            i = e + 1;
        }
    }
    proof {
        assert(v@.skip(i as int) =~= Seq::<char>::empty());
    }
    out
}

/// The whitespace-separated words of `v`.
pub fn words(v: &[char]) -> (r: Vec<Vec<char>>)
    ensures
        r@.map_values(|w: Vec<char>| w@) == words_of(v@),
{
    let mut out: Vec<Vec<char>> = Vec::new();
    let mut i: usize = 0;
    proof {
        assert(v@.skip(0) =~= v@);
        assert(out@.map_values(|w: Vec<char>| w@) =~= Seq::<Seq<char>>::empty());
    }
    while i < v.len()
        invariant
            i <= v@.len(),
            words_of(v@) == out@.map_values(|w: Vec<char>| w@) + words_of(v@.skip(i as int)),
        decreases v@.len() - i,
    {
        let ghost s = v@.skip(i as int);
        let a = skip_while(v, i, space, Ghost(spaces()));
        proof {
            lemma_lead_bound(s, spaces());
            assert(trim_start_by(s, spaces()) =~= v@.skip(a as int));
        }
        if a >= v.len() {
            proof {
                assert(words_of(s) =~= Seq::<Seq<char>>::empty());
                assert(v@.skip(a as int) =~= Seq::<char>::empty());
                assert(words_of(v@.skip(a as int)) =~= Seq::<Seq<char>>::empty());
            }
            i = a;
        } else {
            let ghost t = v@.skip(a as int);
            let e = skip_while(v, a, not_space_char, Ghost(not_space()));
            proof {
                lemma_lead_bound(t, not_space());
            }
            let ghost before = out@;
            let w = slice_chars(v, a, e);
            out.push(w);
            proof {
                assert(t.take(e - a) =~= w@);
                assert(t.skip(e - a) =~= v@.skip(e as int));
                assert(out@.map_values(|w: Vec<char>| w@) =~= before.map_values(|w: Vec<char>| w@).push(w@));
            }
            i = e;
        }
    }
    proof {
        assert(v@.skip(i as int) =~= Seq::<char>::empty());
    }
    out
}

} // verus!
