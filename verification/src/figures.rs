//! Figure and table captions, read from a page's text lines.
//!
//! Where a caption sits on the page is geometry and stays with the code that
//! measures it; what a caption line says, and how its continuation lines join
//! it, is decided here.

use crate::chars::{
    lemma_lead_exact, lemma_trail_exact,
    ascii_digit, char_vec, is_digit, is_space, lead, lemma_lead_bound, lemma_trail_bound, lower,
    lowercase, push_all, skip_while, slice_chars, space, spaces, string_of, to_lower, trail,
    trim_by, trim_chars, trim_end_by, trim_end_chars, trim_start_by, unicode_lower,
};
use vstd::prelude::*;

verus! {

/// Longest caption text kept for a panel row. A caption can run for a
/// paragraph; the row only needs enough to tell one figure from another.
pub const MAX_TITLE_CHARS: usize = 140;

/// The words that open a caption, in the order they are tried, so "figure"
/// wins over "fig.".
pub open spec fn caption_word(k: int) -> Seq<char> {
    if k == 0 {
        seq!['f', 'i', 'g', 'u', 'r', 'e']
    } else if k == 1 {
        seq!['f', 'i', 'g', '.']
    } else if k == 2 {
        seq!['t', 'a', 'b', 'l', 'e']
    } else if k == 3 {
        seq!['a', 'l', 'g', 'o', 'r', 'i', 't', 'h', 'm']
    } else if k == 4 {
        seq!['a', 'l', 'g', '.']
    } else {
        seq!['l', 'i', 's', 't', 'i', 'n', 'g']
    }
}

/// `s` opens with `w` once lowercased. Only ASCII letters are folded: every
/// caption word is ASCII, and no other character lowercases to a sequence
/// that could continue one of them.
pub open spec fn opens_with(s: Seq<char>, w: Seq<char>) -> bool {
    w.len() <= s.len() && forall|i: int| 0 <= i < w.len() ==> lower(#[trigger] s[i]) == w[i]
}

/// The first caption word, from the `k`-th on, that opens `s`.
pub open spec fn opening_word(s: Seq<char>, k: nat) -> Option<nat>
    decreases 6 - k,
{
    if k >= 6 {
        None
    } else if opens_with(s, caption_word(k as int)) {
        Some(k)
    } else {
        opening_word(s, k + 1)
    }
}

/// What may follow a caption's number: a colon, a full stop, a closing
/// parenthesis, a bar, an en or an em dash.
pub open spec fn is_terminator(c: char) -> bool {
    c == ':' || c == '.' || c == ')' || c == '|' || c == '\u{2013}' || c == '\u{2014}'
}

pub open spec fn title_junk() -> spec_fn(char) -> bool {
    |c: char| is_terminator(c) || c == ' '
}

/// A digit, or a dot with a digit right after it: a dot that ends
/// "Figure 2." is a terminator, not part of the number.
pub open spec fn in_number(s: Seq<char>, i: int) -> bool {
    is_digit(s[i]) || (s[i] == '.' && i + 1 < s.len() && is_digit(s[i + 1]))
}

/// Where the number that starts at `i` in `s` ends.
pub open spec fn number_end(s: Seq<char>, i: nat) -> nat
    decreases s.len() - i,
{
    if i < s.len() && in_number(s, i as int) {
        number_end(s, i + 1)
    } else {
        i
    }
}

/// A caption line's label ("Figure 2", printed as the line has it) and text.
///
/// What follows the number decides it: "Figure 2." or "Figure 2:" opens a
/// caption, while "Figure 2 computes ..." is prose naming the figure.
pub open spec fn caption_of(line: Seq<char>) -> Option<(Seq<char>, Seq<char>)> {
    let trimmed = trim_start_by(line, spaces());
    match opening_word(trimmed, 0) {
        None => None,
        Some(k) => {
            let wl = caption_word(k as int).len() as int;
            let rest = trim_start_by(trimmed.skip(wl), spaces());
            let n = number_end(rest, 0) as int;
            let after = trim_start_by(rest.skip(n), spaces());
            if n == 0 || !(after.len() == 0 || is_terminator(after[0])) {
                None
            } else {
                Some(
                    (
                        trimmed.take(wl) + seq![' '] + rest.take(n),
                        trim_end_by(trim_start_by(after, title_junk()), spaces()),
                    ),
                )
            }
        },
    }
}

fn caption_word_chars(k: usize) -> (w: Vec<char>)
    requires
        k < 6,
    ensures
        w@ == caption_word(k as int),
{
    let mut w: Vec<char> = Vec::new();
    if k == 0 {
        w.push('f');
        w.push('i');
        w.push('g');
        w.push('u');
        w.push('r');
        w.push('e');
    } else if k == 1 {
        w.push('f');
        w.push('i');
        w.push('g');
        w.push('.');
    } else if k == 2 {
        w.push('t');
        w.push('a');
        w.push('b');
        w.push('l');
        w.push('e');
    } else if k == 3 {
        w.push('a');
        w.push('l');
        w.push('g');
        w.push('o');
        w.push('r');
        w.push('i');
        w.push('t');
        w.push('h');
        w.push('m');
    } else if k == 4 {
        w.push('a');
        w.push('l');
        w.push('g');
        w.push('.');
    } else {
        w.push('l');
        w.push('i');
        w.push('s');
        w.push('t');
        w.push('i');
        w.push('n');
        w.push('g');
    }
    proof {
        assert(w@ =~= caption_word(k as int));
    }
    w
}

fn opens_with_chars(s: &[char], w: &[char]) -> (r: bool)
    ensures
        r == opens_with(s@, w@),
{
    if w.len() > s.len() {
        return false;
    }
    let mut i: usize = 0;
    while i < w.len()
        invariant
            i <= w@.len() <= s@.len(),
            forall|j: int| 0 <= j < i ==> lower(#[trigger] s@[j]) == w@[j],
        decreases w@.len() - i,
    {
        if to_lower(s[i]) != w[i] {
            return false;
        }
        i += 1;
    }
    true
}

proof fn lemma_opening_word(s: Seq<char>, k: nat)
    ensures
        opening_word(s, k) matches Some(j) ==> k <= j < 6 && opens_with(s, caption_word(j as int)),
    decreases 6 - k,
{
    if k < 6 && !opens_with(s, caption_word(k as int)) {
        lemma_opening_word(s, k + 1);
    }
}

fn opening_word_of(s: &[char]) -> (r: Option<usize>)
    ensures
        match opening_word(s@, 0) {
            Some(k) => r == Some(k as usize),
            None => r is None,
        },
        r matches Some(k) ==> k < 6,
{
    proof {
        lemma_opening_word(s@, 0);
    }
    let mut k: usize = 0;
    while k < 6
        invariant
            k <= 6,
            opening_word(s@, 0) == opening_word(s@, k as nat),
        decreases 6 - k,
    {
        let w = caption_word_chars(k);
        if opens_with_chars(s, &w) {
            return Some(k);
        }
        k += 1;
    }
    None
}

fn in_number_at(s: &[char], i: usize) -> (r: bool)
    requires
        i < s@.len(),
    ensures
        r == in_number(s@, i as int),
{
    ascii_digit(s[i]) || (s[i] == '.' && i + 1 < s.len() && ascii_digit(s[i + 1]))
}

fn title_junk_char(c: char) -> (r: bool)
    ensures
        r == (is_terminator(c) || c == ' '),
{
    c == ':' || c == '.' || c == ')' || c == '|' || c == '\u{2013}' || c == '\u{2014}' || c == ' '
}

/// `s.skip(from)` with its leading characters satisfying `p` removed is the
/// part of `s` after the index `skip_while` returns.
proof fn lemma_trim_start_skip(s: Seq<char>, from: int, p: spec_fn(char) -> bool)
    requires
        0 <= from <= s.len(),
    ensures
        trim_start_by(s.skip(from), p) == s.skip(from + lead(s.skip(from), p)),
        from + lead(s.skip(from), p) <= s.len(),
{
    lemma_lead_bound(s.skip(from), p);
    assert(s.skip(from).skip(lead(s.skip(from), p) as int) =~= s.skip(from + lead(s.skip(from), p)));
}

fn number_len(rest: &[char]) -> (n: usize)
    ensures
        n == number_end(rest@, 0),
        n <= rest@.len(),
{
    let mut n: usize = 0;
    while n < rest.len() && in_number_at(rest, n)
        invariant
            n <= rest@.len(),
            number_end(rest@, 0) == number_end(rest@, n as nat),
        decreases rest@.len() - n,
    {
        n += 1;
    }
    n
}

fn caption_title(rest: &[char], c: usize) -> (title: Vec<char>)
    requires
        c <= rest@.len(),
    ensures
        title@ == trim_end_by(trim_start_by(rest@.skip(c as int), title_junk()), spaces()),
{
    let d = skip_while(rest, c, title_junk_char, Ghost(title_junk()));
    proof {
        lemma_trim_start_skip(rest@, c as int, title_junk());
    }
    let tail = slice_chars(rest, d, rest.len());
    proof {
        assert(tail@ =~= trim_start_by(rest@.skip(c as int), title_junk()));
    }
    trim_end_chars(&tail, space, Ghost(spaces()))
}

fn trim_start_from(v: &[char], from: usize) -> (r: Vec<char>)
    requires
        from <= v@.len(),
    ensures
        r@ == trim_start_by(v@.skip(from as int), spaces()),
{
    let a = skip_while(v, from, space, Ghost(spaces()));
    proof {
        lemma_trim_start_skip(v@, from as int, spaces());
    }
    let r = slice_chars(v, a, v.len());
    proof {
        assert(r@ =~= v@.skip(a as int));
    }
    r
}

/// Split a caption line into its label and the text that follows.
///
/// A caption reads "Figure 2." or "Figure 2:", while prose reads "Figure 2
/// computes the ...": without the terminator rule every sentence that opens
/// by naming a figure would become a row in the panel.
pub fn parse_caption(line: &str) -> (r: Option<(String, String)>)
    ensures
        match caption_of(line@) {
            Some((label, title)) => r matches Some(p) && p.0@ == label && p.1@ == title,
            None => r is None,
        },
{
    let v = char_vec(line);
    let trimmed = trim_start_from(&v, 0);
    proof {
        assert(v@.skip(0) =~= v@);
        lemma_opening_word(trimmed@, 0);
    }
    let k = match opening_word_of(&trimmed) {
        Some(k) => k,
        None => {
            return None;
        },
    };
    let w = caption_word_chars(k);
    let wl = w.len();
    let rest = trim_start_from(&trimmed, wl);
    let n = number_len(&rest);
    if n == 0 {
        return None;
    }
    let after = trim_start_from(&rest, n);
    if after.len() > 0 {
        let t = after[0];
        if !title_junk_char(t) || t == ' ' {
            return None;
        }
    }
    let mut label: Vec<char> = slice_chars(&trimmed, 0, wl);
    label.push(' ');
    push_all(&mut label, &slice_chars(&rest, 0, n));
    let title = caption_title(&after, 0);
    proof {
        assert(after@.skip(0) =~= after@);
        assert(label@ =~= trimmed@.take(wl as int) + seq![' '] + rest@.take(n as int));
    }
    Some((string_of(&label), string_of(&title)))
}

/// Where the last space in `s` is, or -1.
pub open spec fn last_space(s: Seq<char>) -> int
    decreases s.len(),
{
    if s.len() == 0 {
        -1
    } else if s.last() == ' ' {
        s.len() - 1
    } else {
        last_space(s.drop_last())
    }
}

/// `text` trimmed; if still longer than `limit` characters, cut to `limit`,
/// then back to the last space within them, and marked with an ellipsis.
pub open spec fn truncated(text: Seq<char>, limit: nat) -> Seq<char> {
    let t = trim_by(text, spaces());
    if t.len() <= limit {
        t
    } else {
        let clipped = t.take(limit as int);
        let cut = if last_space(clipped) >= 0 {
            last_space(clipped)
        } else {
            clipped.len() as int
        };
        trim_end_by(clipped.take(cut), spaces()).push('\u{2026}')
    }
}

proof fn lemma_last_space(s: Seq<char>)
    ensures
        -1 <= last_space(s) < s.len(),
    decreases s.len(),
{
    if s.len() > 0 && s.last() != ' ' {
        lemma_last_space(s.drop_last());
    }
}

/// Trim to `limit` characters on a word boundary, marking the cut.
pub fn truncate_words(text: &str, limit: usize) -> (r: String)
    ensures
        r@ == truncated(text@, limit as nat),
{
    let v = char_vec(text);
    let t = trim_chars(&v, space, Ghost(spaces()));
    if t.len() <= limit {
        return string_of(&t);
    }
    let clipped = slice_chars(&t, 0, limit);
    let mut n = clipped.len();
    proof {
        assert(clipped@.take(n as int) =~= clipped@);
    }
    while n > 0 && clipped[n - 1] != ' '
        invariant
            n <= clipped@.len(),
            last_space(clipped@) == last_space(clipped@.take(n as int)),
        decreases n,
    {
        proof {
            assert(clipped@.take(n as int).drop_last() =~= clipped@.take(n - 1));
        }
        n -= 1;
    }
    proof {
        lemma_last_space(clipped@);
    }
    let cut = if n > 0 {
        proof {
            assert(last_space(clipped@.take(n as int)) == n - 1);
        }
        n - 1
    } else {
        clipped.len()
    };
    let kept = slice_chars(&clipped, 0, cut);
    let mut out = trim_end_chars(&kept, space, Ghost(spaces()));
    out.push('\u{2026}');
    proof {
        assert(kept@ =~= clipped@.take(cut as int));
    }
    string_of(&out)
}

/// A title ending in a hyphen continues on a line that opens with a
/// lowercase letter: a word was broken across the two lines.
pub open spec fn wraps(title: Seq<char>, next: Seq<char>) -> bool {
    let te = trim_end_by(title, spaces());
    let ns = trim_start_by(next, spaces());
    &&& te.len() > 0
    &&& (te.last() == '-' || te.last() == '\u{2010}')
    &&& ns.len() > 0
    &&& unicode_lower(ns[0])
}

/// The caption text once the next line of the caption is added to it.
pub open spec fn joined_caption(title: Seq<char>, next: Seq<char>) -> Seq<char> {
    if wraps(title, next) {
        trim_end_by(title, spaces()).drop_last() + trim_start_by(next, spaces())
    } else if title.len() > 0 && title.last() != ' ' {
        title + seq![' '] + next
    } else {
        title + next
    }
}

/// Add the next line of a caption to what has been gathered. A word broken
/// across the lines rejoins without its hyphen; anything else takes the space
/// the line break stood for.
///
/// The hyphen that can be removed is the one-byte `-`: a title that wraps on
/// U+2010 cannot be cut one byte short of its end.
pub fn join_caption_line(title: &str, next: &str) -> (r: String)
    requires
        wraps(title@, next@) ==> trim_end_by(title@, spaces()).last() == '-',
    ensures
        r@ == joined_caption(title@, next@),
{
    let t = char_vec(title);
    let nx = char_vec(next);
    let te = trim_end_chars(&t, space, Ghost(spaces()));
    let a = skip_while(&nx, 0, space, Ghost(spaces()));
    proof {
        lemma_trim_start_skip(nx@, 0, spaces());
        assert(nx@.skip(0) =~= nx@);
    }
    let ns = slice_chars(&nx, a, nx.len());
    proof {
        assert(ns@ =~= trim_start_by(next@, spaces()));
    }
    let wrapped = te.len() > 0 && (te[te.len() - 1] == '-' || te[te.len() - 1] == '\u{2010}') && ns.len()
        > 0 && lowercase(ns[0]);
    if wrapped {
        let mut out = slice_chars(&te, 0, te.len() - 1);
        push_all(&mut out, &ns);
        proof {
            assert(te@.drop_last() =~= te@.subrange(0, te@.len() - 1));
        }
        string_of(&out)
    } else {
        let mut out = t;
        if out.len() > 0 && out[out.len() - 1] != ' ' {
            out.push(' ');
        }
        push_all(&mut out, &nx);
        string_of(&out)
    }
}

proof fn lemma_number_end_exact(s: Seq<char>, i: nat, m: nat)
    requires
        i <= m <= s.len(),
        forall|x: int| i <= x < m ==> in_number(s, x),
        m == s.len() || !in_number(s, m as int),
    ensures
        number_end(s, i) == m,
    decreases m - i,
{
    if i < m {
        lemma_number_end_exact(s, i + 1, m);
    }
}

/// One of the words that open a caption, as it may be printed: "figure",
/// "fig.", "table", "algorithm", "alg." or "listing", in any case.
pub open spec fn printed_caption_word(p: Seq<char>, w: Seq<char>) -> bool {
    &&& (w == seq!['f', 'i', 'g', 'u', 'r', 'e'] || w == seq!['f', 'i', 'g', '.'] || w == seq![
        't',
        'a',
        'b',
        'l',
        'e',
    ] || w == seq!['a', 'l', 'g', 'o', 'r', 'i', 't', 'h', 'm'] || w == seq!['a', 'l', 'g', '.']
        || w == seq!['l', 'i', 's', 't', 'i', 'n', 'g'])
    &&& p.len() == w.len()
    &&& forall|i: int| 0 <= i < w.len() ==> lower(#[trigger] p[i]) == w[i]
}

/// What may stand between a caption's number and its text: a colon, a full
/// stop, a closing parenthesis, a bar, an en dash or an em dash.
pub open spec fn caption_separator(c: char) -> bool {
    c == ':' || c == '.' || c == ')' || c == '|' || c == '\u{2013}' || c == '\u{2014}'
}

proof fn lemma_opening(line: Seq<char>, p: Seq<char>, w: Seq<char>)
    requires
        printed_caption_word(p, w),
        line.len() > p.len(),
        line.take(p.len() as int) == p,
    ensures
        opening_word(line, 0) matches Some(k) && caption_word(k as int) == w,
{
    assert forall|i: int| 0 <= i < p.len() implies lower(#[trigger] line[i]) == w[i] by {
        assert(line[i] == line.take(p.len() as int)[i]);
    }
    let f: int = 0;
    let third: int = 3;
    assert(lower(line[f]) == w[f]);
    if w == seq!['f', 'i', 'g', 'u', 'r', 'e'] {
        assert(opens_with(line, caption_word(0)));
    } else if w == seq!['f', 'i', 'g', '.'] {
        assert(lower(line[third]) == '.');
        assert(!opens_with(line, caption_word(0)));
        assert(opens_with(line, caption_word(1)));
    } else if w == seq!['t', 'a', 'b', 'l', 'e'] {
        assert(!opens_with(line, caption_word(0)));
        assert(!opens_with(line, caption_word(1)));
        assert(opens_with(line, caption_word(2)));
    } else if w == seq!['a', 'l', 'g', 'o', 'r', 'i', 't', 'h', 'm'] {
        assert(!opens_with(line, caption_word(0)));
        assert(!opens_with(line, caption_word(1)));
        assert(!opens_with(line, caption_word(2)));
        assert(opens_with(line, caption_word(3)));
    } else if w == seq!['a', 'l', 'g', '.'] {
        assert(lower(line[third]) == '.');
        assert(!opens_with(line, caption_word(0)));
        assert(!opens_with(line, caption_word(1)));
        assert(!opens_with(line, caption_word(2)));
        assert(!opens_with(line, caption_word(3)));
        assert(opens_with(line, caption_word(4)));
    } else {
        assert(!opens_with(line, caption_word(0)));
        assert(!opens_with(line, caption_word(1)));
        assert(!opens_with(line, caption_word(2)));
        assert(!opens_with(line, caption_word(3)));
        assert(!opens_with(line, caption_word(4)));
        assert(opens_with(line, caption_word(5)));
    }
    reveal_with_fuel(opening_word, 7);
}

/// A caption line reads as its label and its text: a caption word as
/// printed, a space, the figure's number, a space, any of the separators
/// (an en dash among them, as in "Fig. 4 – Training loss"), a space and the
/// text give the label "word number", printed as the line has it, and the
/// text. The text may be empty; if not, it neither opens with a separator or
/// space nor ends in white space.
pub proof fn lemma_caption_reads(p: Seq<char>, w: Seq<char>, num: Seq<char>, t: char, title: Seq<char>)
    requires
        printed_caption_word(p, w),
        num.len() > 0,
        forall|i: int| 0 <= i < num.len() ==> '0' <= #[trigger] num[i] <= '9',
        caption_separator(t),
        title.len() > 0 ==> !caption_separator(title[0]) && title[0] != ' ' && !is_space(title.last()),
    ensures
        caption_of(p + seq![' '] + num + seq![' ', t, ' '] + title) == Some((p + seq![' '] + num, title)),
{
    let line = p + seq![' '] + num + seq![' ', t, ' '] + title;
    let zero: int = 0;
    assert(lower(p[zero]) == w[zero]);
    assert(line[zero] == p[zero]);
    assert(!is_space(line[zero]));
    lemma_lead_exact(line, spaces(), 0);
    assert(trim_start_by(line, spaces()) =~= line);
    assert(line.take(p.len() as int) =~= p);
    lemma_opening(line, p, w);
    let k = opening_word(line, 0)->0;
    let wl = w.len() as int;
    let after_word = line.skip(wl);
    let rest = num + seq![' ', t, ' '] + title;
    assert(after_word =~= seq![' '] + rest);
    assert(after_word[1] == num[zero]);
    lemma_lead_exact(after_word, spaces(), 1);
    assert(trim_start_by(after_word, spaces()) =~= rest);
    let n = num.len();
    assert forall|x: int| 0 <= x < n implies in_number(rest, x) by {
        assert(rest[x] == num[x]);
    }
    assert(rest[n as int] == ' ');
    lemma_number_end_exact(rest, 0, n);
    let tail = rest.skip(n as int);
    assert(tail =~= seq![' ', t, ' '] + title);
    assert(!is_space(t));
    lemma_lead_exact(tail, spaces(), 1);
    let after = seq![t, ' '] + title;
    assert(trim_start_by(tail, spaces()) =~= after);
    assert(is_terminator(after[zero]));
    if title.len() > 0 {
        assert(after[2int] == title[zero]);
        lemma_lead_exact(after, title_junk(), 2);
        assert(trim_start_by(after, title_junk()) =~= title);
        assert(title[title.len() - 1] == title.last());
        lemma_trail_exact(title, spaces(), 0);
        assert(trim_end_by(title, spaces()) =~= title);
    } else {
        lemma_lead_exact(after, title_junk(), 2);
        assert(trim_start_by(after, title_junk()) =~= title);
        assert(trim_end_by(title, spaces()) =~= title);
    }
    assert(rest.take(n as int) =~= num);
    assert(line.take(wl) =~= p);
}

} // verus!
