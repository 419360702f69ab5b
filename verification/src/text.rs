//! What the text layer needs to know about the fonts a page is set in.

use crate::chars::{char_vec, lead, lemma_lead_bound, skip_while, to_upper, upper};
use vstd::prelude::*;

verus! {

/// The font families TeX sets mathematics in, upper-cased: `CMMI` math
/// italic, `CMSY` operators and relations, `CMEX` the large braces and
/// integrals, `MSAM`/`MSBM` the AMS symbols, and the names other math fonts
/// go by.
pub open spec fn math_family(k: int) -> Seq<char> {
    if k == 0 {
        seq!['C', 'M', 'M', 'I']
    } else if k == 1 {
        seq!['C', 'M', 'S', 'Y']
    } else if k == 2 {
        seq!['C', 'M', 'E', 'X']
    } else if k == 3 {
        seq!['M', 'S', 'A', 'M']
    } else if k == 4 {
        seq!['M', 'S', 'B', 'M']
    } else if k == 5 {
        seq!['M', 'A', 'T', 'H', 'I', 'T', 'A', 'L', 'I', 'C']
    } else if k == 6 {
        seq!['M', 'A', 'T', 'H', 'S', 'Y', 'M', 'B', 'O', 'L']
    } else {
        seq!['M', 'A', 'T', 'H', '-', 'I', 'T', 'A', 'L', 'I', 'C']
    }
}

pub open spec fn not_plus() -> spec_fn(char) -> bool {
    |c: char| c != '+'
}

/// The family a font name names: a subsetted font keeps it after its
/// six-letter tag and a `+` ("EWJNXA+CMMI10").
pub open spec fn family_of(name: Seq<char>) -> Seq<char> {
    let p = lead(name, not_plus()) as int;
    if p < name.len() {
        name.skip(p + 1)
    } else {
        name
    }
}

/// `w` occurs in `s` at `i` once `s` is upper-cased.
pub open spec fn occurs_upper_at(s: Seq<char>, w: Seq<char>, i: int) -> bool {
    0 <= i && i + w.len() <= s.len() && forall|j: int| 0 <= j < w.len() ==> upper(#[trigger] s[i + j]) == w[j]
}

pub open spec fn contains_upper(s: Seq<char>, w: Seq<char>) -> bool {
    exists|i: int| occurs_upper_at(s, w, i)
}

/// Whether a font name belongs to a family used for mathematics; letters are
/// compared without regard to ASCII case.
pub open spec fn math_font(name: Seq<char>) -> bool {
    exists|k: int| 0 <= k < 8 && contains_upper(family_of(name), #[trigger] math_family(k))
}

fn math_family_chars(k: usize) -> (w: Vec<char>)
    requires
        k < 8,
    ensures
        w@ == math_family(k as int),
{
    let mut w: Vec<char> = Vec::new();
    if k == 0 {
        w.push('C');
        w.push('M');
        w.push('M');
        w.push('I');
    } else if k == 1 {
        w.push('C');
        w.push('M');
        w.push('S');
        w.push('Y');
    } else if k == 2 {
        w.push('C');
        w.push('M');
        w.push('E');
        w.push('X');
    } else if k == 3 {
        w.push('M');
        w.push('S');
        w.push('A');
        w.push('M');
    } else if k == 4 {
        w.push('M');
        w.push('S');
        w.push('B');
        w.push('M');
    } else if k == 5 {
        w.push('M');
        w.push('A');
        w.push('T');
        w.push('H');
        w.push('I');
        w.push('T');
        w.push('A');
        w.push('L');
        w.push('I');
        w.push('C');
    } else if k == 6 {
        w.push('M');
        w.push('A');
        w.push('T');
        w.push('H');
        w.push('S');
        w.push('Y');
        w.push('M');
        w.push('B');
        w.push('O');
        w.push('L');
    } else {
        w.push('M');
        w.push('A');
        w.push('T');
        w.push('H');
        w.push('-');
        w.push('I');
        w.push('T');
        w.push('A');
        w.push('L');
        w.push('I');
        w.push('C');
    }
    proof {
        assert(w@ =~= math_family(k as int));
    }
    w
}

fn occurs_upper(s: &[char], w: &[char], i: usize) -> (r: bool)
    requires
        i + w@.len() <= s@.len(),
    ensures
        r == occurs_upper_at(s@, w@, i as int),
{
    let n = s.len();
    let mut j: usize = 0;
    while j < w.len()
        invariant
            j <= w@.len(),
            n == s@.len(),
            i + w@.len() <= s@.len(),
            forall|t: int| 0 <= t < j ==> upper(#[trigger] s@[i + t]) == w@[t],
        decreases w@.len() - j,
    {
        if to_upper(s[i + j]) != w[j] {
            return false;
        }
        j += 1;
    }
    true
}

fn find_upper(s: &[char], w: &[char]) -> (r: bool)
    ensures
        r == contains_upper(s@, w@),
{
    if w.len() > s.len() {
        return false;
    }
    let last = s.len() - w.len();
    let mut i: usize = 0;
    loop
        invariant
            w@.len() <= s@.len(),
            last == s@.len() - w@.len(),
            i <= last,
            forall|t: int| 0 <= t < i ==> !occurs_upper_at(s@, w@, t),
        ensures
            forall|t: int| 0 <= t <= last ==> !occurs_upper_at(s@, w@, t),
        decreases last - i,
    {
        if occurs_upper(s, w, i) {
            return true;
        }
        if i == last {
            break;
        }
        i += 1;
    }
    assert forall|t: int| !occurs_upper_at(s@, w@, t) by {
        if 0 <= t && t + w@.len() <= s@.len() {
            assert(t <= last);
        }
    }
    false
}

fn not_plus_char(c: char) -> (r: bool)
    ensures
        r == (c != '+'),
{
    c != '+'
}

/// Whether `font_name` belongs to a family used for mathematics.
pub fn is_math_font(font_name: &str) -> (r: bool)
    ensures
        r == math_font(font_name@),
{
    let v = char_vec(font_name);
    let p = skip_while(&v, 0, not_plus_char, Ghost(not_plus()));
    proof {
        assert(v@.skip(0) =~= v@);
        lemma_lead_bound(v@, not_plus());
    }
    let mut family: Vec<char> = Vec::new();
    let mut i: usize = if p < v.len() {
        p + 1
    } else {
        0
    };
    let start = i;
    while i < v.len()
        invariant
            start <= i <= v@.len(),
            family@ == v@.subrange(start as int, i as int),
        decreases v@.len() - i,
    {
        family.push(v[i]);
        i += 1;
        proof {
            assert(family@ =~= v@.subrange(start as int, i as int));
        }
    }
    proof {
        assert(family@ =~= family_of(font_name@));
    }
    let mut k: usize = 0;
    while k < 8
        invariant
            k <= 8,
            family@ == family_of(font_name@),
            forall|t: int| 0 <= t < k ==> !contains_upper(family@, #[trigger] math_family(t)),
        decreases 8 - k,
    {
        let w = math_family_chars(k);
        if find_upper(&family, &w) {
            return true;
        }
        k += 1;
    }
    false
}

} // verus!
