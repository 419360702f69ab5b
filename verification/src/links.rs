//! Which of a page's link rectangles to keep when a PDF producer left a link
//! scope open.
//!
//! Some producers emit one URI annotation as a rectangle for every text line
//! until the scope closes, turning most of a page into hover targets. Only an
//! extreme group is touched: many rectangles of one URI, which the caller has
//! also found to span nearly half the page. From such a group, the
//! rectangles whose visible text is part of the URI are kept; a link with an
//! arbitrary label keeps only its narrowest text-bearing rectangle.

use crate::librarytext::{contains_text, str_contains};
use crate::search::{lowercase_chars, lowercase_of, utf8_len, utf8_width_of};
use vstd::prelude::*;

verus! {

/// Fewer rectangles than this for one URI is an ordinary wrapped link.
pub const RUNAWAY_URI_MIN_RECTS: usize = 12;

/// Whether `c` has the Unicode Alphabetic or Numeric property, as
/// `char::is_alphanumeric` reports it.
pub uninterp spec fn unicode_alnum(c: char) -> bool;

/// Calls `char::is_alphanumeric`; the contract only names the result.
#[verifier::external_body]
fn alphanumeric(c: char) -> (r: bool)
    ensures
        r == unicode_alnum(c),
{
    c.is_alphanumeric()
}

pub open spec fn alnum_only(s: Seq<char>) -> Seq<char>
    decreases s.len(),
{
    if s.len() == 0 {
        s
    } else if unicode_alnum(s.last()) {
        alnum_only(s.drop_last()).push(s.last())
    } else {
        alnum_only(s.drop_last())
    }
}

/// Text as links are compared: lowercased, letters and digits only.
pub open spec fn link_text(s: Seq<char>) -> Seq<char>
    decreases s.len(),
{
    if s.len() == 0 {
        Seq::empty()
    } else {
        link_text(s.drop_last()) + alnum_only(lowercase_of(s.last()))
    }
}

/// Lowercases `value` and keeps only its letters and digits.
pub fn normalized_link_text(value: &str) -> (r: String)
    ensures
        r@ == link_text(value@),
{
    let v = crate::chars::char_vec(value);
    let mut out: Vec<char> = Vec::new();
    let mut i: usize = 0;
    proof {
        assert(v@.take(0) =~= Seq::<char>::empty());
    }
    while i < v.len()
        invariant
            i <= v@.len(),
            v@ == value@,
            out@ == link_text(v@.take(i as int)),
        decreases v@.len() - i,
    {
        let lower = lowercase_chars(v[i]);
        let ghost before = out@;
        let mut j: usize = 0;
        proof {
            assert(lower@.take(0) =~= Seq::<char>::empty());
        }
        while j < lower.len()
            invariant
                j <= lower@.len(),
                out@ == before + alnum_only(lower@.take(j as int)),
            decreases lower@.len() - j,
        {
            proof {
                assert(lower@.take(j + 1).drop_last() =~= lower@.take(j as int));
            }
            if alphanumeric(lower[j]) {
                out.push(lower[j]);
                proof {
                    assert(out@ =~= before + alnum_only(lower@.take(j + 1)));
                }
            }
            j = j + 1;
        }
        proof {
            assert(lower@.take(j as int) =~= lower@);
            assert(v@.take(i + 1).drop_last() =~= v@.take(i as int));
        }
        i = i + 1;
    }
    proof {
        assert(v@.take(i as int) =~= v@);
    }
    crate::chars::string_of(out.as_slice())
}

/// One rectangle of a runaway group: its position among the page's links,
/// the text lying under it, and how narrow it is among the group (equal
/// widths share a rank, the narrowest rank is the least).
#[derive(Clone, Debug)]
pub struct RunawayLink {
    pub index: usize,
    pub text: String,
    pub width_rank: u64,
}

/// A rectangle's normalized text, when it has any: the candidates.
pub open spec fn candidates(links: Seq<RunawayLink>) -> Seq<(usize, Seq<char>, u64)>
    decreases links.len(),
{
    if links.len() == 0 {
        Seq::empty()
    } else {
        let rest = candidates(links.drop_last());
        let l = links.last();
        if link_text(l.text@).len() > 0 {
            rest.push((l.index, link_text(l.text@), l.width_rank))
        } else {
            rest
        }
    }
}

/// A candidate whose text is part of the URI's, or holds it, and is long
/// enough (five bytes) to mean it.
pub open spec fn shows_uri(uri_text: Seq<char>, t: Seq<char>) -> bool {
    utf8_len(t) >= 5 && (contains_text(uri_text, t) || contains_text(t, uri_text))
}

pub open spec fn showing(uri_text: Seq<char>, c: Seq<(usize, Seq<char>, u64)>) -> Seq<usize>
    decreases c.len(),
{
    if c.len() == 0 {
        Seq::empty()
    } else {
        let rest = showing(uri_text, c.drop_last());
        if shows_uri(uri_text, c.last().1) {
            rest.push(c.last().0)
        } else {
            rest
        }
    }
}

/// `a` is narrower than `b`, or as narrow with shorter text.
pub open spec fn narrower(a: (usize, Seq<char>, u64), b: (usize, Seq<char>, u64)) -> bool {
    a.2 < b.2 || (a.2 == b.2 && utf8_len(a.1) < utf8_len(b.1))
}

/// The first candidate no other is narrower than.
pub open spec fn narrowest(c: Seq<(usize, Seq<char>, u64)>) -> int
    decreases c.len(),
{
    if c.len() <= 1 {
        0
    } else if narrower(c.last(), c[narrowest(c.drop_last())]) {
        c.len() - 1
    } else {
        narrowest(c.drop_last())
    }
}

/// The rectangles of one runaway URI group to keep, by position among the
/// page's links: those whose text shows the URI, else the narrowest that
/// has text. None keeps the whole group: too few rectangles to be runaway,
/// or none with any text to judge by.
pub open spec fn retained(uri: Seq<char>, links: Seq<RunawayLink>) -> Option<Seq<usize>> {
    let c = candidates(links);
    if links.len() < RUNAWAY_URI_MIN_RECTS || c.len() == 0 {
        None
    } else {
        let m = showing(link_text(uri), c);
        if m.len() > 0 {
            Some(m)
        } else {
            Some(seq![c[narrowest(c)].0])
        }
    }
}

proof fn lemma_narrowest_range(c: Seq<(usize, Seq<char>, u64)>)
    requires
        c.len() > 0,
    ensures
        0 <= narrowest(c) < c.len(),
    decreases c.len(),
{
    if c.len() > 1 {
        lemma_narrowest_range(c.drop_last());
    }
}

fn text_bytes(v: &Vec<char>) -> (r: u128)
    ensures
        r == utf8_len(v@),
{
    let mut total: u128 = 0;
    let mut i: usize = 0;
    proof {
        assert(v@.take(0) =~= Seq::<char>::empty());
        assert(v@.len() == v.len());
    }
    while i < v.len()
        invariant
            i <= v@.len(),
            total == utf8_len(v@.take(i as int)),
            total <= 4 * i,
            v@.len() <= usize::MAX,
        decreases v@.len() - i,
    {
        proof {
            assert(v@.take(i + 1).drop_last() =~= v@.take(i as int));
        }
        total = total + utf8_width_of(v[i]) as u128;
        i = i + 1;
    }
    proof {
        assert(v@.take(i as int) =~= v@);
    }
    total
}

/// Which rectangles of one runaway group to keep; see `retained`.
pub fn runaway_retained(uri: &str, links: &Vec<RunawayLink>) -> (r: Option<Vec<usize>>)
    ensures
        match retained(uri@, links@) {
            Some(m) => r matches Some(v) && v@ == m,
            None => r is None,
        },
{
    if links.len() < RUNAWAY_URI_MIN_RECTS {
        return None;
    }
    // the candidates, with their byte lengths
    let mut cands: Vec<(usize, String, u64)> = Vec::new();
    let mut lens: Vec<u128> = Vec::new();
    let mut k: usize = 0;
    proof {
        assert(links@.take(0) =~= Seq::<RunawayLink>::empty());
    }
    while k < links.len()
        invariant
            k <= links@.len(),
            cands@.len() == lens@.len(),
            cands@.map_values(|t: (usize, String, u64)| (t.0, t.1@, t.2)) == candidates(
                links@.take(k as int),
            ),
            forall|m: int| 0 <= m < lens@.len() ==> #[trigger] lens@[m] == utf8_len(cands@[m].1@),
        decreases links@.len() - k,
    {
        proof {
            assert(links@.take(k + 1).drop_last() =~= links@.take(k as int));
        }
        let t = normalized_link_text(links[k].text.as_str());
        let tv = crate::chars::char_vec(t.as_str());
        if tv.len() > 0 {
            let n = text_bytes(&tv);
            let ghost before = cands@;
            cands.push((links[k].index, t, links[k].width_rank));
            lens.push(n);
            proof {
                assert(cands@.map_values(|t: (usize, String, u64)| (t.0, t.1@, t.2)) =~= before.map_values(
                    |t: (usize, String, u64)| (t.0, t.1@, t.2),
                ).push((links@[k as int].index, link_text(links@[k as int].text@), links@[k as int].width_rank)));
            }
        }
        k = k + 1;
    }
    proof {
        assert(links@.take(k as int) =~= links@);
    }
    let ghost c = candidates(links@);
    if cands.len() == 0 {
        return None;
    }
    let uri_text = normalized_link_text(uri);
    let mut shown: Vec<usize> = Vec::new();
    let mut m: usize = 0;
    proof {
        assert(c.take(0) =~= Seq::<(usize, Seq<char>, u64)>::empty());
    }
    while m < cands.len()
        invariant
            m <= cands@.len(),
            cands@.len() == lens@.len(),
            c == cands@.map_values(|t: (usize, String, u64)| (t.0, t.1@, t.2)),
            forall|q: int| 0 <= q < lens@.len() ==> #[trigger] lens@[q] == utf8_len(cands@[q].1@),
            uri_text@ == link_text(uri@),
            shown@ == showing(uri_text@, c.take(m as int)),
        decreases cands@.len() - m,
    {
        proof {
            assert(c.take(m + 1).drop_last() =~= c.take(m as int));
            assert(c[m as int].1 == cands@[m as int].1@);
        }
        let shows = lens[m] >= 5 && (str_contains(uri_text.as_str(), cands[m].1.as_str())
            || str_contains(cands[m].1.as_str(), uri_text.as_str()));
        if shows {
            shown.push(cands[m].0);
        }
        m = m + 1;
    }
    proof {
        assert(c.take(m as int) =~= c);
    }
    if shown.len() > 0 {
        return Some(shown);
    }
    let mut best: usize = 0;
    let mut q: usize = 1;
    proof {
        assert(c.take(1).drop_last() =~= Seq::<(usize, Seq<char>, u64)>::empty());
    }
    while q < cands.len()
        invariant
            1 <= q <= cands@.len(),
            cands@.len() == lens@.len(),
            c == cands@.map_values(|t: (usize, String, u64)| (t.0, t.1@, t.2)),
            forall|z: int| 0 <= z < lens@.len() ==> #[trigger] lens@[z] == utf8_len(cands@[z].1@),
            best == narrowest(c.take(q as int)),
        decreases cands@.len() - q,
    {
        proof {
            let t = c.take(q + 1);
            assert(t.drop_last() =~= c.take(q as int));
            lemma_narrowest_range(c.take(q as int));
            assert(c.take(q as int)[best as int] == c[best as int]);
        }
        let narrower_here = cands[q].2 < cands[best].2 || (cands[q].2 == cands[best].2 && lens[q]
            < lens[best]);
        if narrower_here {
            best = q;
        }
        q = q + 1;
    }
    proof {
        assert(c.take(q as int) =~= c);
        lemma_narrowest_range(c);
    }
    let mut one: Vec<usize> = Vec::new();
    one.push(cands[best].0);
    proof {
        assert(one@ =~= seq![c[narrowest(c)].0]);
    }
    Some(one)
}

} // verus!
