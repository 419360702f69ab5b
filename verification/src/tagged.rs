//! Mathematics read out of a tagged PDF.
//!
//! A tagged document's structure tree carries MathML (`msup`, `mfrac`,
//! `msqrt` and friends) alongside the glyphs. Where that exists it is the
//! author's own markup, so it is rendered back into the LaTeX that produced
//! it rather than guessed from glyph geometry.

use crate::chars::{char_vec, is_space, space, string_of};
use std::collections::HashSet;
use vstd::prelude::*;

verus! {

/// A MathML node recovered from the structure tree.
#[derive(Debug)]
pub enum MathNode {
    /// a leaf carrying text: mi, mn, mo, mtext
    Leaf { tag: String, text: String },
    /// a container: math, mrow, msup, msub, mfrac, msqrt, ...
    Row { tag: String, children: Vec<MathNode> },
}

/// One run of mathematics on a page, with the characters it covers.
#[derive(Clone, Debug, PartialEq)]
pub struct MathSpan {
    pub latex: String,
    /// character range in the page's stream, so a line can find its math
    pub start: u32,
    pub end: u32,
}

/// MathML element names LaTeX's tagging emits.
pub open spec fn math_tags() -> Seq<Seq<char>> {
    seq![
        "math"@,
        "mrow"@,
        "mi"@,
        "mn"@,
        "mo"@,
        "mtext"@,
        "msup"@,
        "msub"@,
        "msubsup"@,
        "mfrac"@,
        "msqrt"@,
        "mroot"@,
        "munder"@,
        "mover"@,
        "munderover"@,
        "mfenced"@,
        "mspace"@,
        "mtable"@,
        "mtr"@,
        "mtd"@,
        "mstyle"@,
        "mpadded"@,
        "mphantom"@,
        "menclose"@,
        "semantics"@,
    ]
}

pub open spec fn math_tag(tag: Seq<char>) -> bool {
    math_tags().contains(tag)
}

/// A script written as LaTeX writes it by hand: `x^2`, but `x^{10}`.
pub open spec fn braced(p: Seq<char>) -> Seq<char> {
    if p.len() == 1 {
        p
    } else {
        seq!['{'] + p + seq!['}']
    }
}

pub open spec fn joined(parts: Seq<Seq<char>>) -> Seq<char>
    decreases parts.len(),
{
    if parts.len() == 0 {
        Seq::empty()
    } else {
        joined(parts.drop_last()) + parts.last()
    }
}

pub open spec fn frac_head() -> Seq<char> {
    seq!['\\', 'f', 'r', 'a', 'c', '{']
}

pub open spec fn sqrt_head() -> Seq<char> {
    seq!['\\', 's', 'q', 'r', 't']
}

/// The LaTeX of a container with tag `tag` whose children render as `parts`.
pub open spec fn row_latex(tag: Seq<char>, parts: Seq<Seq<char>>) -> Seq<char> {
    if (tag == "msup"@ || tag == "mover"@) && parts.len() == 2 {
        parts[0] + seq!['^'] + braced(parts[1])
    } else if (tag == "msub"@ || tag == "munder"@) && parts.len() == 2 {
        parts[0] + seq!['_'] + braced(parts[1])
    } else if (tag == "msubsup"@ || tag == "munderover"@) && parts.len() == 3 {
        parts[0] + seq!['_'] + braced(parts[1]) + seq!['^'] + braced(parts[2])
    } else if tag == "mfrac"@ && parts.len() == 2 {
        frac_head() + parts[0] + seq!['}', '{'] + parts[1] + seq!['}']
    } else if tag == "msqrt"@ {
        sqrt_head() + seq!['{'] + joined(parts) + seq!['}']
    } else if tag == "mphantom"@ {
        Seq::empty()
    } else if tag == "mroot"@ && parts.len() == 2 {
        sqrt_head() + seq!['['] + parts[1] + seq![']', '{'] + parts[0] + seq!['}']
    } else {
        joined(parts)
    }
}

/// The LaTeX a MathML tree was written as. An unrecognized container
/// degrades to its children's text.
pub open spec fn latex_of(n: MathNode) -> Seq<char>
    decreases n, 1int,
{
    match n {
        MathNode::Leaf { text, .. } => text@,
        MathNode::Row { tag, children } => row_latex(tag@, parts_of(children@)),
    }
}

/// The LaTeX of each node of `cs`.
pub open spec fn parts_of(cs: Seq<MathNode>) -> Seq<Seq<char>>
    decreases cs, 0int,
{
    if cs.len() == 0 {
        Seq::empty()
    } else {
        parts_of(cs.drop_last()).push(latex_of(cs.last()))
    }
}

fn tag_list() -> (r: Vec<&'static str>)
    ensures
        r@.map_values(|p: &str| p@) == math_tags(),
{
    let r = vec![
        "math",
        "mrow",
        "mi",
        "mn",
        "mo",
        "mtext",
        "msup",
        "msub",
        "msubsup",
        "mfrac",
        "msqrt",
        "mroot",
        "munder",
        "mover",
        "munderover",
        "mfenced",
        "mspace",
        "mtable",
        "mtr",
        "mtd",
        "mstyle",
        "mpadded",
        "mphantom",
        "menclose",
        "semantics",
    ];
    assert(r@.map_values(|p: &str| p@) =~= math_tags());
    r
}

fn same_text(a: &[char], b: &str) -> (r: bool)
    ensures
        r == (a@ == b@),
{
    let w = char_vec(b);
    if a.len() != w.len() {
        return false;
    }
    let mut i: usize = 0;
    while i < a.len()
        invariant
            w@ == b@,
            a@.len() == w@.len(),
            i <= a@.len(),
            forall|k: int| 0 <= k < i ==> a@[k] == w@[k],
        decreases a@.len() - i,
    {
        if a[i] != w[i] {
            proof {
                assert(a@[i as int] != w@[i as int]);
            }
            return false;
        }
        i += 1;
    }
    assert(a@ =~= w@);
    true
}

/// MathML element names LaTeX's tagging emits. Anything else is structure
/// rather than mathematics and is walked through, not into.
pub fn is_math_tag(tag: &str) -> (r: bool)
    ensures
        r == math_tag(tag@),
{
    let t = char_vec(tag);
    let tags = tag_list();
    let ghost ts = tags@.map_values(|p: &str| p@);
    let mut k: usize = 0;
    while k < tags.len()
        invariant
            k <= tags@.len(),
            ts == tags@.map_values(|p: &str| p@),
            ts == math_tags(),
            t@ == tag@,
            forall|j: int| 0 <= j < k ==> ts[j] != t@,
        decreases tags@.len() - k,
    {
        if same_text(&t, tags[k]) {
            proof {
                assert(ts[k as int] == tags@[k as int]@);
                assert(math_tags()[k as int] == tag@);
            }
            return true;
        }
        k += 1;
    }
    proof {
        if math_tags().contains(tag@) {
            let j = choose|j: int| 0 <= j < math_tags().len() && math_tags()[j] == tag@;
            assert(ts[j] == t@);
        }
    }
    false
}

fn push_all(out: &mut Vec<char>, s: &[char])
    ensures
        final(out)@ == old(out)@ + s@,
{
    let ghost head = out@;
    let mut i: usize = 0;
    while i < s.len()
        invariant
            i <= s@.len(),
            out@ == head + s@.take(i as int),
        decreases s@.len() - i,
    {
        out.push(s[i]);
        i += 1;
        proof {
            assert(out@ =~= head + s@.take(i as int));
        }
    }
    proof {
        assert(s@.take(i as int) =~= s@);
    }
}

fn push_braced(out: &mut Vec<char>, s: &[char])
    ensures
        final(out)@ == old(out)@ + braced(s@),
{
    if s.len() == 1 {
        push_all(out, s);
    } else {
        out.push('{');
        push_all(out, s);
        out.push('}');
        proof {
            assert(final(out)@ =~= old(out)@ + braced(s@));
        }
    }
}

fn join_parts(parts: &Vec<Vec<char>>) -> (r: Vec<char>)
    ensures
        r@ == joined(parts@.map_values(|p: Vec<char>| p@)),
{
    let ghost pv = parts@.map_values(|p: Vec<char>| p@);
    let mut out: Vec<char> = Vec::new();
    let mut i: usize = 0;
    while i < parts.len()
        invariant
            i <= parts@.len(),
            pv == parts@.map_values(|p: Vec<char>| p@),
            out@ == joined(pv.take(i as int)),
        decreases parts@.len() - i,
    {
        push_all(&mut out, parts[i].as_slice());
        proof {
            assert(pv.take(i + 1).drop_last() =~= pv.take(i as int));
            assert(pv.take(i + 1).last() == parts@[i as int]@);
        }
        i += 1;
    }
    proof {
        assert(pv.take(i as int) =~= pv);
    }
    out
}

fn latex_chars(node: &MathNode) -> (r: Vec<char>)
    ensures
        r@ == latex_of(*node),
    decreases node,
{
    match node {
        MathNode::Leaf { text, .. } => char_vec(text.as_str()),
        MathNode::Row { tag, children } => {
            let mut parts: Vec<Vec<char>> = Vec::new();
            let mut i: usize = 0;
            while i < children.len()
                invariant
                    (*node) is Row,
                    (*node)->children == *children,
                    i <= children@.len(),
                    parts@.map_values(|p: Vec<char>| p@) == parts_of(children@.take(i as int)),
                decreases children@.len() - i,
            {
                proof {
                    assert(*children == (*node)->children);
                    assert(decreases_to!(*node => (*node)->children));
                    assert(decreases_to!(*children => children@));
                    assert(decreases_to!(children@ => children@[i as int]));
                    assert(decreases_to!(*node => children@[i as int]));
                }
                let part = latex_chars(&children[i]);
                let ghost before = parts@;
                parts.push(part);
                proof {
                    assert(children@.take(i + 1).drop_last() =~= children@.take(i as int));
                    assert(parts@.map_values(|p: Vec<char>| p@) =~= before.map_values(
                        |p: Vec<char>| p@,
                    ).push(part@));
                }
                i += 1;
            }
            proof {
                assert(children@.take(i as int) =~= children@);
            }
            let ghost pv = parts@.map_values(|p: Vec<char>| p@);
            let t = char_vec(tag.as_str());
            let n = parts.len();
            let mut out: Vec<char> = Vec::new();
            if (same_text(&t, "msup") || same_text(&t, "mover")) && n == 2 {
                push_all(&mut out, parts[0].as_slice());
                out.push('^');
                push_braced(&mut out, parts[1].as_slice());
            } else if (same_text(&t, "msub") || same_text(&t, "munder")) && n == 2 {
                push_all(&mut out, parts[0].as_slice());
                out.push('_');
                push_braced(&mut out, parts[1].as_slice());
            } else if (same_text(&t, "msubsup") || same_text(&t, "munderover")) && n == 3 {
                push_all(&mut out, parts[0].as_slice());
                out.push('_');
                push_braced(&mut out, parts[1].as_slice());
                out.push('^');
                push_braced(&mut out, parts[2].as_slice());
            } else if same_text(&t, "mfrac") && n == 2 {
                push_all(&mut out, &['\\', 'f', 'r', 'a', 'c', '{']);
                push_all(&mut out, parts[0].as_slice());
                out.push('}');
                out.push('{');
                push_all(&mut out, parts[1].as_slice());
                out.push('}');
            } else if same_text(&t, "msqrt") {
                push_all(&mut out, &['\\', 's', 'q', 'r', 't', '{']);
                let j = join_parts(&parts);
                push_all(&mut out, j.as_slice());
                out.push('}');
            } else if same_text(&t, "mphantom") {
            } else if same_text(&t, "mroot") && n == 2 {
                push_all(&mut out, &['\\', 's', 'q', 'r', 't', '[']);
                push_all(&mut out, parts[1].as_slice());
                out.push(']');
                out.push('{');
                push_all(&mut out, parts[0].as_slice());
                out.push('}');
            } else {
                out = join_parts(&parts);
            }
            proof {
                assert(pv.len() == n);
                if n >= 1 {
                    assert(pv[0] == parts@[0]@);
                }
                if n >= 2 {
                    assert(pv[1] == parts@[1]@);
                }
                if n >= 3 {
                    assert(pv[2] == parts@[2]@);
                }
                assert(out@ =~= row_latex(tag@, pv));
            }
            out
        },
    }
}

/// Renders a MathML tree as the LaTeX that produced it.
pub fn to_latex(node: &MathNode) -> (r: String)
    ensures
        r@ == latex_of(*node),
{
    string_of(&latex_chars(node))
}

proof fn lemma_parts_of(cs: Seq<MathNode>)
    ensures
        parts_of(cs).len() == cs.len(),
        forall|i: int| 0 <= i < cs.len() ==> #[trigger] parts_of(cs)[i] == latex_of(cs[i]),
    decreases cs.len(),
{
    if cs.len() > 0 {
        lemma_parts_of(cs.drop_last());
        assert forall|i: int| 0 <= i < cs.len() implies #[trigger] parts_of(cs)[i] == latex_of(cs[i]) by {
            if i < cs.len() - 1 {
                assert(cs.drop_last()[i] == cs[i]);
            }
        }
    }
}

/// A script as it is written by hand: a single character bare, anything
/// longer in braces.
pub open spec fn script(p: Seq<char>) -> Seq<char> {
    if p.len() == 1 {
        p
    } else {
        seq!['{'] + p + seq!['}']
    }
}

/// How each scripted or built-up MathML element is written in LaTeX, in
/// terms of what its children are written as: a superscript or over-script
/// as `base^script`, a subscript or under-script as `base_script`, a
/// sub-superscript or under-over-script as `base_lower^upper`, a fraction as
/// `\frac{num}{den}`, a root as `\sqrt[index]{base}`, a square root as
/// `\sqrt{...}` around all of its children, and a phantom as nothing.
pub proof fn lemma_math_written_as_latex(n: MathNode)
    ensures
        n matches MathNode::Row { tag, children } ==> ((tag@ == "msup"@ || tag@ == "mover"@)
            && children@.len() == 2 ==> latex_of(n) == latex_of(children@[0]) + seq!['^'] + script(
            latex_of(children@[1]),
        )),
        n matches MathNode::Row { tag, children } ==> ((tag@ == "msub"@ || tag@ == "munder"@)
            && children@.len() == 2 ==> latex_of(n) == latex_of(children@[0]) + seq!['_'] + script(
            latex_of(children@[1]),
        )),
        n matches MathNode::Row { tag, children } ==> ((tag@ == "msubsup"@ || tag@ == "munderover"@)
            && children@.len() == 3 ==> latex_of(n) == latex_of(children@[0]) + seq!['_'] + script(
            latex_of(children@[1]),
        ) + seq!['^'] + script(latex_of(children@[2]))),
        n matches MathNode::Row { tag, children } ==> (tag@ == "mfrac"@ && children@.len() == 2
            ==> latex_of(n) == seq!['\\', 'f', 'r', 'a', 'c', '{'] + latex_of(children@[0]) + seq!['}', '{']
            + latex_of(children@[1]) + seq!['}']),
        n matches MathNode::Row { tag, children } ==> (tag@ == "mroot"@ && children@.len() == 2
            ==> latex_of(n) == seq!['\\', 's', 'q', 'r', 't', '['] + latex_of(children@[1]) + seq![']', '{']
            + latex_of(children@[0]) + seq!['}']),
        n matches MathNode::Row { tag, children } ==> (tag@ == "mphantom"@ ==> latex_of(n) == Seq::<
            char,
        >::empty()),
{
    reveal_strlit("msup");
    reveal_strlit("mover");
    reveal_strlit("msub");
    reveal_strlit("munder");
    reveal_strlit("msubsup");
    reveal_strlit("munderover");
    reveal_strlit("mfrac");
    reveal_strlit("msqrt");
    reveal_strlit("mphantom");
    reveal_strlit("mroot");
    assert("msub"@[3] != "msup"@[3] && "msub"@[1] != "mover"@[1]);
    assert("munder"@.len() != "msup"@.len() && "munder"@[1] != "mover"@[1]);
    assert("msubsup"@.len() != "msup"@.len() && "msubsup"@.len() != "mover"@.len());
    assert("msubsup"@.len() != "msub"@.len() && "msubsup"@.len() != "munder"@.len());
    assert("munderover"@.len() != "msup"@.len() && "munderover"@.len() != "mover"@.len());
    assert("munderover"@.len() != "msub"@.len() && "munderover"@.len() != "munder"@.len());
    assert("mfrac"@[1] != "msup"@[1] && "mfrac"@[1] != "mover"@[1] && "mfrac"@[1] != "msub"@[1]);
    assert("mfrac"@[1] != "munder"@[1] && "mfrac"@[1] != "msubsup"@[1] && "mfrac"@[1] != "munderover"@[1]);
    assert("mphantom"@[1] != "msup"@[1] && "mphantom"@[1] != "mover"@[1] && "mphantom"@[1] != "msub"@[1]);
    assert("mphantom"@[1] != "munder"@[1] && "mphantom"@[1] != "msubsup"@[1] && "mphantom"@[1]
        != "munderover"@[1]);
    assert("mphantom"@[1] != "mfrac"@[1] && "mphantom"@[1] != "msqrt"@[1]);
    assert("mroot"@[1] != "msup"@[1] && "mroot"@[1] != "mover"@[1] && "mroot"@[1] != "msub"@[1]);
    assert("mroot"@[1] != "munder"@[1] && "mroot"@[1] != "msubsup"@[1] && "mroot"@[1] != "munderover"@[1]);
    assert("mroot"@[1] != "mfrac"@[1] && "mroot"@[1] != "msqrt"@[1] && "mroot"@[1] != "mphantom"@[1]);
    if let MathNode::Row { tag, children } = n {
        lemma_parts_of(children@);
        let ps = parts_of(children@);
        if children@.len() >= 2 {
            assert(ps[0] == latex_of(children@[0]));
            assert(ps[1] == latex_of(children@[1]));
        }
        if children@.len() >= 3 {
            assert(ps[2] == latex_of(children@[2]));
        }
    }
}

// ---------------------------------------------------------------------------
// Where a run of mathematics sits in the page's character stream.

/// How far back a span reaches to pick up the decoration drawn beside it.
pub const ARTIFACT_LOOKBACK: u32 = 6;

pub open spec fn least(s: Seq<u32>) -> int
    decreases s.len(),
{
    if s.len() == 0 {
        0
    } else if s.len() == 1 || s.last() <= least(s.drop_last()) {
        s.last() as int
    } else {
        least(s.drop_last())
    }
}

pub open spec fn greatest(s: Seq<u32>) -> int
    decreases s.len(),
{
    if s.len() == 0 {
        0
    } else if s.len() == 1 || s.last() >= greatest(s.drop_last()) {
        s.last() as int
    } else {
        greatest(s.drop_last())
    }
}

/// How far below `c` the lookback reaches: down to `floor`, but never onto a
/// character some structure element claims.
pub open spec fn reach(claimed: Set<u32>, c: int, floor: int) -> int
    decreases c - floor,
{
    if c <= floor || claimed.contains((c - 1) as u32) {
        c
    } else {
        reach(claimed, c - 1, floor)
    }
}

/// A visible glyph: a character of the stream that is not white space.
pub open spec fn glyph_at(text: Seq<char>, i: int) -> bool {
    0 <= i < text.len() && !is_space(text[i])
}

/// The first glyph in `[lo, hi)`, or `hi` when there is none.
pub open spec fn first_glyph(text: Seq<char>, lo: int, hi: int) -> int
    decreases hi - lo,
{
    if lo >= hi {
        hi
    } else if glyph_at(text, lo) {
        lo
    } else {
        first_glyph(text, lo + 1, hi)
    }
}

/// Where a run of mathematics starts: at the first character its marked
/// content covers, pulled back over the unclaimed glyphs just before it.
///
/// TeX draws a radical sign, a big brace or an over-bar as an artifact beside
/// the marked content rather than inside it; left out of the span, it would
/// print next to the markup that already describes it. Everything real in a
/// tagged document is claimed by some element, so an unclaimed glyph hugging
/// the span is decoration.
pub open spec fn span_start(covered: Seq<u32>, claimed: Set<u32>, text: Seq<char>) -> int {
    let s0 = least(covered);
    let floor = if s0 >= ARTIFACT_LOOKBACK {
        s0 - ARTIFACT_LOOKBACK
    } else {
        0
    };
    first_glyph(text, reach(claimed, s0, floor), s0)
}

proof fn lemma_least_greatest(s: Seq<u32>)
    requires
        s.len() > 0,
    ensures
        exists|i: int| 0 <= i < s.len() && s[i] == least(s),
        exists|i: int| 0 <= i < s.len() && s[i] == greatest(s),
        forall|i: int| 0 <= i < s.len() ==> least(s) <= #[trigger] s[i] <= greatest(s),
    decreases s.len(),
{
    if s.len() > 1 {
        lemma_least_greatest(s.drop_last());
        let d = s.drop_last();
        assert forall|i: int| 0 <= i < s.len() implies least(s) <= #[trigger] s[i] <= greatest(s) by {
            if i < s.len() - 1 {
                assert(s[i] == d[i]);
            }
        }
        if s.last() > least(d) {
            let k = choose|k: int| 0 <= k < d.len() && d[k] == least(d);
            assert(s[k] == least(s));
        } else {
            assert(s[s.len() - 1] == least(s));
        }
        if s.last() < greatest(d) {
            let k = choose|k: int| 0 <= k < d.len() && d[k] == greatest(d);
            assert(s[k] == greatest(s));
        } else {
            assert(s[s.len() - 1] == greatest(s));
        }
    } else {
        assert(s[0] == least(s));
        assert(s[0] == greatest(s));
    }
}

/// The span a run of mathematics takes in the page's character stream,
/// carrying `latex`: from where `span_start` says it starts to just past the
/// last character its marked content covers. Nothing when the LaTeX is blank
/// or the run covers no characters. `claimed` holds every character some
/// structure element claims.
pub fn math_span(latex: String, covered: &Vec<u32>, claimed: &HashSet<u32>, text: &Vec<char>) -> (r: Option<MathSpan>)
    requires
        forall|i: int| 0 <= i < covered@.len() ==> #[trigger] covered@[i] < u32::MAX,
    ensures
        r is Some <==> (covered@.len() > 0 && exists|i: int|
            0 <= i < latex@.len() && !is_space(#[trigger] latex@[i])),
        r matches Some(m) ==> m.latex@ == latex@ && m.start == span_start(covered@, claimed@, text@)
            && m.end == greatest(covered@) + 1,
{
    let chars = char_vec(latex.as_str());
    let mut blank = true;
    let mut k: usize = 0;
    while k < chars.len()
        invariant
            k <= chars@.len(),
            chars@ == latex@,
            blank == forall|i: int| 0 <= i < k ==> is_space(#[trigger] chars@[i]),
        decreases chars@.len() - k,
    {
        if !space(chars[k]) {
            blank = false;
        }
        k = k + 1;
    }
    if blank || covered.len() == 0 {
        return None;
    }
    let mut low = covered[0];
    let mut high = covered[0];
    let mut i: usize = 1;
    proof {
        assert(covered@.take(1).drop_last() =~= Seq::<u32>::empty());
    }
    while i < covered.len()
        invariant
            1 <= i <= covered@.len(),
            low == least(covered@.take(i as int)),
            high == greatest(covered@.take(i as int)),
        decreases covered@.len() - i,
    {
        proof {
            assert(covered@.take(i + 1).drop_last() =~= covered@.take(i as int));
        }
        if covered[i] <= low {
            low = covered[i];
        }
        if covered[i] >= high {
            high = covered[i];
        }
        i = i + 1;
    }
    proof {
        assert(covered@.take(i as int) =~= covered@);
        lemma_least_greatest(covered@);
        let w = choose|w: int| 0 <= w < covered@.len() && covered@[w] == greatest(covered@);
        assert(covered@[w] < u32::MAX);
    }
    let floor = if low >= ARTIFACT_LOOKBACK {
        low - ARTIFACT_LOOKBACK
    } else {
        0
    };
    let mut candidate = low;
    let mut start = low;
    while candidate > floor && !claimed.contains(&(candidate - 1))
        invariant
            floor <= candidate <= low,
            reach(claimed@, low as int, floor as int) == reach(claimed@, candidate as int, floor as int),
            start as int == first_glyph(text@, candidate as int, low as int),
        decreases candidate,
    {
        let index = candidate - 1;
        candidate = index;
        if (index as usize) < text.len() && !space(text[index as usize]) {
            start = index;
        }
    }
    Some(MathSpan { latex, start, end: high + 1 })
}

} // verus!
