//! Planning a save: how the output document's pages are assembled from the
//! source's, which annotations are removed and in what order, and what
//! rotation a page ends at. The PDF engine carries these steps out.

use crate::chars::{char_vec, push_all, string_of};
use crate::printing::{decimal, decimal_string};
use vstd::prelude::*;

verus! {

/// One step of assembling the output document.
#[derive(Clone, Debug, PartialEq, Eq)]
pub enum PageStep {
    /// Import `count` consecutive plan entries' source pages, listed 1-based
    /// and comma-separated the way PDFium's page import takes them, at output
    /// index `at`.
    Import { pages: String, at: u16, count: u16 },
    /// A blank page for plan entry `at`, placed at output index `at`.
    Blank { at: u16 },
}

/// A step as plain values: whether it imports, the page list, where it goes,
/// and how many pages it places.
pub open spec fn step_view(s: PageStep) -> (bool, Seq<char>, int, int) {
    match s {
        PageStep::Import { pages, at, count } => (true, pages@, at as int, count as int),
        PageStep::Blank { at } => (false, Seq::empty(), at as int, 1),
    }
}

pub open spec fn steps_view(steps: Seq<PageStep>) -> Seq<(bool, Seq<char>, int, int)> {
    steps.map_values(|s: PageStep| step_view(s))
}

/// The steps for the first `n` plan entries, each entry naming its source
/// page or none for a blank. A source page joins the import of the entry
/// before it when that one imports too, so each run of consecutive source
/// pages becomes one import; every blank is a step of its own. Steps place
/// pages in plan order, so a step's output index is its first entry's index.
pub open spec fn page_steps(sources: Seq<Option<u32>>, n: int) -> Seq<(bool, Seq<char>, int, int)>
    decreases n,
{
    if n <= 0 {
        Seq::empty()
    } else {
        let prev = page_steps(sources, n - 1);
        match sources[n - 1] {
            None => prev.push((false, Seq::empty(), n - 1, 1)),
            Some(s) => if n >= 2 && sources[n - 2] is Some {
                let last = prev.last();
                prev.update(
                    prev.len() - 1,
                    (true, last.1 + seq![','] + decimal((s + 1) as nat), last.2, last.3 + 1),
                )
            } else {
                prev.push((true, decimal((s + 1) as nat), n - 1, 1))
            },
        }
    }
}

/// How many output pages the steps place.
pub open spec fn placed(steps: Seq<(bool, Seq<char>, int, int)>) -> int
    decreases steps.len(),
{
    if steps.len() == 0 {
        0
    } else {
        placed(steps.drop_last()) + steps.last().3
    }
}

/// The steps place every plan entry exactly once and in plan order: each
/// step starts where the ones before it stopped, and together they place as
/// many pages as the plan has entries.
pub proof fn lemma_steps_place_every_page(sources: Seq<Option<u32>>, n: int)
    requires
        0 <= n <= sources.len(),
    ensures
        placed(page_steps(sources, n)) == n,
        forall|k: int|
            0 <= k < page_steps(sources, n).len() ==> #[trigger] page_steps(sources, n)[k].2
                == placed(page_steps(sources, n).take(k)),
    decreases n,
{
    if n > 0 {
        lemma_steps_place_every_page(sources, n - 1);
        let prev = page_steps(sources, n - 1);
        let cur = page_steps(sources, n);
        if sources[n - 1] is Some && n >= 2 && sources[n - 2] is Some {
            assert(prev.len() > 0) by {
                if prev.len() == 0 {
                    assert(placed(prev) == 0);
                }
            }
            assert(cur.drop_last() =~= prev.drop_last());
            assert forall|k: int| 0 <= k < cur.len() implies #[trigger] cur[k].2 == placed(
                cur.take(k),
            ) by {
                assert(prev[k].2 == placed(prev.take(k)));
                if k < cur.len() - 1 {
                    assert(cur.take(k) =~= prev.take(k));
                } else {
                    assert(cur.take(k) =~= prev.take(k));
                }
            }
        } else {
            assert(cur.drop_last() =~= prev);
            assert forall|k: int| 0 <= k < cur.len() implies #[trigger] cur[k].2 == placed(
                cur.take(k),
            ) by {
                if k < cur.len() - 1 {
                    assert(cur.take(k) =~= prev.take(k));
                    assert(prev[k].2 == placed(prev.take(k)));
                } else {
                    assert(cur.take(k) =~= prev);
                }
            }
        }
    }
}

/// Plans how the output document's pages are put together from a plan whose
/// entries each name a source page (0-based) or none, for a blank page.
/// Consecutive source pages are imported in one step.
pub fn import_steps(sources: &Vec<Option<u32>>) -> (steps: Vec<PageStep>)
    requires
        sources@.len() <= u16::MAX,
        forall|i: int| 0 <= i < sources@.len() ==> (#[trigger] sources@[i] matches Some(s) ==> s < u32::MAX),
    ensures
        steps_view(steps@) == page_steps(sources@, sources@.len() as int),
{
    let mut steps: Vec<PageStep> = Vec::new();
    let mut i: usize = 0;
    proof {
        assert(steps_view(steps@) =~= page_steps(sources@, 0));
    }
    while i < sources.len()
        invariant
            i <= sources@.len(),
            sources@.len() <= u16::MAX,
            forall|k: int| 0 <= k < sources@.len() ==> (#[trigger] sources@[k] matches Some(s) ==> s < u32::MAX),
            steps_view(steps@) == page_steps(sources@, i as int),
            i < sources@.len() && sources@[i as int] is Some ==> (i == 0 || sources@[i - 1] is None),
        decreases sources@.len() - i,
    {
        match sources[i] {
            None => {
                let ghost before = steps@;
                steps.push(PageStep::Blank { at: i as u16 });
                proof {
                    assert(steps_view(steps@) =~= steps_view(before).push(
                        (false, Seq::<char>::empty(), i as int, 1),
                    ));
                }
                i = i + 1;
            },
            Some(_) => {
                let start = i;
                let mut list: Vec<char> = Vec::new();
                while i < sources.len() && sources[i].is_some()
                    invariant
                        start <= i <= sources@.len(),
                        sources@.len() <= u16::MAX,
                        forall|k: int|
                            0 <= k < sources@.len() ==> (#[trigger] sources@[k] matches Some(s) ==> s
                                < u32::MAX),
                        start < sources@.len() && sources@[start as int] is Some,
                        start == 0 || sources@[start - 1] is None,
                        forall|k: int| start <= k < i ==> #[trigger] sources@[k] is Some,
                        i == start ==> steps_view(steps@) == page_steps(sources@, i as int),
                        i == start ==> list@.len() == 0,
                        i > start ==> page_steps(sources@, i as int) == steps_view(steps@).push(
                            (true, list@, start as int, i - start),
                        ),
                    decreases sources@.len() - i,
                {
                    let s = sources[i].unwrap();
                    let ghost old_list = list@;
                    if i > start {
                        list.push(',');
                    }
                    let number = char_vec(decimal_string(s + 1).as_str());
                    push_all(&mut list, number.as_slice());
                    proof {
                        let prev = page_steps(sources@, i as int);
                        if i > start {
                            assert(sources@[i - 1] is Some);
                            assert(list@ =~= old_list + seq![','] + decimal((s + 1) as nat));
                        } else {
                            assert(list@ =~= decimal((s + 1) as nat));
                        }
                        assert(page_steps(sources@, i + 1) =~= steps_view(steps@).push(
                            (true, list@, start as int, i + 1 - start),
                        ));
                    }
                    i = i + 1;
                }
                let ghost before = steps@;
                let step = PageStep::Import {
                    pages: string_of(list.as_slice()),
                    at: start as u16,
                    count: (i - start) as u16,
                };
                steps.push(step);
                proof {
                    assert(steps_view(steps@) =~= steps_view(before).push(
                        (true, list@, start as int, i - start),
                    ));
                }
            },
        }
    }
    steps
}

/// The rotation a page ends at: its current rotation turned by `extra`
/// degrees, as one of the four quarter turns, where any angle that is not a
/// quarter turn counts as none.
pub open spec fn turned(current: u16, extra: u16) -> u16 {
    let total = (current + extra) % 360;
    if total == 90 || total == 180 || total == 270 {
        total as u16
    } else {
        0
    }
}

/// The rotation a page ends at after the plan turns it by `extra` degrees.
pub fn rotation_after(current: u16, extra: u16) -> (r: u16)
    ensures
        r == turned(current, extra),
        r == 0 || r == 90 || r == 180 || r == 270,
{
    let total = ((current as u32 + extra as u32) % 360) as u16;
    if total == 90 || total == 180 || total == 270 {
        total
    } else {
        0
    }
}

/// The annotation indices to remove from a page, each once, highest first,
/// so that removing one never shifts another still to be removed.
pub fn removal_order(drop: &Vec<u32>) -> (r: Vec<u32>)
    ensures
        forall|i: int, j: int| 0 <= i < j < r@.len() ==> r@[i] > r@[j],
        forall|x: u32| r@.contains(x) <==> drop@.contains(x),
{
    let mut out: Vec<u32> = Vec::new();
    let mut k: usize = 0;
    while k < drop.len()
        invariant
            k <= drop@.len(),
            forall|i: int, j: int| 0 <= i < j < out@.len() ==> out@[i] > out@[j],
            forall|x: u32| out@.contains(x) <==> drop@.take(k as int).contains(x),
        decreases drop@.len() - k,
    {
        let x = drop[k];
        let mut p: usize = 0;
        while p < out.len() && out[p] > x
            invariant
                p <= out@.len(),
                forall|i: int| 0 <= i < p ==> #[trigger] out@[i] > x,
            decreases out@.len() - p,
        {
            p = p + 1;
        }
        let ghost before = out@;
        if p == out.len() || out[p] != x {
            out.insert(p, x);
            proof {
                let after = out@;
                assert forall|i: int, j: int| 0 <= i < j < after.len() implies after[i] > after[j] by {
                    if j < p {
                        assert(after[i] == before[i] && after[j] == before[j]);
                    } else if j == p {
                        assert(after[i] == before[i]);
                    } else if i < p {
                        assert(after[i] == before[i] && after[j] == before[j - 1]);
                    } else if i == p {
                        assert(after[j] == before[j - 1]);
                        assert(before[p as int] < x);
                        if j - 1 > p {
                            assert(before[p as int] > before[j - 1]);
                        }
                    } else {
                        assert(after[i] == before[i - 1] && after[j] == before[j - 1]);
                    }
                }
                let taken = drop@.take(k + 1);
                assert(taken =~= drop@.take(k as int).push(x));
                assert(taken[k as int] == x);
                assert forall|y: u32| after.contains(y) implies taken.contains(y) by {
                    let w = choose|w: int| 0 <= w < after.len() && after[w] == y;
                    if w == p {
                        assert(taken[k as int] == y);
                    } else {
                        let v = if w < p { w } else { w - 1 };
                        assert(before[v] == y);
                        assert(before.contains(y));
                        let u = choose|u: int| 0 <= u < k && drop@.take(k as int)[u] == y;
                        assert(taken[u] == y);
                    }
                }
                assert forall|y: u32| taken.contains(y) implies after.contains(y) by {
                    let u = choose|u: int| 0 <= u < taken.len() && taken[u] == y;
                    if u == k {
                        assert(after[p as int] == y);
                    } else {
                        assert(drop@.take(k as int)[u] == y);
                        assert(drop@.take(k as int).contains(y));
                        assert(before.contains(y));
                        let w = choose|w: int| 0 <= w < before.len() && before[w] == y;
                        if w < p {
                            assert(after[w] == y);
                        } else {
                            assert(after[w + 1] == y);
                        }
                    }
                }
            }
        } else {
            proof {
                assert(out@[p as int] == x);
                let taken = drop@.take(k + 1);
                assert(taken =~= drop@.take(k as int).push(x));
                assert forall|y: u32| out@.contains(y) implies taken.contains(y) by {
                    let u = choose|u: int| 0 <= u < k && drop@.take(k as int)[u] == y;
                    assert(taken[u] == y);
                }
                assert forall|y: u32| taken.contains(y) implies out@.contains(y) by {
                    let u = choose|u: int| 0 <= u < taken.len() && taken[u] == y;
                    if u < k {
                        assert(drop@.take(k as int)[u] == y);
                        assert(drop@.take(k as int).contains(y));
                    }
                }
            }
        }
        k = k + 1;
    }
    proof {
        assert(drop@.take(k as int) =~= drop@);
    }
    out
}


/// What a plan asks of one output page beyond importing it: extra rotation,
/// and how many annotations, text boxes and images to add and source
/// annotations to drop.
#[derive(Clone, Copy, Debug, PartialEq, Eq)]
pub struct PageChanges {
    pub rotation: u16,
    pub annotations: usize,
    pub texts: usize,
    pub images: usize,
    pub dropped_annotations: usize,
}

/// Whether a page needs a pass of its own after import: an imported page the
/// plan leaves alone is written exactly as it came.
pub fn page_requires_mutation(page: &PageChanges) -> (r: bool)
    ensures
        r == (page.rotation % 360 != 0 || page.annotations > 0 || page.texts > 0 || page.images > 0
            || page.dropped_annotations > 0),
{
    page.rotation % 360 != 0 || page.annotations > 0 || page.texts > 0 || page.images > 0
        || page.dropped_annotations > 0
}

} // verus!
