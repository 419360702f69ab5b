use speedyf::queue::{GenerationMap, PrioQueue};
use speedyf::types::{DocId, JobMeta, Priority};

fn meta(doc: DocId, generation: u64) -> JobMeta {
    JobMeta {
        doc,
        gen: generation,
    }
}

#[test]
fn pops_by_priority_then_fifo_within_priority() {
    let mut q: PrioQueue<&'static str> = PrioQueue::new();
    q.push(Priority::Prefetch, meta(1, 0), "prefetch");
    q.push(Priority::VisiblePage, meta(1, 0), "page-a");
    q.push(Priority::VisiblePage, meta(1, 0), "page-b");
    q.push(Priority::VisibleThumb, meta(1, 0), "thumb");
    q.close();
    let order: Vec<&str> = std::iter::from_fn(|| q.pop().map(|(_, w)| w)).collect();
    assert_eq!(order, vec!["page-a", "page-b", "thumb", "prefetch"]);
}

#[test]
fn a_closed_queue_takes_nothing_more_but_still_drains() {
    let mut q: PrioQueue<u32> = PrioQueue::new();
    q.push(Priority::Idle, meta(1, 0), 1);
    q.close();
    q.push(Priority::VisiblePage, meta(1, 0), 2);
    assert_eq!(q.len(), 1);
    assert_eq!(q.pop().map(|(_, w)| w), Some(1));
    assert!(q.is_empty());
    assert!(q.pop().is_none());
}

#[test]
fn generation_bump_marks_older_jobs_stale() {
    let mut gens = GenerationMap::default();
    let g0 = gens.current(7);
    let m = meta(7, g0);
    assert!(!gens.is_stale(&m));
    let g1 = gens.bump(7);
    assert!(g1 > g0);
    assert!(gens.is_stale(&m), "job submitted at g0 is stale after bump");
    let fresh = meta(7, g1);
    assert!(!gens.is_stale(&fresh));
}

#[test]
fn generations_are_per_document() {
    let mut gens = GenerationMap::default();
    let a = meta(1, gens.current(1));
    gens.bump(2);
    assert!(!gens.is_stale(&a), "bumping doc 2 must not stale doc 1 jobs");
    assert_eq!(gens.bump(2), 2);
    assert_eq!(gens.current(2), 2);
    assert_eq!(gens.current(1), 0);
}
