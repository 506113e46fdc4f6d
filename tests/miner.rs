use blockchain::block::{Block, PROOF_CHUNKS};
use blockchain::miner::{plan_chunks, search_in_order, Collector, MiningTask};
use blockchain::queue::Task;
use std::sync::Arc;

fn run_all(block: &Block, plan: &[(u64, u64)]) -> Vec<Option<u64>> {
    let shared = Arc::new(block.clone());
    plan.iter()
        .map(|&(lo, hi)| MiningTask { block: shared.clone(), start: lo, end: hi }.run())
        .collect()
}

fn collect(end: u64, arrivals: &[Option<u64>]) -> u64 {
    let mut c = Collector::new(end, arrivals.len());
    let mut i = 0;
    loop {
        if let Some(a) = c.answer() {
            return a;
        }
        c.report(arrivals[i]);
        i += 1;
    }
}

#[test]
fn plan_cuts_range_evenly() {
    assert_eq!(plan_chunks(0, 10, 3), vec![(0, 4), (4, 8), (8, 10)]);
    assert_eq!(plan_chunks(5, 11, 2), vec![(5, 8), (8, 11)]);
    assert_eq!(plan_chunks(0, 10, 1), vec![(0, 10)]);
    let fine = plan_chunks(0, 10, 20);
    assert_eq!(fine.len(), 10);
    assert_eq!(fine[9], (9, 10));
    assert_eq!(plan_chunks(0, 9, 4), vec![(0, 3), (3, 6), (6, 9)]);
}

#[test]
fn plan_of_empty_range() {
    assert!(plan_chunks(3, 3, 4).is_empty());
    assert!(plan_chunks(10, 5, 2).is_empty());
}

#[test]
fn plan_of_whole_u64_range() {
    let plan = plan_chunks(0, u64::MAX, 2);
    assert_eq!(plan, vec![(0, 1u64 << 63), (1u64 << 63, u64::MAX)]);
    let plan = plan_chunks(0, u64::MAX, PROOF_CHUNKS);
    assert_eq!(plan.len(), PROOF_CHUNKS as usize);
    assert_eq!(plan.last().unwrap().1, u64::MAX);
}

#[test]
fn mining_task_reports_lowest_in_chunk() {
    let b = Block::initial(4);
    let lowest = b.find_proof(100, 400).unwrap();
    let t = MiningTask { block: Arc::new(b.clone()), start: 100, end: 400 };
    assert_eq!(t.scan(), Some(lowest));
    assert_eq!(t.run(), Some(lowest));
    for q in 100..lowest {
        assert!(!b.is_valid_for_proof(q));
    }
    let empty = MiningTask { block: Arc::new(b), start: 7, end: 7 };
    assert_eq!(empty.run(), None);
}

#[test]
fn collector_takes_first_reported_proof() {
    assert_eq!(collect(50, &[None, Some(31), Some(4)]), 31);
    assert_eq!(collect(50, &[Some(4), Some(31)]), 4);
    assert_eq!(collect(50, &[None, None, None]), 50);
}

#[test]
fn collector_waits_for_every_chunk() {
    let mut c = Collector::new(9, 2);
    assert_eq!(c.answer(), None);
    c.report(None);
    assert_eq!(c.answer(), None);
    c.report(None);
    assert_eq!(c.answer(), Some(9));
}

#[test]
fn empty_range_answers_end() {
    let plan = plan_chunks(40, 40, 8);
    assert!(plan.is_empty());
    let c = Collector::new(40, plan.len());
    assert_eq!(c.answer(), Some(40));
}

#[test]
fn search_finds_a_valid_proof_in_any_order() {
    let b = Block::initial(5);
    let plan = plan_chunks(0, 400, 7);
    let outs = run_all(&b, &plan);
    assert!(outs.iter().any(|o| o.is_some()));
    let mut rev = outs.clone();
    rev.reverse();
    for arrivals in [outs, rev] {
        let a = collect(400, &arrivals);
        assert!(a < 400);
        assert!(b.is_valid_for_proof(a));
    }
}

#[test]
fn search_without_solution_answers_end() {
    let b = Block::initial(255);
    let plan = plan_chunks(10, 60, 6);
    let outs = run_all(&b, &plan);
    assert!(outs.iter().all(|o| o.is_none()));
    assert_eq!(collect(60, &outs), 60);
}

#[test]
fn single_chunk_is_serial_scan() {
    let b = Block::initial(6);
    let plan = plan_chunks(0, 500, 1);
    assert_eq!(plan, vec![(0, 500)]);
    let outs = run_all(&b, &plan);
    let expected = b.find_proof(0, 500).unwrap_or(500);
    assert_eq!(collect(500, &outs), expected);
    let none = Block::initial(255);
    assert_eq!(collect(20, &run_all(&none, &plan_chunks(0, 20, 1))), 20);
}

#[test]
fn difficulty_zero_first_chunk_gives_zero() {
    let b = Block::initial(0);
    let plan = plan_chunks(0, 64, 4);
    let outs = run_all(&b, &plan);
    assert_eq!(outs, vec![Some(0), Some(16), Some(32), Some(48)]);
    assert_eq!(collect(64, &outs), 0);
}

#[test]
fn search_in_order_takes_first_chunk_with_proof() {
    let b = Block::initial(5);
    let plan = plan_chunks(0, 400, 7);
    let expected = plan.iter().find_map(|&(lo, hi)| b.find_proof(lo, hi)).unwrap();
    let a = search_in_order(&b, 0, 400, 7);
    assert_eq!(a, expected);
    assert!(b.is_valid_for_proof(a));
}

#[test]
fn search_in_order_without_solution_answers_end() {
    let b = Block::initial(255);
    assert_eq!(search_in_order(&b, 10, 60, 6), 60);
    assert_eq!(search_in_order(&b, 60, 60, 6), 60);
}

#[test]
fn search_in_order_single_chunk_is_lowest() {
    let b = Block::initial(6);
    assert_eq!(search_in_order(&b, 0, 500, 1), b.find_proof(0, 500).unwrap_or(500));
    let z = Block::initial(0);
    assert_eq!(search_in_order(&z, 0, 100, 9), 0);
    assert_eq!(search_in_order(&z, 30, 30, 1), 30);
}
