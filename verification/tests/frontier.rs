use astar::frontier::Entry;
use astar::frontier::Frontier;

fn drain(f: &mut Frontier) -> Vec<(u64, u128, u64)> {
    let mut out = Vec::new();
    while let Some(e) = f.pop() {
        out.push((e.priority, e.seq, e.node));
    }
    out
}

#[test]
fn empty_frontier_pops_nothing() {
    let mut f = Frontier::new();
    assert!(f.is_empty());
    assert!(f.pop().is_none());
    assert!(f.is_empty());
}

#[test]
fn entries_leave_by_priority() {
    let mut f = Frontier::new();
    for (seq, priority) in [9u64, 3, 7, 1, 8, 2, 6].into_iter().enumerate() {
        f.push(Entry { priority, seq: seq as u128, node: priority * 10 });
    }
    assert!(!f.is_empty());
    let order: Vec<u64> = drain(&mut f).into_iter().map(|e| e.0).collect();
    assert_eq!(order, vec![1, 2, 3, 6, 7, 8, 9]);
    assert!(f.is_empty());
}

#[test]
fn equal_priorities_leave_by_sequence_number() {
    let mut f = Frontier::new();
    f.push(Entry { priority: 5, seq: 3, node: 30 });
    f.push(Entry { priority: 5, seq: 1, node: 10 });
    f.push(Entry { priority: 4, seq: 4, node: 40 });
    f.push(Entry { priority: 5, seq: 2, node: 20 });
    f.push(Entry { priority: 5, seq: 0, node: 0 });
    assert_eq!(drain(&mut f), vec![(4, 4, 40), (5, 0, 0), (5, 1, 10), (5, 2, 20), (5, 3, 30)]);
}

#[test]
fn pushes_and_pops_may_alternate() {
    let mut f = Frontier::new();
    f.push(Entry { priority: 10, seq: 0, node: 1 });
    f.push(Entry { priority: 20, seq: 1, node: 2 });
    assert_eq!(f.pop().map(|e| e.node), Some(1));
    f.push(Entry { priority: 5, seq: 2, node: 3 });
    f.push(Entry { priority: 20, seq: 3, node: 4 });
    assert_eq!(f.pop().map(|e| e.node), Some(3));
    assert_eq!(f.pop().map(|e| e.node), Some(2));
    assert_eq!(f.pop().map(|e| e.node), Some(4));
    assert!(f.pop().is_none());
}

#[test]
fn many_entries_come_out_sorted() {
    let mut f = Frontier::new();
    let mut seed: u64 = 12345;
    let mut expected = Vec::new();
    for seq in 0..500u128 {
        seed = seed.wrapping_mul(6364136223846793005).wrapping_add(1442695040888963407);
        let priority = (seed >> 33) % 50;
        f.push(Entry { priority, seq, node: seq as u64 });
        expected.push((priority, seq, seq as u64));
    }
    expected.sort();
    assert_eq!(drain(&mut f), expected);
}
