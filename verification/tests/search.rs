use astar::astar;
use astar::reconstruct_path;
use std::collections::HashMap;

const A: u64 = 0;
const B: u64 = 1;
const C: u64 = 2;
const D: u64 = 3;

fn table(edges: &[(u64, u64, u64)]) -> HashMap<u64, Vec<(u64, u64)>> {
    let mut out: HashMap<u64, Vec<(u64, u64)>> = HashMap::new();
    for &(from, to, cost) in edges {
        out.entry(from).or_default().push((to, cost));
    }
    out
}

fn run(
    edges: &[(u64, u64, u64)],
    start: u64,
    goal: u64,
    estimate: &HashMap<u64, u64>,
) -> Option<(Vec<u64>, u64)> {
    let graph = table(edges);
    astar(
        &start,
        |n: &u64| graph.get(n).cloned().unwrap_or_default(),
        |n: &u64| estimate.get(n).copied().unwrap_or(0),
        |n: &u64| *n == goal,
    )
}

fn path_cost(edges: &[(u64, u64, u64)], path: &[u64]) -> u64 {
    let mut total = 0;
    for pair in path.windows(2) {
        total += edges
            .iter()
            .filter(|e| e.0 == pair[0] && e.1 == pair[1])
            .map(|e| e.2)
            .min()
            .expect("consecutive nodes are joined by an edge");
    }
    total
}

/// The least cost from `start` to `goal` by repeated relaxation of all edges.
fn least_cost(edges: &[(u64, u64, u64)], start: u64, goal: u64) -> Option<u64> {
    let mut best: HashMap<u64, u64> = HashMap::new();
    best.insert(start, 0);
    loop {
        let mut changed = false;
        for &(from, to, cost) in edges {
            if let Some(&sofar) = best.get(&from) {
                let through = sofar + cost;
                if best.get(&to).map_or(true, |&known| through < known) {
                    best.insert(to, through);
                    changed = true;
                }
            }
        }
        if !changed {
            return best.get(&goal).copied();
        }
    }
}

const DIAMOND: [(u64, u64, u64); 5] = [(A, B, 1), (A, C, 4), (B, C, 1), (B, D, 5), (C, D, 1)];

#[test]
fn four_node_example_takes_the_three_hop_path() {
    let found = run(&DIAMOND, A, D, &HashMap::new());
    assert_eq!(found, Some((vec![A, B, C, D], 3)));
}

#[test]
fn start_that_is_a_goal_gives_the_path_of_itself_at_cost_zero() {
    let found = run(&DIAMOND, A, A, &HashMap::new());
    assert_eq!(found, Some((vec![A], 0)));
}

#[test]
fn start_that_is_a_goal_ignores_heuristic_and_edges() {
    let mut estimate = HashMap::new();
    estimate.insert(C, 1_000_000);
    let found = run(&DIAMOND, C, C, &estimate);
    assert_eq!(found, Some((vec![C], 0)));
}

#[test]
fn unreachable_goal_gives_nothing() {
    let found = run(&DIAMOND, C, A, &HashMap::new());
    assert_eq!(found, None);
}

#[test]
fn goal_outside_the_graph_gives_nothing() {
    let found = run(&DIAMOND, A, 99, &HashMap::new());
    assert_eq!(found, None);
}

#[test]
fn dead_end_start_gives_nothing() {
    let found = run(&[], 7, 8, &HashMap::new());
    assert_eq!(found, None);
}

#[test]
fn cycle_without_goal_ends_with_nothing() {
    let edges = [(0, 1, 1), (1, 2, 1), (2, 0, 1), (2, 1, 0)];
    assert_eq!(run(&edges, 0, 5, &HashMap::new()), None);
}

#[test]
fn path_starts_at_start_ends_at_goal_and_sums_to_cost() {
    let edges = [
        (0, 1, 7),
        (0, 2, 9),
        (0, 5, 14),
        (1, 2, 10),
        (1, 3, 15),
        (2, 3, 11),
        (2, 5, 2),
        (3, 4, 6),
        (5, 4, 9),
    ];
    let (path, cost) = run(&edges, 0, 4, &HashMap::new()).expect("a path exists");
    assert_eq!(path, vec![0, 2, 5, 4]);
    assert_eq!(cost, 20);
    assert_eq!(path[0], 0);
    assert_eq!(*path.last().unwrap(), 4);
    assert_eq!(path_cost(&edges, &path), cost);
}

#[test]
fn equal_priorities_leave_in_the_order_they_were_pushed() {
    // Two paths of cost 2; the neighbor pushed first is expanded first.
    let edges = [(0, 1, 1), (0, 2, 1), (1, 3, 1), (2, 3, 1)];
    assert_eq!(run(&edges, 0, 3, &HashMap::new()), Some((vec![0, 1, 3], 2)));
    let swapped = [(0, 2, 1), (0, 1, 1), (1, 3, 1), (2, 3, 1)];
    assert_eq!(run(&swapped, 0, 3, &HashMap::new()), Some((vec![0, 2, 3], 2)));
}

#[test]
fn repeated_searches_return_the_same_path() {
    let edges = [(0, 1, 1), (0, 2, 1), (0, 3, 1), (1, 4, 1), (2, 4, 1), (3, 4, 1), (4, 5, 0)];
    let first = run(&edges, 0, 5, &HashMap::new());
    for _ in 0..20 {
        assert_eq!(run(&edges, 0, 5, &HashMap::new()), first);
    }
    assert_eq!(first, Some((vec![0, 1, 4, 5], 2)));
}

#[test]
fn worse_rediscovery_of_a_waiting_node_changes_nothing() {
    // D is first seen through B at cost 2, then again through C at cost 6
    // while it still waits in the frontier.
    let edges = [(A, B, 1), (A, C, 1), (B, D, 1), (C, D, 5)];
    assert_eq!(run(&edges, A, D, &HashMap::new()), Some((vec![A, B, D], 2)));
}

#[test]
fn equal_rediscovery_keeps_the_first_predecessor() {
    let edges = [(A, B, 2), (A, C, 1), (C, B, 1), (B, D, 1)];
    // B is seen through A at 2, then through C at 2 again: not strictly better.
    assert_eq!(run(&edges, A, D, &HashMap::new()), Some((vec![A, B, D], 3)));
}

#[test]
fn cheapest_of_parallel_edges_is_taken() {
    let edges = [(0, 1, 5), (0, 1, 3), (0, 1, 4), (1, 2, 1)];
    let (path, cost) = run(&edges, 0, 2, &HashMap::new()).expect("a path exists");
    assert_eq!(path, vec![0, 1, 2]);
    assert_eq!(cost, 4);
    assert_eq!(path_cost(&edges, &path), 4);
}

#[test]
fn zero_cost_edges_and_self_loops_are_harmless() {
    let edges = [(0, 0, 0), (0, 1, 0), (1, 0, 0), (1, 1, 3), (1, 2, 0)];
    assert_eq!(run(&edges, 0, 2, &HashMap::new()), Some((vec![0, 1, 2], 0)));
}

#[test]
fn admissible_heuristic_finds_the_least_cost() {
    // h is the exact remaining cost on the cheap route and an underestimate elsewhere.
    let edges =
        [(0, 1, 2), (0, 2, 2), (1, 3, 2), (2, 3, 5), (3, 4, 2), (2, 4, 9), (1, 4, 7), (4, 5, 1)];
    let estimate: HashMap<u64, u64> =
        [(0, 7), (1, 5), (2, 3), (3, 3), (4, 1), (5, 0)].into_iter().collect();
    let found = run(&edges, 0, 5, &estimate);
    assert_eq!(found, Some((vec![0, 1, 3, 4, 5], 7)));
    assert_eq!(least_cost(&edges, 0, 5), Some(7));
}

#[test]
fn admissible_but_inconsistent_heuristic_reopens_an_expanded_node() {
    // 2 is expanded at score 5 before the cheaper way through 1 is found.
    let edges = [(0, 1, 1), (0, 2, 5), (1, 2, 1), (2, 3, 10)];
    let estimate: HashMap<u64, u64> = [(0, 0), (1, 10), (2, 0), (3, 0)].into_iter().collect();
    let found = run(&edges, 0, 3, &estimate);
    assert_eq!(found, Some((vec![0, 1, 2, 3], 12)));
    assert_eq!(least_cost(&edges, 0, 3), Some(12));
}

#[test]
fn overestimating_heuristic_still_returns_a_path_that_sums_to_its_cost() {
    let edges = [(0, 1, 1), (1, 3, 1), (0, 2, 1), (2, 3, 5)];
    let estimate: HashMap<u64, u64> = [(1, 100)].into_iter().collect();
    let (path, cost) = run(&edges, 0, 3, &estimate).expect("a path exists");
    assert_eq!(path, vec![0, 2, 3]);
    assert_eq!(cost, 6);
    assert_eq!(path_cost(&edges, &path), cost);
}

#[test]
fn zero_heuristic_matches_search_by_cost_alone() {
    let mut seed: u64 = 0x2545_f491_4f6c_dd1d;
    let mut next = move |bound: u64| {
        seed ^= seed << 13;
        seed ^= seed >> 7;
        seed ^= seed << 17;
        seed % bound
    };
    for _ in 0..300 {
        let nodes = 2 + next(6);
        let mut edges = Vec::new();
        for _ in 0..next(14) {
            edges.push((next(nodes), next(nodes), next(9)));
        }
        let goal = next(nodes);
        let found = run(&edges, 0, goal, &HashMap::new());
        let least = least_cost(&edges, 0, goal);
        assert_eq!(found.as_ref().map(|f| f.1), least);
        if let Some((path, cost)) = found {
            assert_eq!(path[0], 0);
            assert_eq!(*path.last().unwrap(), goal);
            assert_eq!(path_cost(&edges, &path), cost);
        }
    }
}

#[test]
fn any_heuristic_gives_a_path_exactly_where_the_goal_is_reachable() {
    let mut seed: u64 = 0x9e37_79b9_7f4a_7c15;
    let mut next = move |bound: u64| {
        seed ^= seed << 13;
        seed ^= seed >> 7;
        seed ^= seed << 17;
        seed % bound
    };
    for _ in 0..300 {
        let nodes = 2 + next(6);
        let mut edges = Vec::new();
        for _ in 0..next(14) {
            edges.push((next(nodes), next(nodes), next(9)));
        }
        let estimate: HashMap<u64, u64> = (0..nodes).map(|n| (n, next(20))).collect();
        let goal = next(nodes);
        let found = run(&edges, 0, goal, &estimate);
        let least = least_cost(&edges, 0, goal);
        assert_eq!(found.is_some(), least.is_some());
        if let Some((path, cost)) = found {
            assert_eq!(path[0], 0);
            assert_eq!(*path.last().unwrap(), goal);
            assert_eq!(path_cost(&edges, &path), cost);
            assert!(least.unwrap() <= cost);
        }
    }
}

#[test]
fn grid_with_manhattan_heuristic() {
    // A 5 x 5 grid, node = 5 * row + column, with a wall in column 2 that is
    // open only in the bottom row.
    let blocked = |n: u64| n % 5 == 2 && n / 5 < 4;
    let goal: u64 = 4;
    let found = astar(
        &0,
        |n: &u64| {
            let (r, c) = (*n / 5, *n % 5);
            let mut out = Vec::new();
            if r > 0 {
                out.push((*n - 5, 1));
            }
            if r < 4 {
                out.push((*n + 5, 1));
            }
            if c > 0 {
                out.push((*n - 1, 1));
            }
            if c < 4 {
                out.push((*n + 1, 1));
            }
            out.into_iter().filter(|e| !blocked(e.0)).collect()
        },
        |n: &u64| (*n / 5).abs_diff(goal / 5) + (*n % 5).abs_diff(goal % 5),
        |n: &u64| *n == goal,
    );
    let (path, cost) = found.expect("the wall has a gap");
    assert_eq!(cost, 12);
    assert_eq!(path.len(), 13);
    assert_eq!(path[0], 0);
    assert_eq!(*path.last().unwrap(), 4);
    assert!(path.contains(&22));
}

#[test]
fn goal_test_may_accept_several_nodes() {
    let graph = table(&[(0, 1, 4), (0, 2, 1), (2, 3, 1), (3, 4, 1)]);
    let found = astar(
        &0,
        |n: &u64| graph.get(n).cloned().unwrap_or_default(),
        |_: &u64| 0,
        |n: &u64| *n == 1 || *n == 4,
    );
    assert_eq!(found, Some((vec![0, 2, 3, 4], 3)));
}

#[test]
fn reconstruct_path_of_a_node_without_predecessor() {
    let came_from: HashMap<u64, u64> = HashMap::new();
    assert_eq!(reconstruct_path(&came_from, 42), vec![42]);
}

#[test]
fn reconstruct_path_follows_predecessors_to_the_root() {
    let came_from: HashMap<u64, u64> = [(4, 3), (3, 1), (1, 0), (2, 0)].into_iter().collect();
    assert_eq!(reconstruct_path(&came_from, 4), vec![0, 1, 3, 4]);
    assert_eq!(reconstruct_path(&came_from, 2), vec![0, 2]);
    assert_eq!(reconstruct_path(&came_from, 0), vec![0]);
}

/// The same search written plainly over a sorted list, for comparison.
fn plain_search(
    edges: &[(u64, u64, u64)],
    start: u64,
    goal: u64,
    estimate: &HashMap<u64, u64>,
) -> Option<(Vec<u64>, u64)> {
    let graph = table(edges);
    let h = |n: u64| estimate.get(&n).copied().unwrap_or(0);
    let mut waiting: Vec<(u64, u64, u64)> = vec![(h(start), 0, start)];
    let mut score: HashMap<u64, u64> = HashMap::new();
    let mut from: HashMap<u64, u64> = HashMap::new();
    let mut pushed = 1;
    score.insert(start, 0);
    while !waiting.is_empty() {
        waiting.sort();
        let (_, _, current) = waiting.remove(0);
        if current == goal {
            let mut path = vec![current];
            let mut at = current;
            while let Some(&prev) = from.get(&at) {
                path.push(prev);
                at = prev;
            }
            path.reverse();
            return Some((path, score[&current]));
        }
        for &(to, cost) in graph.get(&current).map(|v| v.as_slice()).unwrap_or(&[]) {
            let through = score[&current] + cost;
            if score.get(&to).map_or(true, |&known| through < known) {
                score.insert(to, through);
                from.insert(to, current);
                waiting.push((through + h(to), pushed, to));
                pushed += 1;
            }
        }
    }
    None
}

#[test]
fn agrees_with_a_plain_search_node_for_node() {
    let mut seed: u64 = 0x0123_4567_89ab_cdef;
    let mut next = move |bound: u64| {
        seed ^= seed << 13;
        seed ^= seed >> 7;
        seed ^= seed << 17;
        seed % bound
    };
    for round in 0..400 {
        let nodes = 2 + next(9);
        let mut edges = Vec::new();
        for _ in 0..next(30) {
            // Few distinct costs, so that equal priorities are common.
            edges.push((next(nodes), next(nodes), next(3)));
        }
        let estimate: HashMap<u64, u64> = if round % 2 == 0 {
            HashMap::new()
        } else {
            (0..nodes).map(|n| (n, next(4))).collect()
        };
        let goal = next(nodes);
        assert_eq!(run(&edges, 0, goal, &estimate), plain_search(&edges, 0, goal, &estimate));
    }
}

#[test]
fn large_grid_is_searched_within_its_size() {
    let side: u64 = 120;
    let goal = side * side - 1;
    let found = astar(
        &0,
        |n: &u64| {
            let (r, c) = (*n / side, *n % side);
            let mut out = Vec::new();
            if r + 1 < side {
                out.push((*n + side, 1 + (r + c) % 3));
            }
            if c + 1 < side {
                out.push((*n + 1, 1 + (r * c) % 2));
            }
            if r > 0 {
                out.push((*n - side, 2));
            }
            out
        },
        |n: &u64| (side - 1 - *n / side) + (side - 1 - *n % side),
        |n: &u64| *n == goal,
    );
    let (path, cost) = found.expect("the far corner is reachable");
    assert_eq!(path[0], 0);
    assert_eq!(*path.last().unwrap(), goal);
    assert!(path.len() as u64 >= 2 * side - 1);
    assert!(cost >= 2 * (side - 1));
    assert!(cost <= 6 * (side - 1));
}
