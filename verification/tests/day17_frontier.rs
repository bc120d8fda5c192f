use aoc::day17::frontier::Frontier;
use aoc::day17::model::{Heading, Node, SearchState};
use aoc::day17::search::relax;
use aoc::day17::model::Grid;
use aoc::order::{sort_falling, sort_rising};

fn node(row: usize, dist: u64) -> Node {
    Node { state: SearchState { row, col: 0, dir: Heading::Down, run: 1 }, dist }
}

#[test]
fn frontier_hands_out_cheapest_first() {
    let mut f = Frontier::new();
    assert_eq!(f.len(), 0);
    assert_eq!(f.pop(), None);
    let dists = [5u64, 3, 9, 3, 0, 7, 1, 8, 2, 6, 4, 3];
    for (i, &d) in dists.iter().enumerate() {
        f.push(node(i, d));
    }
    assert_eq!(f.len(), dists.len());
    let mut out = Vec::new();
    while let Some(n) = f.pop() {
        out.push(n.dist);
    }
    let mut want = dists.to_vec();
    want.sort();
    assert_eq!(out, want);
    assert_eq!(f.len(), 0);
}

#[test]
fn frontier_keeps_every_entry() {
    let mut f = Frontier::new();
    for i in 0..50 {
        f.push(node(i, ((i * 37) % 11) as u64));
    }
    let mut rows = Vec::new();
    let mut last = 0;
    while let Some(n) = f.pop() {
        assert!(n.dist >= last);
        last = n.dist;
        rows.push(n.state.row);
    }
    rows.sort();
    assert_eq!(rows, (0..50).collect::<Vec<usize>>());
}

#[test]
fn slots_count_through_the_states() {
    let g = Grid::new(vec![vec![1, 1, 1], vec![1, 1, 1]]).unwrap();
    let max_run = 4;
    let mut seen = Vec::new();
    for row in 0..2 {
        for col in 0..3 {
            for dir in [Heading::Down, Heading::Right, Heading::Up, Heading::Left] {
                for run in 1..=max_run {
                    seen.push(g.slot_of(max_run, SearchState { row, col, dir, run }));
                }
            }
        }
    }
    assert_eq!(seen, (0..2 * 3 * 4 * max_run).collect::<Vec<usize>>());
    assert_eq!(Heading::from_ordinal(2), Heading::Up);
    assert_eq!(Heading::Left.to_ordinal(), 3);
    assert_eq!(Heading::Left.reversed(), Heading::Right);
    assert_eq!(Heading::Down.reversed(), Heading::Up);
}

#[test]
fn relaxing_takes_only_better_costs() {
    let g = Grid::new(vec![vec![1, 5], vec![1, 1]]).unwrap();
    let max_run = 3;
    let mut table: Vec<Option<u64>> = vec![None; 2 * 2 * 4 * max_run];
    let mut frontier = Frontier::new();
    for seed in Node::start() {
        table[g.slot_of(max_run, seed.state)] = Some(0);
        frontier.push(seed);
    }
    let start = Node { state: SearchState { row: 0, col: 0, dir: Heading::Right, run: 1 }, dist: 0 };
    // turning down enters a cell of weight one
    relax(&g, 1, max_run, &mut table, &mut frontier, start, Heading::Down);
    let down = SearchState { row: 1, col: 0, dir: Heading::Down, run: 1 };
    assert_eq!(table[g.slot_of(max_run, down)], Some(1));
    assert_eq!(frontier.len(), 5);
    // going on to the right enters the cell of weight five
    relax(&g, 1, max_run, &mut table, &mut frontier, start, Heading::Right);
    let right = SearchState { row: 0, col: 1, dir: Heading::Right, run: 2 };
    assert_eq!(table[g.slot_of(max_run, right)], Some(5));
    assert_eq!(frontier.len(), 6);
    // leaving the grid and reversing change nothing
    relax(&g, 1, max_run, &mut table, &mut frontier, start, Heading::Up);
    relax(&g, 1, max_run, &mut table, &mut frontier, start, Heading::Left);
    assert_eq!(frontier.len(), 6);
    // the same steps again find nothing better
    relax(&g, 1, max_run, &mut table, &mut frontier, start, Heading::Down);
    relax(&g, 1, max_run, &mut table, &mut frontier, start, Heading::Right);
    assert_eq!(frontier.len(), 6);
    assert_eq!(table.iter().filter(|e| e.is_some()).count(), 6);
}

#[test]
fn small_sorts() {
    let mut bytes = vec![5u8, 1, 4, 1, 3];
    sort_rising(&mut bytes);
    assert_eq!(bytes, vec![1, 1, 3, 4, 5]);
    let mut sizes = vec![0usize, 2, 1, 2, 0];
    sort_falling(&mut sizes);
    assert_eq!(sizes, vec![2, 2, 1, 0, 0]);
    let mut none: Vec<u8> = vec![];
    sort_rising(&mut none);
    assert!(none.is_empty());
}
