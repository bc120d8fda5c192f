use aoc::day17::model::{Grid, Heading, Node, SearchState};
use aoc::day17::input::parse_input;
use aoc::day17::solver::{check_fits, clamp_run, find_path, part_one, part_two, solve, SolveError};

fn grid(rows: Vec<Vec<u8>>) -> Grid {
    Grid::new(rows).unwrap()
}

#[test]
fn two_by_two_costs_two() {
    let g = grid(vec![vec![1, 1], vec![1, 1]]);
    assert_eq!(solve(&g, 1, 3), Ok(2));
    assert_eq!(find_path(&g, 1, 3), Some(2));
}

#[test]
fn single_row_goes_straight() {
    let g = grid(vec![vec![7, 3, 1, 4, 2]]);
    assert_eq!(solve(&g, 1, 10), Ok(3 + 1 + 4 + 2));
}

#[test]
fn single_row_run_limit_counts_the_seed() {
    // The walker starts with a run of one, so four steps to the right end
    // with a run of five (seed heading right) or four (any other seed).
    let g = grid(vec![vec![7, 3, 1, 4, 2]]);
    assert_eq!(solve(&g, 1, 4), Ok(10));
    assert_eq!(solve(&g, 1, 3), Err(SolveError::Unreachable));
    assert_eq!(solve(&g, 2, 3), Err(SolveError::Unreachable));
    assert_eq!(solve(&g, 2, 5), Ok(10));
    assert_eq!(solve(&g, 2, 4), Err(SolveError::Unreachable));
}

#[test]
fn inverted_bounds_are_rejected() {
    let g = grid(vec![vec![1, 1], vec![1, 1]]);
    assert_eq!(solve(&g, 5, 3), Err(SolveError::InvalidBounds));
    assert_eq!(solve(&g, 0, 3), Err(SolveError::InvalidBounds));
}

#[test]
fn upper_limit_beyond_the_grid_changes_nothing() {
    let g = sample();
    let wide = solve(&g, 1, 13);
    assert_eq!(solve(&g, 1, 14), wide);
    assert_eq!(solve(&g, 1, usize::MAX), wide);
    assert_eq!(clamp_run(&g, usize::MAX), 13);
    assert_eq!(clamp_run(&g, 5), 5);
    assert!(check_fits(&g, usize::MAX));
}

#[test]
fn oversized_state_space_is_rejected() {
    let g = grid(vec![vec![0u8; 150_000_000]]);
    assert_eq!(solve(&g, 1, usize::MAX), Err(SolveError::TooLarge));
    assert!(!check_fits(&g, usize::MAX));
}

#[test]
fn unit_runs_against_the_plain_search() {
    // the cheapest plain path is a staircase: both searches agree
    let stairs = grid(vec![vec![1, 1, 9], vec![9, 1, 1], vec![9, 9, 1]]);
    assert_eq!(solve(&stairs, 1, 1), Ok(4));
    assert_eq!(solve(&stairs, 1, usize::MAX), Ok(4));
    // the cheapest plain path runs straight: unit runs cost more
    let straight = grid(vec![vec![1, 1, 1], vec![9, 9, 1], vec![9, 9, 1]]);
    assert_eq!(solve(&straight, 1, usize::MAX), Ok(4));
    assert_eq!(solve(&straight, 1, 1), Ok(1 + 9 + 1 + 1));
}

#[test]
fn parsed_grid_is_solved() {
    let g = parse_input("11\n11\n").unwrap();
    assert_eq!(solve(&g, 1, 3), Ok(2));
    let text = "2413432311323\n3215453535623\n3255245654254\n3446585845452\n4546657867536\n1438598798454\n4457876987766\n3637877979653\n4654967986887\n4564679986453\n1224686865563\n2546548887735\n4322674655533\n";
    let g = parse_input(text).unwrap();
    assert_eq!(g.rows(), 13);
    assert_eq!(g.cols(), 13);
    assert_eq!(g.get(0, 1), 4);
    assert_eq!(part_one(&g), solve(&sample(), 1, 3));
    assert!(parse_input("").is_none());
    assert!(parse_input("12\n3\n").is_none());
    assert!(parse_input("12\n3x\n").is_none());
    assert!(parse_input("\n12\n").is_none());
}

#[test]
fn zero_grid_costs_nothing() {
    let g = grid(vec![vec![0; 6]; 5]);
    assert_eq!(solve(&g, 1, 3), Ok(0));
    assert_eq!(solve(&g, 2, 4), Ok(0));
    assert_eq!(solve(&g, 1, 1), Ok(0));
}

#[test]
fn one_cell_grid_is_already_solved() {
    let g = grid(vec![vec![9]]);
    assert_eq!(solve(&g, 1, 3), Ok(0));
    assert_eq!(solve(&g, 4, 10), Ok(0));
}

fn sample() -> Grid {
    let text = [
        "2413432311323",
        "3215453535623",
        "3255245654254",
        "3446585845452",
        "4546657867536",
        "1438598798454",
        "4457876987766",
        "3637877979653",
        "4654967986887",
        "4564679986453",
        "1224686865563",
        "2546548887735",
        "4322674655533",
    ];
    grid(text.iter().map(|l| l.bytes().map(|b| b - b'0').collect()).collect())
}

#[test]
fn raising_max_run_never_costs_more() {
    let g = sample();
    let mut last = solve(&g, 1, 1);
    for max_run in 2..8 {
        let now = solve(&g, 1, max_run);
        if let Ok(before) = last {
            assert!(now.unwrap() <= before);
        }
        last = now;
    }
}

#[test]
fn raising_min_run_never_costs_less() {
    let g = sample();
    let mut last = solve(&g, 1, 6);
    for min_run in 2..=6 {
        let now = solve(&g, min_run, 6);
        if let Ok(after) = now {
            assert!(last.unwrap() <= after);
        }
        last = now;
    }
}

#[test]
fn repeated_calls_agree() {
    let g = sample();
    assert_eq!(solve(&g, 1, 3), solve(&g, 1, 3));
    assert_eq!(part_two(&g), part_two(&g));
}

#[test]
fn parts_use_their_bounds() {
    let g = sample();
    assert_eq!(part_one(&g), solve(&g, 1, 3));
    assert_eq!(part_two(&g), solve(&g, 4, 10));
    assert!(part_one(&g).is_ok());
}

#[test]
fn unit_runs_force_a_turn_at_every_step() {
    // Straight travel needs a run of two, so a single row cannot be crossed.
    let row = grid(vec![vec![0, 1, 1]]);
    assert_eq!(solve(&row, 1, 1), Err(SolveError::Unreachable));
    // A staircase is fine.
    let g = grid(vec![vec![1, 2, 9], vec![9, 3, 4], vec![9, 9, 5]]);
    assert_eq!(solve(&g, 1, 1), Ok(2 + 3 + 4 + 5));
}

#[test]
fn ragged_or_empty_grids_are_refused() {
    assert!(Grid::new(vec![]).is_none());
    assert!(Grid::new(vec![vec![]]).is_none());
    assert!(Grid::new(vec![vec![1, 2], vec![3]]).is_none());
    assert!(Grid::new(vec![vec![1, 2], vec![3, 4]]).is_some());
}

#[test]
fn seeds_cover_every_heading() {
    let seeds = Node::start();
    let dirs = [Heading::Down, Heading::Right, Heading::Up, Heading::Left];
    for i in 0..4 {
        assert_eq!(seeds[i], Node { state: SearchState { row: 0, col: 0, dir: dirs[i], run: 1 }, dist: 0 });
    }
}

#[test]
fn next_follows_the_step_rules() {
    let g = grid(vec![vec![1, 2, 3], vec![4, 5, 6], vec![7, 8, 9]]);
    let at = |row, col, dir, run, dist| Node { state: SearchState { row, col, dir, run }, dist };
    let n = at(1, 1, Heading::Right, 2, 10);
    // reversing
    assert_eq!(n.next(Heading::Left, 1, 3, &g), None);
    // continuing within the limit
    assert_eq!(n.next(Heading::Right, 1, 3, &g), Some(at(1, 2, Heading::Right, 3, 16)));
    // continuing beyond the limit
    assert_eq!(n.next(Heading::Right, 1, 2, &g), None);
    // turning after a long enough run
    assert_eq!(n.next(Heading::Down, 2, 3, &g), Some(at(2, 1, Heading::Down, 1, 18)));
    assert_eq!(n.next(Heading::Up, 1, 3, &g), Some(at(0, 1, Heading::Up, 1, 12)));
    // turning too early
    assert_eq!(n.next(Heading::Down, 3, 3, &g), None);
    // leaving the grid
    assert_eq!(at(0, 0, Heading::Up, 1, 0).next(Heading::Left, 1, 3, &g), None);
    assert_eq!(at(2, 2, Heading::Down, 1, 0).next(Heading::Right, 1, 3, &g), None);
    // a cost that does not fit
    assert_eq!(at(1, 1, Heading::Right, 1, u64::MAX).next(Heading::Right, 1, 3, &g), None);
}
