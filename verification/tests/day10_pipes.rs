use aoc::day10::flood::{adjacent_coords, is_outside, is_outside_recursive, on_edge};
use aoc::day10::marks::Marks;
use aoc::day10::pipes::{adjacent_pipes, insert_pipe_coords, parse_input, part_one, part_two, start_coord, Grid, Position};

fn field(text: &str) -> Grid {
    parse_input(text).unwrap()
}

fn solve(text: &str) -> (Option<u32>, usize) {
    let grid = field(text);
    let rows = grid.len();
    let cols = grid[0].len();
    let mut marks = Marks::new(2 * rows, 2 * cols);
    let steps = part_one(&grid, &mut marks);
    (steps, part_two(&marks, rows, cols))
}

#[test]
fn day10_sample_answers() {
    assert_eq!(solve(".....\n.S-7.\n.|.|.\n.L-J.\n.....\n"), (Some(4), 1));
    assert_eq!(solve("..F7.\n.FJ|.\nSJ.L7\n|F--J\nLJ...\n"), (Some(8), 1));
    let wide = "...........
.S-------7.
.|F-----7|.
.||.....||.
.||.....||.
.|L-7.F-J|.
.|..|.|..|.
.L--J.L--J.
...........
";
    assert_eq!(solve(wide).1, 4);
    let squeezed = "..........
.S------7.
.|F----7|.
.||....||.
.||....||.
.|L-7F-J|.
.|..||..|.
.L--JL--J.
..........
";
    assert_eq!(solve(squeezed).1, 4);
}

#[test]
fn day10_loose_pipes_do_not_count() {
    let text = "-L|F7\n7S-7|\nL|7||\n-L-J|\nL|-JF\n";
    assert_eq!(solve(text), (Some(4), 1));
}

#[test]
fn day10_start_and_exits() {
    let grid = field(".....\n.S-7.\n.|.|.\n.L-J.\n.....\n");
    assert_eq!(start_coord(&grid), Some([1, 1]));
    let pair = Position::start_pair(&grid).unwrap();
    assert_eq!((pair[0].prev, pair[0].curr), ([1, 1], [2, 1]));
    assert_eq!((pair[1].prev, pair[1].curr), ([1, 1], [1, 2]));
    assert_eq!(start_coord(&field("..\n..\n")), None);
    assert!(Position::start_pair(&field("..\n..\n")).is_none());
    // one pipe only joins the start
    assert!(Position::start_pair(&field("S-\n..\n")).is_none());
    // three pipes join the start
    assert!(Position::start_pair(&field(".|.\n-S-\n...\n")).is_none());
    // the first of two starts counts
    assert_eq!(start_coord(&field(".S\nS.\n")), Some([0, 1]));
}

#[test]
fn day10_pipe_ends() {
    let grid = field("...\n.|.\n...\n");
    assert_eq!(adjacent_pipes(&grid, [1, 1]), Some([[0, 1], [2, 1]]));
    for (tile, want) in [
        ('-', [[1, 0], [1, 2]]),
        ('L', [[0, 1], [1, 2]]),
        ('J', [[0, 1], [1, 0]]),
        ('7', [[2, 1], [1, 0]]),
        ('F', [[2, 1], [1, 2]]),
    ] {
        let grid = field(&format!("...\n.{}.\n...\n", tile));
        assert_eq!(adjacent_pipes(&grid, [1, 1]), Some(want));
    }
    assert_eq!(adjacent_pipes(&grid, [0, 0]), None);
    assert_eq!(adjacent_pipes(&field("S"), [0, 0]), None);
    // a pipe that leads off the field
    assert_eq!(adjacent_pipes(&field("|..\n...\n"), [0, 0]), None);
    assert_eq!(adjacent_pipes(&field("..\n.F\n"), [1, 1]), None);
}

#[test]
fn day10_walker_steps() {
    let grid = field(".....\n.S-7.\n.|.|.\n.L-J.\n.....\n");
    let mut p = Position { prev: [1, 1], curr: [1, 2] };
    assert!(p.increment(&grid));
    assert_eq!((p.prev, p.curr), ([1, 2], [1, 3]));
    assert!(p.increment(&grid));
    assert_eq!((p.prev, p.curr), ([1, 3], [2, 3]));
    let mut lost = Position { prev: [0, 0], curr: [0, 1] };
    assert!(!lost.increment(&grid));
    assert_eq!((lost.prev, lost.curr), ([0, 0], [0, 1]));
}

#[test]
fn day10_broken_loops() {
    // the pipes from the start lead to ground
    assert_eq!(solve("S-.\n|..\n...\n").0, None);
    // walkers meet wherever their pipes lead them to the same tile
    assert_eq!(solve("S7.\nL..\n...\n").0, Some(2));
    // two walkers that never meet
    let grid = field("F-7.\n|.|.\nS.|.\n|.|.\n");
    let mut marks = Marks::new(8, 8);
    assert_eq!(part_one(&grid, &mut marks), None);
}

#[test]
fn day10_marks_at_twice_the_size() {
    let mut marks = Marks::new(6, 6);
    insert_pipe_coords(&Position { prev: [1, 1], curr: [1, 2] }, &mut marks);
    let set: Vec<(usize, usize)> =
        (0..6).flat_map(|r| (0..6).map(move |c| (r, c))).filter(|&(r, c)| marks.get(r, c)).collect();
    assert_eq!(set, vec![(2, 3), (2, 4)]);
    insert_pipe_coords(&Position { prev: [2, 2], curr: [1, 2] }, &mut marks);
    assert!(marks.get(3, 4));
    marks.set(0, 0);
    assert!(marks.get(0, 0));
    assert!(!marks.get(5, 5));
}

#[test]
fn day10_flood_from_the_edge() {
    // a ring of marks around the middle cell
    let mut ring = Marks::new(5, 5);
    for (r, c) in [(1, 1), (1, 2), (1, 3), (2, 1), (2, 3), (3, 1), (3, 2), (3, 3)] {
        ring.set(r, c);
    }
    assert!(!is_outside(&[2, 2], &ring));
    assert!(is_outside(&[0, 0], &ring));
    assert!(is_outside(&[4, 4], &ring));
    assert!(!is_outside(&[1, 1], &ring));
    let mut visited = Marks::new(5, 5);
    assert!(!is_outside_recursive([2, 2], &ring, &mut visited));
    assert!(visited.get(2, 2));
    assert!(!visited.get(0, 0));
    // only the first row and the first column are the edge
    let mut wall = Marks::new(3, 3);
    for (r, c) in [(1, 0), (1, 1), (1, 2), (0, 1), (2, 1)] {
        wall.set(r, c);
    }
    assert!(!is_outside(&[2, 2], &wall));
    assert!(is_outside(&[2, 0], &wall));
    assert!(is_outside(&[0, 2], &wall));
    assert!(on_edge([0, 3], 5, 5));
    assert!(on_edge([3, 0], 5, 5));
    assert!(on_edge([5, 3], 5, 5));
    assert!(!on_edge([4, 4], 5, 5));
}

#[test]
fn day10_neighbours_in_order() {
    assert_eq!(adjacent_coords([1, 1], 3, 3), vec![[0, 1], [2, 1], [1, 2], [1, 0]]);
    assert_eq!(adjacent_coords([0, 0], 3, 3), vec![[1, 0], [0, 1]]);
    assert_eq!(adjacent_coords([2, 2], 3, 3), vec![[1, 2], [2, 1]]);
    assert_eq!(adjacent_coords([0, 0], 1, 1), Vec::<[usize; 2]>::new());
    assert_eq!(adjacent_coords([3, 1], 3, 3), vec![[2, 1]]);
}

#[test]
fn day10_text_is_read() {
    assert_eq!(field("ab\ncd\n"), vec![b"ab".to_vec(), b"cd".to_vec()]);
    assert!(parse_input("ab\nc\n").is_none());
    assert_eq!(parse_input("").unwrap().len(), 0);
}
