use aoc::day14::spin::{parse_input, part_two};
use aoc::day14::{cycle, part_one, roll, roll_east, roll_north, roll_south, roll_west, total_load, Coord, Grid, Tilt};

const SAMPLE: &str = "O....#....
O.OO#....#
.....##...
OO.#O....O
.O.....O#.
O.#..O.#.#
..O..#O..O
.......O..
#....###..
#OO..#....
";

fn show(grid: &Grid, rocks: &Vec<Coord>) -> Vec<String> {
    grid.iter()
        .enumerate()
        .map(|(r, row)| {
            row.iter()
                .enumerate()
                .map(|(c, &t)| if rocks.contains(&[r, c]) { 'O' } else if t { '#' } else { '.' })
                .collect()
        })
        .collect()
}

#[test]
fn day14_sample_answers() {
    let (mut grid, mut rocks) = parse_input(SAMPLE).unwrap();
    assert_eq!(part_one(&mut grid, &mut rocks), Some(136));
    let (mut grid, mut rocks) = parse_input(SAMPLE).unwrap();
    assert_eq!(part_two(&mut grid, &mut rocks), Some(64));
}

#[test]
fn day14_tilt_north() {
    let (mut grid, mut rocks) = parse_input(SAMPLE).unwrap();
    roll_north(&mut grid, &mut rocks);
    assert_eq!(
        show(&grid, &rocks),
        vec![
            "OOOO.#.O..",
            "OO..#....#",
            "OO..O##..O",
            "O..#.OO...",
            "........#.",
            "..#....#.#",
            "..O..#.O.O",
            "..O.......",
            "#....###..",
            "#....#....",
        ]
    );
}

#[test]
fn day14_spins() {
    let (mut grid, mut rocks) = parse_input(SAMPLE).unwrap();
    cycle(&mut grid, &mut rocks);
    assert_eq!(
        show(&grid, &rocks),
        vec![
            ".....#....",
            "....#...O#",
            "...OO##...",
            ".OO#......",
            ".....OOO#.",
            ".O#...O#.#",
            "....O#....",
            "......OOOO",
            "#...O###..",
            "#..OO#....",
        ]
    );
    cycle(&mut grid, &mut rocks);
    cycle(&mut grid, &mut rocks);
    assert_eq!(
        show(&grid, &rocks),
        vec![
            ".....#....",
            "....#...O#",
            ".....##...",
            "..O#......",
            ".....OOO#.",
            ".O#...O#.#",
            "....O#...O",
            ".......OOO",
            "#...O###.O",
            "#.OOO#...O",
        ]
    );
}

#[test]
fn day14_each_side() {
    let text = "...\n.O.\n...\n";
    for (tilt, want) in [(Tilt::North, [0, 1]), (Tilt::South, [2, 1]), (Tilt::West, [1, 0]), (Tilt::East, [1, 2])] {
        let (mut grid, mut rocks) = parse_input(text).unwrap();
        roll(tilt, &mut grid, &mut rocks);
        assert_eq!(rocks, vec![want]);
        assert!(grid[want[0]][want[1]]);
        assert!(!grid[1][1]);
    }
    let (mut grid, mut rocks) = parse_input("O#O.O\n").unwrap();
    roll_west(&mut grid, &mut rocks);
    assert_eq!(show(&grid, &rocks), vec!["O#OO."]);
    roll_east(&mut grid, &mut rocks);
    assert_eq!(show(&grid, &rocks), vec!["O#.OO"]);
    let (mut grid, mut rocks) = parse_input("O\n.\n#\nO\n.\n").unwrap();
    roll_south(&mut grid, &mut rocks);
    assert_eq!(show(&grid, &rocks), vec![".", "O", "#", ".", "O"]);
}

#[test]
fn day14_load_counts_rows_to_the_south() {
    assert_eq!(total_load(&vec![[0, 0], [0, 5], [9, 3]], 10), Some(10 + 10 + 1));
    assert_eq!(total_load(&vec![], 10), Some(0));
    assert_eq!(total_load(&vec![[0, 0], [0, 1]], usize::MAX), None);
    assert_eq!(total_load(&vec![[0, 0], [usize::MAX - 1, 1]], usize::MAX), None);
    assert_eq!(total_load(&vec![[1, 0], [usize::MAX - 1, 1]], usize::MAX), Some(usize::MAX));
}

#[test]
fn day14_text_is_read() {
    let (grid, rocks) = parse_input("O.#\n.O.\n").unwrap();
    assert_eq!(grid, vec![vec![true, false, true], vec![false, true, false]]);
    assert_eq!(rocks, vec![[0, 0], [1, 1]]);
    assert!(parse_input("O.#\n.O\n").is_none());
    let (grid, rocks) = parse_input("").unwrap();
    assert!(grid.is_empty() && rocks.is_empty());
    let (mut grid, mut rocks) = parse_input("").unwrap();
    assert_eq!(part_two(&mut grid, &mut rocks), Some(0));
}
