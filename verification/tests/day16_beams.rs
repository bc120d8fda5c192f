use aoc::day16::{energized, fresh_copy, parse_input, part_one, part_two, propogate, Dir, Grid, Position, Tile, TileType};

const SAMPLE: &str = r".|...\....
|.-.\.....
.....|-...
........|.
..........
.........\
..../.\\..
.-.-/..|..
.|....-|.\
..//.|....
";

#[test]
fn day16_sample_answers() {
    let grid = parse_input(SAMPLE).unwrap();
    assert_eq!(part_one(grid.clone()), 46);
    assert_eq!(part_two(grid), Some(51));
}

#[test]
fn day16_text_is_read() {
    let grid = parse_input("./\\\n-|x\n").unwrap();
    let kinds: Vec<Vec<TileType>> = grid.tiles.iter().map(|r| r.iter().map(|t| t.ty).collect()).collect();
    assert_eq!(
        kinds,
        vec![
            vec![TileType::Empty, TileType::MirrorFS, TileType::MirrorBS],
            vec![TileType::SplitH, TileType::SplitV, TileType::Empty]
        ]
    );
    assert!(grid.tiles.iter().flatten().all(|t| t.visited_bitmask == 0));
    assert!(parse_input("..\n.\n").is_none());
    assert_eq!(parse_input("").unwrap().tiles.len(), 0);
}

fn at(row: usize, col: usize, dir: Dir) -> Position {
    Position { row, col, dir }
}

#[test]
fn day16_beam_steps_stay_on_the_grid() {
    let grid = parse_input("...\n...\n").unwrap();
    assert_eq!(at(0, 0, Dir::Up).next(&grid), None);
    assert_eq!(at(0, 0, Dir::Left).next(&grid), None);
    assert_eq!(at(0, 0, Dir::Down).next(&grid), Some(at(1, 0, Dir::Down)));
    assert_eq!(at(0, 0, Dir::Right).next(&grid), Some(at(0, 1, Dir::Right)));
    assert_eq!(at(1, 2, Dir::Down).next(&grid), None);
    assert_eq!(at(1, 2, Dir::Right).next(&grid), None);
    assert_eq!(at(1, 2, Dir::Up).next(&grid), Some(at(0, 2, Dir::Up)));
    assert_eq!(at(1, 2, Dir::Left).next(&grid), Some(at(1, 1, Dir::Left)));
}

#[test]
fn day16_mirrors_turn_the_beam() {
    let p = |dir| at(3, 4, dir);
    assert_eq!(p(Dir::Up).reflect(TileType::MirrorFS), p(Dir::Right));
    assert_eq!(p(Dir::Down).reflect(TileType::MirrorFS), p(Dir::Left));
    assert_eq!(p(Dir::Left).reflect(TileType::MirrorFS), p(Dir::Down));
    assert_eq!(p(Dir::Right).reflect(TileType::MirrorFS), p(Dir::Up));
    assert_eq!(p(Dir::Up).reflect(TileType::MirrorBS), p(Dir::Left));
    assert_eq!(p(Dir::Down).reflect(TileType::MirrorBS), p(Dir::Right));
    assert_eq!(p(Dir::Left).reflect(TileType::MirrorBS), p(Dir::Up));
    assert_eq!(p(Dir::Right).reflect(TileType::MirrorBS), p(Dir::Down));
}

fn masks(grid: &Grid) -> Vec<Vec<u8>> {
    grid.tiles.iter().map(|r| r.iter().map(|t| t.visited_bitmask).collect()).collect()
}

#[test]
fn day16_propagation_notes_headings() {
    let mut grid = parse_input(".-.\n...\n").unwrap();
    propogate(&mut grid, &at(1, 1, Dir::Up));
    // up from the middle of the lower row, split left and right in the upper row
    assert_eq!(masks(&grid), vec![vec![4, 1, 8], vec![0, 1, 0]]);
    // a second beam stops where the first has been with the same heading
    propogate(&mut grid, &at(0, 0, Dir::Right));
    assert_eq!(masks(&grid), vec![vec![4 | 8, 1 | 8, 8], vec![0, 1, 0]]);
    let copy = fresh_copy(&grid);
    assert_eq!(masks(&copy), vec![vec![0, 0, 0], vec![0, 0, 0]]);
    assert_eq!(copy.tiles[0][1].ty, TileType::SplitH);
}

#[test]
fn day16_loops_end() {
    let grid = parse_input("/-\\\n|.|\n\\-/\n").unwrap();
    assert_eq!(energized(&grid, at(0, 1, Dir::Right)), 8);
    // from the middle the beam passes the middle tile too
    assert_eq!(energized(&grid, at(1, 1, Dir::Right)), 9);
    assert_eq!(energized(&grid, at(1, 1, Dir::Down)), 9);
    assert_eq!(part_two(grid), Some(8));
}

#[test]
fn day16_beam_outside_lights_nothing() {
    let grid = parse_input("..\n..\n").unwrap();
    assert_eq!(energized(&grid, at(2, 0, Dir::Up)), 0);
    assert_eq!(energized(&grid, at(0, 2, Dir::Left)), 0);
    assert_eq!(energized(&grid, at(0, 0, Dir::Right)), 2);
    let empty = Grid { tiles: vec![] };
    assert_eq!(part_one(empty.clone()), 0);
    assert_eq!(part_two(empty), None);
    assert_eq!(part_two(Grid { tiles: vec![vec![], vec![]] }), None);
    let one = Grid { tiles: vec![vec![Tile { ty: TileType::Empty, visited_bitmask: 0 }]] };
    assert_eq!(part_two(one), Some(1));
}

#[test]
fn day16_part_one_ignores_earlier_marks() {
    let mut grid = parse_input("..\n..\n").unwrap();
    propogate(&mut grid, &at(1, 0, Dir::Right));
    assert_eq!(part_one(grid), 2);
}
