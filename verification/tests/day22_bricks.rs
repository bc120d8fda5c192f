use aoc::day22::{is_blocked, is_safe, parse_input, part_one, part_two, read_brick, settle, Brick, Vec3};

const SAMPLE: &str = "1,0,1~1,2,1
0,0,2~2,0,2
0,2,3~2,2,3
0,0,4~0,2,4
2,0,5~2,2,5
0,1,6~2,1,6
1,1,8~1,1,9
";

#[test]
fn day22_sample_answers() {
    let mut bricks = parse_input(SAMPLE).unwrap();
    assert_eq!(part_one(&mut bricks), 5);
    assert_eq!(part_two(&bricks), Some(7));
}

fn brick(x: u16, y: u16, z: u16, dx: u16, dy: u16, dz: u16) -> Brick {
    Brick { pos: Vec3 { x, y, z }, dim: Vec3 { x: dx, y: dy, z: dz } }
}

#[test]
fn day22_bricks_are_read() {
    assert_eq!(read_brick(b"1,0,1~1,2,1"), Some(brick(1, 0, 1, 1, 3, 1)));
    assert_eq!(read_brick(b"1,1,8~1,1,9"), Some(brick(1, 1, 8, 1, 1, 2)));
    assert_eq!(read_brick(b"1,1,8~1,1,9,77"), Some(brick(1, 1, 8, 1, 1, 2)));
    assert_eq!(read_brick(b"1,1,8"), None);
    assert_eq!(read_brick(b"1,1~1,1,9"), None);
    assert_eq!(read_brick(b"1,1,9~1,1,8"), None);
    assert_eq!(read_brick(b"1,1,0~1,1,8"), None);
    assert_eq!(read_brick(b"1,1,x~1,1,8"), None);
    assert_eq!(read_brick(b"0,0,1~65535,0,1"), None);
    assert_eq!(read_brick(b"0,0,1~65534,0,1"), Some(brick(0, 0, 1, 65535, 1, 1)));
    assert_eq!(read_brick(b"1,1,8~1,1,9~2"), None);
    assert!(parse_input("1,0,1~1,2,1\nbad\n").is_none());
    assert_eq!(parse_input("").unwrap().len(), 0);
}

#[test]
fn day22_lowering_and_touching() {
    assert_eq!(brick(0, 0, 1, 1, 1, 1).lowered(), None);
    assert_eq!(brick(0, 0, 5, 1, 1, 1).lowered(), Some(brick(0, 0, 4, 1, 1, 1)));
    let a = brick(0, 0, 1, 3, 1, 1);
    assert!(a.collides(&brick(2, 0, 1, 1, 1, 1)));
    assert!(!a.collides(&brick(3, 0, 1, 1, 1, 1)));
    assert!(!a.collides(&brick(2, 1, 1, 1, 1, 1)));
    assert!(!a.collides(&brick(2, 0, 2, 1, 1, 1)));
    assert!(a.collides(&a));
    // sums that pass the largest u16
    let far = brick(65535, 65535, 65535, 65535, 65535, 65535);
    assert!(far.collides(&far));
    assert!(!far.collides(&a));
}

#[test]
fn day22_settle_counts_moved_bricks() {
    let mut bricks = vec![brick(0, 0, 5, 1, 1, 1), brick(0, 0, 9, 1, 1, 2), brick(5, 5, 1, 1, 1, 1)];
    assert_eq!(settle(&mut bricks), 2);
    assert_eq!(bricks, vec![brick(0, 0, 1, 1, 1, 1), brick(0, 0, 2, 1, 1, 2), brick(5, 5, 1, 1, 1, 1)]);
    assert_eq!(settle(&mut bricks), 0);
    let mut none: Vec<Brick> = vec![];
    assert_eq!(settle(&mut none), 0);
}

#[test]
fn day22_supports() {
    let bricks = vec![brick(0, 0, 1, 2, 1, 1), brick(0, 0, 2, 1, 1, 1), brick(1, 0, 2, 1, 1, 1), brick(0, 0, 3, 2, 1, 1)];
    // the lowest carries both bricks above it, each of which alone could carry the top
    assert!(!is_safe(&bricks, 0));
    assert!(is_safe(&bricks, 1));
    assert!(is_safe(&bricks, 2));
    assert!(is_safe(&bricks, 3));
    assert!(is_blocked(&bricks, &brick(0, 0, 2, 2, 1, 1), 3, None));
    assert!(is_blocked(&bricks, &brick(0, 0, 2, 2, 1, 1), 3, Some(1)));
    assert!(!is_blocked(&bricks, &brick(0, 0, 2, 1, 1, 1), 3, Some(1)));
    assert!(!is_blocked(&bricks, &brick(0, 0, 1, 2, 1, 1), 0, None));
    let mut copy = bricks.clone();
    assert_eq!(part_one(&mut copy), 3);
    assert_eq!(copy, bricks);
    assert_eq!(part_two(&bricks), Some(3));
}
