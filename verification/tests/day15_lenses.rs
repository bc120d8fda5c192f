use aoc::day15::{apply_step, focusing_power, hash, part_one, part_two, Slot};

const SAMPLE: &str = "rn=1,cm-,qp=3,cm=2,qp-,pc=4,ot=9,ab=5,pc-,pc=6,ot=7\n";

#[test]
fn day15_sample_answers() {
    assert_eq!(part_one(SAMPLE), Some(1320));
    assert_eq!(part_two(SAMPLE), Some(145));
}

#[test]
fn day15_hash_values() {
    assert_eq!(hash(b"HASH"), 52);
    assert_eq!(hash(b""), 0);
    assert_eq!(hash(b"rn=1"), 30);
    assert_eq!(hash(b"rn"), 0);
    assert_eq!(hash(b"qp"), 1);
    assert_eq!(hash(b"pc"), 3);
}

fn labels(b: &Vec<Slot>) -> Vec<(String, u32)> {
    b.iter().map(|s| (String::from_utf8(s.label.clone()).unwrap(), s.focal_length)).collect()
}

fn shelf() -> Vec<Vec<Slot>> {
    (0..256).map(|_| Vec::new()).collect()
}

#[test]
fn day15_steps_change_one_box() {
    let mut boxes = shelf();
    for step in ["rn=1", "cm-", "qp=3", "cm=2"] {
        assert!(apply_step(&mut boxes, step.as_bytes()));
    }
    assert_eq!(labels(&boxes[0]), vec![("rn".to_string(), 1), ("cm".to_string(), 2)]);
    assert_eq!(labels(&boxes[1]), vec![("qp".to_string(), 3)]);
    assert!(apply_step(&mut boxes, b"rn=7"));
    assert_eq!(labels(&boxes[0]), vec![("rn".to_string(), 7), ("cm".to_string(), 2)]);
    assert!(apply_step(&mut boxes, b"rn-"));
    assert_eq!(labels(&boxes[0]), vec![("cm".to_string(), 2)]);
    assert!(apply_step(&mut boxes, b"zz-"));
    assert_eq!(labels(&boxes[0]), vec![("cm".to_string(), 2)]);
}

#[test]
fn day15_unreadable_steps() {
    let mut boxes = shelf();
    assert!(!apply_step(&mut boxes, b""));
    assert!(!apply_step(&mut boxes, b"x"));
    assert!(!apply_step(&mut boxes, b"rn=x"));
    assert!(boxes.iter().all(|b| b.is_empty()));
    assert_eq!(part_two("rn=1,oops"), None);
    assert_eq!(part_two(""), None);
}

#[test]
fn day15_power_weighs_box_and_place() {
    let mut boxes = shelf();
    boxes[0].push(Slot { label: b"rn".to_vec(), focal_length: 1 });
    boxes[0].push(Slot { label: b"cm".to_vec(), focal_length: 2 });
    boxes[3].push(Slot { label: b"ot".to_vec(), focal_length: 7 });
    boxes[3].push(Slot { label: b"ab".to_vec(), focal_length: 5 });
    boxes[3].push(Slot { label: b"pc".to_vec(), focal_length: 6 });
    assert_eq!(focusing_power(&boxes), Some(1 + 4 + 28 + 40 + 72));
    assert_eq!(focusing_power(&shelf()), Some(0));
    let mut heavy = shelf();
    heavy[255].push(Slot { label: b"a".to_vec(), focal_length: u32::MAX / 256 });
    assert_eq!(focusing_power(&heavy), Some(u32::MAX / 256 * 256));
    heavy[255].push(Slot { label: b"b".to_vec(), focal_length: 1 });
    assert_eq!(focusing_power(&heavy), None);
}

#[test]
fn day15_steps_are_trimmed() {
    assert_eq!(part_one("rn=1, cm-\n"), Some(30 + 253));
    assert_eq!(hash(b"cm-"), 253);
}
