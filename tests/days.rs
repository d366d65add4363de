use aoc2020::day12::{self, Action, Ship, ShipWaypoint};
use aoc2020::day2;
use aoc2020::day25::{self, Encrypter};
use aoc2020::day4::{self, Passport};
use aoc2020::day5::{self, Seat};
use aoc2020::day8::{self, Computer, ExitMode, Operation};
use aoc2020::day9::{self, SlidingWindow, TotalWindow};

#[test]
fn passwords_by_count_and_position() {
    let input = "1-3 a: abcde\n1-3 b: cdefg\n2-9 c: ccccccccc\n";
    let list = day2::parser(input).unwrap();
    assert_eq!(list.len(), 3);
    assert_eq!(list[0].lower, 1);
    assert_eq!(list[0].upper, 3);
    assert_eq!(list[0].letter, b'a');
    assert_eq!(list[0].pass, b"abcde".to_vec());
    assert_eq!(day2::solve_part1(&list), 2);
    assert_eq!(day2::solve_part2(&list), 1);
}

#[test]
fn password_lines_must_be_well_formed() {
    assert!(day2::parser("1-3 a abcde\n").is_none());
    assert!(day2::parser("x-3 a: abcde\n").is_none());
}

#[test]
fn seats_decode() {
    let s = Seat::from_bytes(b"FBFBBFFRLR");
    assert_eq!((s.row, s.column, s.seat_id()), (44, 5, 357));
    let seats = day5::parser("BFFFBBFRRR\nFFFBBBFRRR\nBBFFBBFRLL\n").unwrap();
    let ids: Vec<u32> = seats.iter().map(|s| s.seat_id()).collect();
    assert_eq!(ids, vec![567, 119, 820]);
    assert_eq!(day5::solve_part1(&seats), 820);
    assert_eq!(day5::binary_fold((0, 127), &b'F'), (0, 63));
    assert_eq!(day5::binary_fold((0, 63), &b'B'), (32, 63));
    assert!(day5::parser("FBFBBFFRLX\n").is_none());
}

#[test]
fn free_seat_between_taken_ones() {
    let seats = vec![
        Seat { row: 1, column: 0 },
        Seat { row: 1, column: 1 },
        Seat { row: 1, column: 3 },
    ];
    assert_eq!(day5::solve_part2(&seats), Some(10));
    assert_eq!(day5::solve_part2(&seats[..2]), None);
}

const PROGRAM: &str = "nop +0\nacc +1\njmp +4\nacc +3\njmp -3\nacc -99\nacc +1\njmp -4\nacc +6\n";

#[test]
fn console_loops_then_repairs() {
    let ops = day8::parser(PROGRAM).unwrap();
    assert_eq!(ops.len(), 9);
    assert_eq!(ops[4], Operation::Jmp(-3));
    assert_eq!(day8::solve_part1(ops.clone()), Some(5));
    assert_eq!(day8::solve_part2(ops), Some(8));
}

#[test]
fn console_runs_and_resets() {
    let mut c = Computer::new(vec![Operation::Acc(2), Operation::Jmp(-1)]);
    assert_eq!(c.run(), ExitMode::InfiniteLoop);
    assert_eq!(c.accumulator, 2);
    c.reset();
    assert_eq!((c.cursor, c.accumulator), (0, 0));
    c.ops[1].toggle();
    assert_eq!(c.ops[1], Operation::Nop(-1));
    assert_eq!(c.run(), ExitMode::Complete);
    assert_eq!(c.accumulator, 2);
    assert!(day8::parser("add +1\n").is_none());
}

#[test]
fn ship_navigation() {
    let actions = day12::parser("F10\nN3\nF7\nR90\nF11\n").unwrap();
    assert_eq!(actions[3], Action::Right(90));
    assert_eq!(day12::solve_part1(&actions), Some(25));
    assert_eq!(day12::solve_part2(&actions), Some(286));
}

#[test]
fn ship_turns() {
    let mut s = Ship::new();
    s.act(Action::Left(90));
    assert_eq!(s.heading, (0, 1));
    s.act(Action::Forward(5));
    s.act(Action::Right(270));
    assert_eq!(s.heading, (-1, 0));
    s.act(Action::West(2));
    assert_eq!(s.position, (-2, 5));
    assert_eq!(s.distance(), 7);
    let mut w = ShipWaypoint::new();
    w.act(Action::Right(180));
    assert_eq!(w.waypoint, (-10, -1));
    w.act(Action::Forward(2));
    assert_eq!(w.distance(), 22);
    assert_eq!(day12::solve_part1(&[Action::East(i32::MAX), Action::East(1)]), None);
}

const PASSPORTS: &str = "ecl:gry pid:860033327 eyr:2020 hcl:#fffffd
byr:1937 iyr:2017 cid:147 hgt:183cm

iyr:2013 ecl:amb cid:350 eyr:2023 pid:028048884
hcl:#cfa07d byr:1929

hcl:#ae17e1 iyr:2013
eyr:2024
ecl:brn pid:760753108 byr:1931
hgt:179cm

hcl:#cfa07d eyr:2025 pid:166559648
iyr:2011 ecl:brn hgt:59in

";

#[test]
fn passports_present_fields() {
    let list = day4::parser(PASSPORTS).unwrap();
    assert_eq!(list.len(), 4);
    assert_eq!(day4::solve_part1(&list), 2);
    assert_eq!(day4::solve_part2(&list), 2);
}

#[test]
fn passport_field_rules() {
    let mut p = Passport::new();
    p.birth_year(2002);
    assert!(p.valid_birth_year());
    p.birth_year(2003);
    assert!(!p.valid_birth_year());
    for (h, ok) in [("60in", true), ("190cm", true), ("190in", false), ("190", false), ("+60in", true)] {
        p.height(h.as_bytes().to_vec());
        assert_eq!(p.valid_height(), ok, "{}", h);
    }
    for (c, ok) in [("#123abc", true), ("#123abz", false), ("123abc", false)] {
        p.hair_color(c.as_bytes().to_vec());
        assert_eq!(p.valid_hair_color(), ok, "{}", c);
    }
    for (c, ok) in [("brn", true), ("wat", false), ("brnn", false)] {
        p.eye_color(c.as_bytes().to_vec());
        assert_eq!(p.valid_eye_color(), ok, "{}", c);
    }
    for (c, ok) in [("000000001", true), ("0123456789", false)] {
        p.passport_id(c.as_bytes().to_vec());
        assert_eq!(p.valid_passport_id(), ok, "{}", c);
    }
    p.issue_year(2015);
    p.expiration_year(2025);
    p.country_id(b"1".to_vec());
    p.passport_id(b"000000001".to_vec());
    p.eye_color(b"brn".to_vec());
    p.hair_color(b"#123abc".to_vec());
    p.height(b"60in".to_vec());
    p.birth_year(1990);
    assert!(p.is_valid_primitive());
    assert!(p.is_valid_advanced());
    assert!(day4::parser("xyz:1\n\n").is_none());
}

const XMAS: [u64; 20] = [
    35, 20, 15, 25, 47, 40, 62, 55, 65, 95, 102, 117, 150, 182, 127, 219, 299, 277, 309, 576,
];

#[test]
fn cipher_first_invalid_and_weakness() {
    assert_eq!(day9::first_invalid(&XMAS, 5), Some(127));
    assert_eq!(day9::weakness(&XMAS, 127), Some(62));
    let parsed = day9::parser("35\n20\n15\n").unwrap();
    assert_eq!(parsed, vec![35, 20, 15]);
}

#[test]
fn cipher_windows() {
    let mut w = SlidingWindow::new(2);
    w.add(3);
    assert!(!w.is_full());
    w.add(4);
    assert!(w.is_full());
    assert!(w.is_two_sum(7));
    assert!(w.is_two_sum(6));
    assert!(!w.is_two_sum(5));
    w.add(5);
    assert_eq!(w.numbers, vec![4, 5]);
    assert!(!w.is_two_sum(7));
    let mut t = TotalWindow::new();
    t.add(4);
    t.add(9);
    t.add(1);
    assert_eq!(t.total, 14);
    t.bump();
    assert_eq!(t.total, 10);
    assert_eq!(t.min_max(), (1, 9));
    let input: Vec<u64> = (1..=25).chain([49, 100]).collect();
    assert_eq!(day9::solve_part1(&input), Some(100));
}

#[test]
fn handshake_key() {
    assert_eq!(Encrypter::new(7).detect_count(5764801), Some(8));
    assert_eq!(Encrypter::new(7).detect_count(17807724), Some(11));
    assert_eq!(Encrypter::new(17807724).transform(8), 14897079);
    assert_eq!(day25::solve_part1("5764801\n17807724\n"), Some(14897079));
    assert_eq!(Encrypter::new(20201227 + 5).subject, 5);
    assert_eq!(Encrypter::new(0).detect_count(1), None);
}
