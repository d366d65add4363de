use aoc2020::{day1, day10, day3};

#[test]
fn expense_pairs_and_triples() {
    let input = day1::parser("1721\n979\n366\n299\n675\n1456\n").unwrap();
    assert_eq!(input, vec![1721, 979, 366, 299, 675, 1456]);
    assert_eq!(day1::solve_part1(&input), Some(514579));
    assert_eq!(day1::solve_part2(&input), Some(241861950));
    assert_eq!(day1::solve_part1(&[1, 2, 3]), None);
    assert!(day1::parser("12\nx\n").is_none());
}

const SLOPES: &str = "..##.......
#...#...#..
.#....#..#.
..#.#...#.#
.#...##..#.
..#.##.....
.#.#.#....#
.#........#
#.##...#...
#...##....#
.#..#...#.#";

#[test]
fn toboggan_trees() {
    let map = day3::parser(SLOPES);
    assert_eq!(map.len(), 11);
    assert!(!map[0][0] && map[0][2]);
    assert_eq!(day3::solve_part1(&map), 7);
    assert_eq!(day3::find_trees((1, 2), &map), 2);
    assert_eq!(day3::solve_part2(&map), Some(336));
}

#[test]
fn adapter_chain() {
    let adapters = day10::parser("16\n10\n15\n5\n1\n11\n7\n19\n6\n12\n4\n").unwrap();
    assert_eq!(adapters, vec![0, 1, 4, 5, 6, 7, 10, 11, 12, 15, 16, 19]);
    assert_eq!(day10::solve_part1(&adapters), Some(35));
    assert_eq!(day10::solve_part2(&adapters), Some(8));
    assert_eq!(day10::count_possibilities(&adapters, 11), Some(1));
    let mut v = vec![5, 3, 9, 1, 3];
    day10::sort_values(&mut v);
    assert_eq!(v, vec![1, 3, 3, 5, 9]);
}

use aoc2020::day11::{self, Lobby, Spot};
use aoc2020::day13;

const SEATS: &str = "L.LL.LL.LL
LLLLLLL.LL
L.L.L..L..
LLLL.LL.LL
L.LL.LL.LL
L.LLLLL.LL
..L.L.....
LLLLLLLLLL
L.LLLLLL.L
L.LLLLL.LL
";

#[test]
fn seating_settles() {
    let lobby = day11::parser(SEATS.trim_end()).unwrap();
    assert_eq!(lobby.layout.len(), 10);
    assert_eq!(lobby.layout[0][1], Spot::Floor);
    assert_eq!(day11::solve_part1(&lobby), Some(37));
    assert_eq!(day11::solve_part2(&lobby), Some(26));
    assert!(day11::parser("L?L").is_none());
}

#[test]
fn seating_counts() {
    let lobby = Lobby {
        layout: vec![
            vec![Spot::Occupied, Spot::Floor, Spot::Occupied],
            vec![Spot::Empty, Spot::Occupied, Spot::Floor],
        ],
    };
    assert_eq!(lobby.count_surrounding(0, 1), 3);
    assert_eq!(lobby.count_surrounding(1, 0), 2);
    assert_eq!(lobby.visible_direction(1, 2, (-1, 0)), 1);
    assert_eq!(lobby.visible_direction(0, 0, (0, 1)), 1);
    assert_eq!(lobby.visible_direction(0, 0, (1, 0)), 0);
    assert_eq!(lobby.count_visible(1, 2), 2);
    assert_eq!(lobby.count_occupied(), 3);
    let next = lobby.step();
    assert_eq!(next.layout[1][0], Spot::Empty);
    assert!(next.same_layout(&lobby));
    let next2 = lobby.step_part2();
    assert_eq!(next2.layout[0][0], Spot::Occupied);
}

#[test]
fn shuttle_buses() {
    let notes = day13::parser("939\n7,13,x,x,59,x,31,19\n").unwrap();
    assert_eq!(notes, (939, vec![7, 13, 59, 31, 19]));
    assert_eq!(day13::solve_part1(&notes), Some(295));
    let offsets = day13::parser_part2("939\n7,13,x,x,59,x,31,19\n").unwrap();
    assert_eq!(offsets[2], None);
    assert_eq!(day13::solve_part2(&offsets), Some(1068781));
    let small = day13::parser_part2("0\n17,x,13,19").unwrap();
    assert_eq!(day13::solve_part2(&small), Some(3417));
}

use aoc2020::day15::{self, Game};

#[test]
fn memory_game() {
    let mut game = Game::new("0,3,6").unwrap();
    assert_eq!((game.last, game.round), (6, 3));
    let mut spoken = Vec::new();
    for _ in 0..7 {
        game.step();
        spoken.push(game.last);
    }
    assert_eq!(spoken, vec![0, 3, 3, 1, 0, 4, 0]);
    assert_eq!(day15::solve_part1("0,3,6"), Some(436));
    assert_eq!(day15::solve_part1("1,3,2\n"), Some(1));
    assert!(Game::new("1,x").is_none());
    assert!(Game::new("").is_none());
}

use aoc2020::day24::{self, Direction, Tile};

#[test]
fn hex_tiles_flip() {
    assert_eq!(day24::solve_part1("esew\nnwwswee\nesew\n"), Some(1));
    assert_eq!(day24::solve_part1("e\nw\nee\n"), Some(3));
    assert_eq!(day24::solve_part1("ex\n"), None);
    let steps = day24::directions(&b"nwwswee".to_vec()).unwrap();
    assert_eq!(steps[0], Direction::NorthWest);
    assert_eq!(steps.len(), 5);
    let mut t = Tile::new();
    for d in steps {
        t.shift(d);
    }
    assert_eq!(t.position, (0, 0));
    assert_eq!(day24::single_direction(&b"se".to_vec(), 0), Some((Direction::SouthEast, 2)));
}

use aoc2020::day22;

#[test]
fn crab_combat() {
    let input = "Player 1:\n9\n2\n6\n3\n1\n\nPlayer 2:\n5\n8\n4\n7\n10\n";
    let mut game = day22::parser(input).unwrap();
    assert_eq!(game.player_1.deck, vec![9, 2, 6, 3, 1]);
    game.round();
    assert_eq!(game.player_1.deck, vec![2, 6, 3, 1, 9, 5]);
    assert_eq!(game.player_2.deck, vec![8, 4, 7, 10]);
    assert_eq!(day22::solve_part1(input), Some(306));
    assert_eq!(day22::score(&vec![3, 2, 10, 6, 8, 5, 9, 4, 7, 1]), Some(306));
    assert!(day22::parser("Player 1:\n9\n").is_none());
}

use aoc2020::day14::{self, BitMask};

#[test]
fn docking_masks() {
    let input = "mask = XXXXXXXXXXXXXXXXXXXXXXXXXXXXX1XXXX0X\nmem[8] = 11\nmem[7] = 101\nmem[8] = 0\n";
    assert_eq!(day14::solve_part1(input), Some(165));
    let m = BitMask::from_text(&b"XXXXXXXXXXXXXXXXXXXXXXXXXXXXX1XXXX0X".to_vec()).unwrap();
    assert_eq!(m.apply(11), 73);
    assert_eq!(m.apply(101), 101);
    assert_eq!(m.apply(0), 64);
    assert_eq!(BitMask::new().apply(12345), 12345);
    assert!(BitMask::from_text(&b"X2".to_vec()).is_none());
    assert_eq!(day14::solve_part1("mem[1] = 2\nfoo\n"), None);
}

use aoc2020::day18::{self, Expr};

#[test]
fn operation_order() {
    assert_eq!(day18::solve_part1("1 + 2 * 3 + 4 * 5 + 6"), Some(71));
    assert_eq!(day18::solve_part1("1 + (2 * 3) + (4 * (5 + 6))"), Some(51));
    assert_eq!(day18::solve_part1("((2 + 4 * 9) * (6 + 9 * 8 + 6) + 6) + 2 + 4 * 2"), Some(13632));
    assert_eq!(day18::solve_part2("1 + 2 * 3 + 4 * 5 + 6"), Some(231));
    assert_eq!(day18::solve_part2("5 + (8 * 3 + 9 + 3 * 4 * 3)"), Some(1445));
    assert_eq!(day18::solve_part2("((2 + 4 * 9) * (6 + 9 * 8 + 6) + 6) + 2 + 4 * 2"), Some(23340));
    assert_eq!(day18::solve_part1("2 * 3\n4 + 5\n"), Some(15));
    assert_eq!(day18::solve_part1("2 +"), None);
    let e = Expr::Product(Box::new(Expr::Value(u64::MAX)), Box::new(Expr::Value(2)));
    assert_eq!(e.value(), None);
    assert_eq!(day18::parse_line(&b"(1 + 2)".to_vec(), false).unwrap().value(), Some(3));
}

use aoc2020::day6;

#[test]
fn customs_groups() {
    let input = "abc\n\na\nb\nc\n\nab\nac\n\na\na\na\na\n\nb\n";
    assert_eq!(day6::solve_part1(input), Some(11));
    assert_eq!(day6::solve_part2(input), Some(6));
    let groups = day6::groups("ab\nc\n\nd");
    assert_eq!(groups.len(), 2);
    assert_eq!(groups[0], vec![b"ab".to_vec(), b"c".to_vec()]);
    assert_eq!(day6::group_count(&groups[0], false), Some(3));
    assert_eq!(day6::group_count(&groups[0], true), Some(0));
}

use aoc2020::day24::Floor;

#[test]
fn hex_floor_flips_and_neighbours() {
    let mut floor = Floor::new();
    floor.flip_tile((2, 0));
    floor.flip_tile((1, 1));
    floor.flip_tile((5, -3));
    assert_eq!(floor.black_tiles.len(), 3);
    assert_eq!(floor.x_bounds, (0, 5));
    assert_eq!(floor.y_bounds, (-3, 1));
    assert_eq!(floor.black_adjacent((0, 0)), 2);
    assert_eq!(floor.black_adjacent((3, 1)), 2);
    floor.flip_tile((1, 1));
    assert_eq!(floor.black_tiles.len(), 2);
    assert_eq!(floor.black_adjacent((0, 0)), 1);
    assert_eq!(day24::neighbors((0, 0)).len(), 6);
}

const HEX_PATHS: &str = "sesenwnenenewseeswwswswwnenewsewsw
neeenesenwnwwswnenewnwwsewnenwseswesw
seswneswswsenwwnwse
nwnwneseeswswnenewneswwnewseswneseene
swweswneswnenwsewnwneneseenw
eesenwseswswnenwswnwnwsewwnwsene
sewnenenenesenwsewnenwwwse
wenwwweseeeweswwwnwwe
wsweesenenewnwwnwsenewsenwwsesesenwne
neeswseenwwswnwswswnw
nenwswwsewswnenenewsenwsenwnesesenew
enewnwewneswsewnwswenweswnenwsenwsw
sweneswneswneneenwnewenewwneswswnese
swwesenesewenwneswnwwneseswwne
enesenwswwswneneswsenwnewswseenwsese
wnwnesenesenenwwnenwsewesewsesesew
nenewswnwewswnenesenwnesewesw
eneswnwswnwsenenwnwnwwseeswneewsenese
neswnwewnwnwseenwseesewsenwsweewe
wseweeenwnesenwwwswnew
";

#[test]
fn hex_floor_days() {
    assert_eq!(day24::solve_part1(HEX_PATHS), Some(10));
    assert_eq!(day24::solve_part2(HEX_PATHS), Some(2208));
}

use aoc2020::day23;

#[test]
fn crab_cups() {
    let mut game = day23::parser("389125467").unwrap();
    game.do_move();
    assert_eq!(game.cups, vec![2, 8, 9, 1, 5, 4, 6, 7, 3]);
    game.do_move();
    assert_eq!(game.cups, vec![5, 4, 6, 7, 8, 9, 1, 3, 2]);
    assert_eq!(day23::solve_part1("389125467\n"), Some(67384529));
    assert!(day23::parser("38912546").is_none());
    assert!(day23::parser("389125466").is_none());
    assert!(day23::is_circle(&vec![1, 2, 3, 4, 5, 6, 7, 8, 9]));
}

use aoc2020::day14::BitMask2;

#[test]
fn docking_floating_addresses() {
    let input = "mask = 000000000000000000000000000000X1001X\nmem[42] = 100\nmask = 00000000000000000000000000000000X0XX\nmem[26] = 1\n";
    assert_eq!(day14::solve_part2(input), Some(208));
    let m = BitMask2::from_text(&b"X1001X".to_vec()).unwrap();
    let mut addrs = m.apply(42);
    addrs.sort();
    assert_eq!(addrs, vec![26, 27, 58, 59]);
    assert!(BitMask2::new().apply(5).is_empty());
    assert_eq!(day14::solve_part2("mem[1] = 5\n"), Some(0));
}

#[test]
fn recursive_combat() {
    let input = "Player 1:\n9\n2\n6\n3\n1\n\nPlayer 2:\n5\n8\n4\n7\n10\n";
    assert_eq!(day22::solve_part2(input), Some(291));
    let looping = "Player 1:\n43\n19\n\nPlayer 2:\n2\n29\n14\n";
    assert!(day22::solve_part2(looping).is_some());
}
