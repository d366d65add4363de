use aoc2020::day20::{solve_part1, solve_part2, Graph, GraphTile, Image, PuzzleError, Side};
use aoc2020::grid::{Axis, Grid};

struct Lcg(u64);

impl Lcg {
    fn next(&mut self) -> u64 {
        self.0 = self
            .0
            .wrapping_mul(6364136223846793005)
            .wrapping_add(1442695040888963407);
        self.0 >> 33
    }

    fn cell(&mut self, percent: u64) -> u8 {
        if self.next() % 100 < percent {
            b'#'
        } else {
            b'.'
        }
    }
}

const MONSTER: [(usize, usize); 15] = [
    (0, 18),
    (1, 0),
    (1, 5),
    (1, 6),
    (1, 11),
    (1, 12),
    (1, 17),
    (1, 18),
    (1, 19),
    (2, 1),
    (2, 4),
    (2, 7),
    (2, 10),
    (2, 13),
    (2, 16),
];

fn rot_cw(g: &[Vec<u8>]) -> Vec<Vec<u8>> {
    let h = g.len();
    let w = g[0].len();
    (0..w).map(|i| (0..h).map(|j| g[h - 1 - j][i]).collect()).collect()
}

fn mirror(g: &[Vec<u8>]) -> Vec<Vec<u8>> {
    g.iter().map(|r| r.iter().rev().copied().collect()).collect()
}

fn orient(g: &[Vec<u8>], o: usize) -> Vec<Vec<u8>> {
    let mut out: Vec<Vec<u8>> = if o >= 4 { mirror(g) } else { g.to_vec() };
    for _ in 0..o % 4 {
        out = rot_cw(&out);
    }
    out
}

/// A picture of `rows` by `cols` tiles of side ten, neighbours sharing their
/// border rows and columns: busy borders, sparse interiors.
fn picture(rows: usize, cols: usize, rng: &mut Lcg) -> Vec<Vec<u8>> {
    let h = 9 * rows + 1;
    let w = 9 * cols + 1;
    (0..h)
        .map(|r| {
            (0..w)
                .map(|c| {
                    if r % 9 == 0 || c % 9 == 0 {
                        rng.cell(50)
                    } else {
                        rng.cell(8)
                    }
                })
                .collect()
        })
        .collect()
}

fn tile_at(pic: &[Vec<u8>], r: usize, c: usize) -> Vec<Vec<u8>> {
    (0..10).map(|i| pic[9 * r + i][9 * c..9 * c + 10].to_vec()).collect()
}

/// Renders the tiles in the given order, each in a scrambled orientation.
fn render(tiles: &[(u64, Vec<Vec<u8>>)], rng: &mut Lcg) -> String {
    let mut out = String::new();
    for (id, cells) in tiles {
        out.push_str(&format!("Tile {}:\n", id));
        let o = (rng.next() % 8) as usize;
        for row in orient(cells, o) {
            out.push_str(std::str::from_utf8(&row).unwrap());
            out.push('\n');
        }
        out.push('\n');
    }
    out
}

fn image_of(pic: &[Vec<u8>], rows: usize, cols: usize) -> Vec<Vec<u8>> {
    let mut img = Vec::new();
    for br in 0..rows {
        for i in 1..9 {
            let mut line = Vec::new();
            for bc in 0..cols {
                line.extend_from_slice(&pic[9 * br + i][9 * bc + 1..9 * bc + 9]);
            }
            img.push(line);
        }
    }
    img
}

fn count_marks(g: &[Vec<u8>]) -> usize {
    g.iter().map(|r| r.iter().filter(|b| **b == b'#').count()).sum()
}

fn tile(id: u64, rows: Vec<Vec<u8>>) -> GraphTile {
    GraphTile::new(id, Grid { rows })
}

fn sample_cells() -> Vec<Vec<u8>> {
    let mut rng = Lcg(7);
    (0..10).map(|_| (0..10).map(|_| rng.cell(50)).collect()).collect()
}

fn border_bag(t: &GraphTile) -> Vec<Vec<u8>> {
    let mut bag = Vec::new();
    for side in [Side::Top, Side::Bottom, Side::Left, Side::Right] {
        let b = t.border(side);
        let mut r = b.clone();
        r.reverse();
        bag.push(b);
        bag.push(r);
    }
    bag.sort();
    bag
}

#[test]
fn four_quarter_turns_are_identity() {
    let cells = sample_cells();
    let mut t = tile(1, cells.clone());
    t.rotate(4);
    assert_eq!(t.data.rows, cells);
    t.rotate_right();
    assert_ne!(t.data.rows, cells);
    t.rotate_left();
    assert_eq!(t.data.rows, cells);
}

#[test]
fn rotate_one_turn_matches_rotate_right() {
    let cells = sample_cells();
    let mut a = tile(1, cells.clone());
    let mut b = tile(1, cells);
    a.rotate(1);
    b.rotate_right();
    assert_eq!(a.data.rows, b.data.rows);
    a.rotate(2);
    b.rotate_180();
    assert_eq!(a.data.rows, b.data.rows);
}

#[test]
fn flipping_twice_is_identity() {
    let cells = sample_cells();
    for axis in [Axis::Horizontal, Axis::Vertical] {
        let mut t = tile(1, cells.clone());
        t.flip(axis);
        assert_ne!(t.data.rows, cells);
        t.flip(axis);
        assert_eq!(t.data.rows, cells);
    }
}

#[test]
fn borders_survive_transforms() {
    let cells = sample_cells();
    let mut t = tile(1, cells);
    let bag = border_bag(&t);
    t.rotate_right();
    assert_eq!(border_bag(&t), bag);
    t.flip_horizontal();
    assert_eq!(border_bag(&t), bag);
    t.rotate_180();
    t.flip_vertical();
    t.rotate_left();
    assert_eq!(border_bag(&t), bag);
}

#[test]
fn borders_read_in_canonical_direction() {
    let rows = vec![b"#..".to_vec(), b"..#".to_vec(), b"##.".to_vec()];
    let t = tile(5, rows);
    assert_eq!(t.top_border(), b"#..".to_vec());
    assert_eq!(t.bottom_border(), b"##.".to_vec());
    assert_eq!(t.left_border(), b"#.#".to_vec());
    assert_eq!(t.right_border(), b".#.".to_vec());
    assert_eq!(t.data().rows, vec![b".".to_vec()]);
}

#[test]
fn align_finds_the_matching_orientation() {
    let cells = sample_cells();
    let mut t = tile(1, cells.clone());
    let mut want = t.left_border();
    want.reverse();
    assert!(t.align(Side::Top, &want));
    assert_eq!(t.top_border(), want);
    let mut u = tile(2, cells.clone());
    assert!(!u.align(Side::Top, &vec![b'x'; 10]));
    assert_eq!(u.data.rows, cells);
}

fn grid_ids(rows: usize, cols: usize) -> Vec<Vec<u64>> {
    (0..rows)
        .map(|r| (0..cols).map(|c| 1000 + 10 * r as u64 + c as u64 + 1).collect())
        .collect()
}

#[test]
fn corners_of_three_by_three() {
    let mut rng = Lcg(11);
    let pic = picture(3, 3, &mut rng);
    let ids = grid_ids(3, 3);
    let mut tiles = Vec::new();
    for (r, c) in [(1, 1), (0, 2), (2, 0), (0, 0), (1, 0), (2, 2), (0, 1), (1, 2), (2, 1)] {
        tiles.push((ids[r][c], tile_at(&pic, r, c)));
    }
    let input = render(&tiles, &mut rng);
    let expected = 1001u64 * 1003 * 1021 * 1023;
    assert_eq!(solve_part1(&input), Ok(expected));
}

#[test]
fn corners_of_ring_of_eight() {
    let mut rng = Lcg(23);
    let pic = picture(3, 3, &mut rng);
    let ids = grid_ids(3, 3);
    let mut tiles = Vec::new();
    for (r, c) in [(0, 1), (2, 0), (1, 0), (0, 0), (1, 2), (2, 1), (0, 2), (2, 2)] {
        tiles.push((ids[r][c], tile_at(&pic, r, c)));
    }
    let input = render(&tiles, &mut rng);
    assert_eq!(solve_part1(&input), Ok(1001u64 * 1003 * 1021 * 1023));
}

#[test]
fn assembly_links_neighbours_both_ways() {
    let mut rng = Lcg(5);
    let pic = picture(2, 3, &mut rng);
    let ids = grid_ids(2, 3);
    let mut tiles = Vec::new();
    for r in 0..2 {
        for c in 0..3 {
            tiles.push((ids[r][c], tile_at(&pic, r, c)));
        }
    }
    let input = render(&tiles, &mut rng);
    let mut graph = Graph::parse(&input).unwrap();
    let tl = graph.orient().unwrap();
    let layout = graph.layout(tl).unwrap();
    assert_eq!(layout.len() * layout[0].len(), 6);
    for (i, t) in graph.tiles.iter().enumerate() {
        if let Some(j) = t.right_neighbor() {
            assert_eq!(graph.tiles[j].left_neighbor(), Some(i));
            assert_eq!(t.right_border(), graph.tiles[j].left_border());
        }
        if let Some(j) = t.bottom_neighbor() {
            assert_eq!(graph.tiles[j].top_neighbor(), Some(i));
            assert_eq!(t.bottom_border(), graph.tiles[j].top_border());
        }
    }
    let corners = graph.corner_product(tl).unwrap();
    assert_eq!(corners, 1001 * 1003 * 1011 * 1013);
}

#[test]
fn malformed_tiles_are_rejected() {
    assert_eq!(solve_part1("Tile 1:\n#.\n.\n"), Err(PuzzleError::Malformed));
    assert_eq!(solve_part1("Tile x:\n#.\n.#\n"), Err(PuzzleError::Malformed));
    assert_eq!(solve_part1(""), Err(PuzzleError::Malformed));
    assert_eq!(solve_part1("Tile 1:\n#.\n.#\n\nTile 2:\n#.#\n...\n###\n"), Err(PuzzleError::Malformed));
}

#[test]
fn single_tile_is_its_own_corners() {
    assert_eq!(solve_part1("Tile 7:\n#.\n.#\n"), Ok(7 * 7 * 7 * 7));
}

fn sparse_image(h: usize, w: usize, seed: u64) -> Vec<Vec<u8>> {
    let mut rng = Lcg(seed);
    (0..h).map(|_| (0..w).map(|_| rng.cell(10)).collect()).collect()
}

#[test]
fn no_monster_keeps_total() {
    let rows = sparse_image(24, 24, 3);
    let total = count_marks(&rows);
    let img = Image { data: Grid { rows } };
    assert!(!img.has_monster());
    assert_eq!(img.roughness(), total);
}

fn with_monster(mut g: Vec<Vec<u8>>, y: usize, x: usize) -> Vec<Vec<u8>> {
    for (dr, dc) in MONSTER {
        g[y + dr][x + dc] = b'#';
    }
    g
}

#[test]
fn one_monster_subtracts_its_cells() {
    for o in 0..8 {
        let upright = with_monster(sparse_image(24, 24, 9 + o as u64), 6, 2);
        let total = count_marks(&upright);
        let turned = orient(&upright, o);
        let img = Image { data: Grid { rows: turned } };
        assert_eq!(img.roughness(), total - 15);
    }
}

#[test]
fn monster_points_and_bounds() {
    let g = with_monster(vec![vec![b'.'; 20]; 3], 0, 0);
    let img = Image { data: Grid { rows: g } };
    assert_eq!(img.get_bounds(), (1, 1));
    assert!(img.is_monster(0, 0));
    let mask = img.find_monsters();
    let covered: usize = mask.iter().map(|r| r.iter().filter(|b| **b).count()).sum();
    assert_eq!(covered, 15);
    assert_eq!(img.count(false), 15);
    assert_eq!(img.count(true), 0);
    let pts = aoc2020::day20::Monster.points(3, 4);
    assert_eq!(pts[0], (21, 4));
    assert_eq!(pts[1], (3, 5));
}

#[test]
fn sea_roughness_end_to_end() {
    let mut rng = Lcg(31);
    let mut pic = picture(3, 3, &mut rng);
    let img_before = image_of(&pic, 3, 3);
    assert_eq!(img_before.len(), 24);
    // the monster in image coordinates, rows 10..13 and columns 2..22
    for (dr, dc) in MONSTER {
        let (ir, ic) = (10 + dr, 2 + dc);
        let (pr, pc) = (9 * (ir / 8) + 1 + ir % 8, 9 * (ic / 8) + 1 + ic % 8);
        pic[pr][pc] = b'#';
    }
    let img = image_of(&pic, 3, 3);
    let total = count_marks(&img);
    let ids = grid_ids(3, 3);
    let mut tiles = Vec::new();
    for (r, c) in [(2, 2), (0, 1), (1, 1), (0, 0), (2, 0), (1, 2), (0, 2), (1, 0), (2, 1)] {
        tiles.push((ids[r][c], tile_at(&pic, r, c)));
    }
    let input = render(&tiles, &mut rng);
    assert_eq!(solve_part2(&input), Ok(total - 15));
}

#[test]
fn corner_product_overflow_is_reported() {
    assert_eq!(solve_part1("Tile 4294967296:\n#.\n.#\n"), Err(PuzzleError::Overflow));
}

#[test]
fn tiles_without_interior_give_no_image() {
    assert_eq!(solve_part2("Tile 7:\n#.\n.#\n"), Err(PuzzleError::NotRectangular));
}
