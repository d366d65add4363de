//! Hexagonal floor tiles: paths of steps flip tiles, then the floor changes day
//! by day by the number of black neighbours.

use crate::text::{lines_spec, split_lines};
use vstd::prelude::*;
use vstd::string::StringSliceAdditionalSpecFns;

verus! {

#[derive(Clone, Copy, PartialEq, Eq, Debug, Structural)]
pub enum Direction {
    East,
    NorthEast,
    SouthEast,
    West,
    NorthWest,
    SouthWest,
}

/// The offset of one step, in doubled columns: east and west move two columns,
/// the diagonal steps one column and one row.
pub open spec fn offset(d: Direction) -> (int, int) {
    match d {
        Direction::East => (2, 0),
        Direction::West => (-2, 0),
        Direction::NorthEast => (1, 1),
        Direction::NorthWest => (-1, 1),
        Direction::SouthEast => (1, -1),
        Direction::SouthWest => (-1, -1),
    }
}

/// Where a path of steps from the reference tile ends.
pub open spec fn walk(path: Seq<Direction>) -> (int, int)
    decreases path.len(),
{
    if path.len() == 0 {
        (0, 0)
    } else {
        let p = walk(path.drop_last());
        let o = offset(path.last());
        (p.0 + o.0, p.1 + o.1)
    }
}

/// The directions of a line: `e`, `w`, `ne`, `nw`, `se`, `sw` written one after
/// another; `None` when the line is not such a sequence.
pub open spec fn directions_spec(s: Seq<u8>) -> Option<Seq<Direction>>
    decreases s.len(),
{
    if s.len() == 0 {
        Some(Seq::empty())
    } else if s[0] == 101 {
        match directions_spec(s.drop_first()) {
            Some(rest) => Some(seq![Direction::East] + rest),
            None => None,
        }
    } else if s[0] == 119 {
        match directions_spec(s.drop_first()) {
            Some(rest) => Some(seq![Direction::West] + rest),
            None => None,
        }
    } else if s.len() >= 2 && (s[0] == 110 || s[0] == 115) && (s[1] == 101 || s[1] == 119) {
        let d = if s[0] == 110 {
            if s[1] == 101 {
                Direction::NorthEast
            } else {
                Direction::NorthWest
            }
        } else if s[1] == 101 {
            Direction::SouthEast
        } else {
            Direction::SouthWest
        };
        match directions_spec(s.subrange(2, s.len() as int)) {
            Some(rest) => Some(seq![d] + rest),
            None => None,
        }
    } else {
        None
    }
}

/// Reads one step at `s[i..]`: its direction and its length in bytes.
pub fn single_direction(s: &Vec<u8>, i: usize) -> (r: Option<(Direction, usize)>)
    requires
        i < s@.len(),
    ensures
        r matches Some((d, k)) ==> (k == 1 || k == 2) && i + k <= s@.len() && match directions_spec(
            s@.subrange(i + k, s@.len() as int),
        ) {
            Some(rest) => directions_spec(s@.subrange(i as int, s@.len() as int)) == Some(seq![d] + rest),
            None => directions_spec(s@.subrange(i as int, s@.len() as int)) is None,
        },
        r is None ==> directions_spec(s@.subrange(i as int, s@.len() as int)) is None,
{
    let ghost t = s@.subrange(i as int, s@.len() as int);
    assert(t[0] == s@[i as int]);
    let b = s[i];
    if b == 101 || b == 119 {
        assert(t.drop_first() =~= s@.subrange(i + 1, s@.len() as int));
        return Some((if b == 101 { Direction::East } else { Direction::West }, 1));
    }
    if s.len() - i > 1 && (b == 110 || b == 115) && (s[i + 1] == 101 || s[i + 1] == 119) {
        assert(t[1] == s@[i + 1]);
        assert(t.subrange(2, t.len() as int) =~= s@.subrange(i + 2, s@.len() as int));
        let c = s[i + 1];
        let d = if b == 110 {
            if c == 101 {
                Direction::NorthEast
            } else {
                Direction::NorthWest
            }
        } else if c == 101 {
            Direction::SouthEast
        } else {
            Direction::SouthWest
        };
        return Some((d, 2));
    }
    None
}

/// Reads a line of steps.
pub fn directions(s: &Vec<u8>) -> (r: Option<Vec<Direction>>)
    ensures
        r matches Some(v) ==> directions_spec(s@) == Some(v@),
        r is None <==> directions_spec(s@) is None,
{
    let mut out: Vec<Direction> = Vec::new();
    let mut i: usize = 0;
    assert(s@.subrange(0, s@.len() as int) =~= s@);
    while i < s.len()
        invariant
            i <= s@.len(),
            directions_spec(s@) == match directions_spec(s@.subrange(i as int, s@.len() as int)) {
                Some(rest) => Some(out@ + rest),
                None => None,
            },
        decreases s@.len() - i,
    {
        match single_direction(s, i) {
            Some((d, k)) => {
                proof {
                    match directions_spec(s@.subrange(i + k, s@.len() as int)) {
                        Some(rest) => {
                            assert(out@ + (seq![d] + rest) =~= out@.push(d) + rest);
                        },
                        None => {},
                    }
                }
                out.push(d);
                i += k;
            },
            None => {
                return None;
            },
        }
    }
    assert(s@.subrange(i as int, s@.len() as int) =~= Seq::<u8>::empty());
    assert(out@ + Seq::<Direction>::empty() =~= out@);
    Some(out)
}

/// A tile position, in doubled columns and rows.
pub struct Tile {
    pub position: (i64, i64),
}

pub open spec fn fits_step(p: (i64, i64)) -> bool {
    i64::MIN + 2 <= p.0 <= i64::MAX - 2 && i64::MIN + 1 <= p.1 <= i64::MAX - 1
}

impl Tile {
    /// The reference tile.
    pub fn new() -> (r: Self)
        ensures
            r.position == (0i64, 0i64),
    {
        Tile { position: (0, 0) }
    }

    /// Moves one step.
    pub fn shift(&mut self, dir: Direction)
        requires
            fits_step(old(self).position),
        ensures
            final(self).position.0 == old(self).position.0 + offset(dir).0,
            final(self).position.1 == old(self).position.1 + offset(dir).1,
    {
        match dir {
            Direction::East => self.position.0 = self.position.0 + 2,
            Direction::West => self.position.0 = self.position.0 - 2,
            Direction::NorthEast => {
                self.position.0 = self.position.0 + 1;
                self.position.1 = self.position.1 + 1;
            },
            Direction::NorthWest => {
                self.position.0 = self.position.0 - 1;
                self.position.1 = self.position.1 + 1;
            },
            Direction::SouthEast => {
                self.position.0 = self.position.0 + 1;
                self.position.1 = self.position.1 - 1;
            },
            Direction::SouthWest => {
                self.position.0 = self.position.0 - 1;
                self.position.1 = self.position.1 - 1;
            },
        }
    }
}

/// Where a path ends, when every position along it stays well inside the 64-bit
/// range.
pub fn follow_path(path: &Vec<Direction>) -> (r: Option<(i64, i64)>)
    ensures
        r matches Some(p) ==> p.0 == walk(path@).0 && p.1 == walk(path@).1,
{
    let mut tile = Tile::new();
    let mut i: usize = 0;
    assert(path@.subrange(0, 0) =~= Seq::<Direction>::empty());
    while i < path.len()
        invariant
            i <= path@.len(),
            tile.position.0 == walk(path@.subrange(0, i as int)).0,
            tile.position.1 == walk(path@.subrange(0, i as int)).1,
        decreases path@.len() - i,
    {
        if tile.position.0 < -4611686018427387904 || tile.position.0 > 4611686018427387904
            || tile.position.1 < -4611686018427387904 || tile.position.1 > 4611686018427387904 {
            return None;
        }
        assert(path@.subrange(0, i + 1).drop_last() =~= path@.subrange(0, i as int));
        tile.shift(path[i]);
        i += 1;
    }
    assert(path@.subrange(0, i as int) =~= path@);
    Some(tile.position)
}

fn index_of(v: &Vec<(i64, i64)>, p: (i64, i64)) -> (r: Option<usize>)
    ensures
        r matches Some(i) ==> i < v@.len() && v@[i as int] == p,
        r is None ==> !v@.contains(p),
{
    let mut i: usize = 0;
    while i < v.len()
        invariant
            i <= v@.len(),
            forall|k: int| 0 <= k < i ==> v@[k] != p,
        decreases v@.len() - i,
    {
        if v[i].0 == p.0 && v[i].1 == p.1 {
            return Some(i);
        }
        i += 1;
    }
    None
}

/// Flips `p` in a set of tiles held as a vector without duplicates.
fn toggle(v: &mut Vec<(i64, i64)>, p: (i64, i64))
    requires
        old(v)@.no_duplicates(),
    ensures
        final(v)@.no_duplicates(),
        forall|q: (i64, i64)| #[trigger] final(v)@.contains(q) == (if q == p {
            !old(v)@.contains(q)
        } else {
            old(v)@.contains(q)
        }),
{
    match index_of(v, p) {
        Some(i) => {
            let ghost before = v@;
            v.swap_remove(i);
            assert forall|a: int, b: int| 0 <= a < v@.len() && 0 <= b < v@.len() && a != b implies v@[a]
                != v@[b] by {
                let a1 = if a == i { before.len() - 1 } else { a };
                let b1 = if b == i { before.len() - 1 } else { b };
                assert(v@[a] == before[a1] && v@[b] == before[b1]);
                assert(before[a1] != before[b1]);
            }
            assert forall|q: (i64, i64)| #[trigger] v@.contains(q) == (if q == p {
                !before.contains(q)
            } else {
                before.contains(q)
            }) by {
                if v@.contains(q) {
                    let k = choose|k: int| 0 <= k < v@.len() && v@[k] == q;
                    let k1 = if k == i { before.len() - 1 } else { k };
                    assert(before[k1] == q);
                    assert(k1 != i);
                }
                if q != p && before.contains(q) {
                    let k = choose|k: int| 0 <= k < before.len() && before[k] == q;
                    assert(k != i);
                    if k == before.len() - 1 {
                        assert(v@[i as int] == q);
                    } else {
                        assert(v@[k] == q);
                    }
                }
            }
        },
        None => {
            v.push(p);
            assert(v@[v@.len() - 1] == p);
            assert forall|q: (i64, i64)| #[trigger] v@.contains(q) == (if q == p {
                !old(v)@.contains(q)
            } else {
                old(v)@.contains(q)
            }) by {
                if v@.contains(q) && q != p {
                    let k = choose|k: int| 0 <= k < v@.len() && v@[k] == q;
                    assert(old(v)@[k] == q);
                }
                if old(v)@.contains(q) {
                    let k = choose|k: int| 0 <= k < old(v)@.len() && old(v)@[k] == q;
                    assert(v@[k] == q);
                }
            }
        },
    }
}

/// The tiles flipped an odd number of times by the paths of the first `k` lines.
pub open spec fn flipped_after(paths: Seq<Seq<Direction>>, k: int) -> Set<(int, int)>
    decreases k,
{
    if k <= 0 {
        Set::empty()
    } else {
        let s = flipped_after(paths, k - 1);
        let p = walk(paths[k - 1]);
        if s.contains(p) {
            s.remove(p)
        } else {
            s.insert(p)
        }
    }
}

/// The paths of the non-empty lines.
pub open spec fn paths_of(lines: Seq<Seq<u8>>) -> Option<Seq<Seq<Direction>>>
    decreases lines.len(),
{
    if lines.len() == 0 {
        Some(Seq::empty())
    } else {
        match paths_of(lines.drop_last()) {
            None => None,
            Some(done) => if lines.last().len() == 0 {
                Some(done)
            } else {
                match directions_spec(lines.last()) {
                    None => None,
                    Some(d) => Some(done.push(d)),
                }
            },
        }
    }
}

/// Reads the paths, one per non-empty line.
pub fn parse_paths(input: &str) -> (r: Option<Vec<Vec<Direction>>>)
    ensures
        r matches Some(v) ==> paths_of(lines_spec(input.spec_bytes())) == Some(
            Seq::new(v@.len(), |i: int| v@[i]@),
        ),
        r is None <==> paths_of(lines_spec(input.spec_bytes())) is None,
{
    let lines = split_lines(input.as_bytes());
    let ghost lv = lines_spec(input.spec_bytes());
    let mut out: Vec<Vec<Direction>> = Vec::new();
    let mut i: usize = 0;
    assert(lv.subrange(0, 0) =~= Seq::<Seq<u8>>::empty());
    while i < lines.len()
        invariant
            lv == Seq::new(lines@.len(), |k: int| lines@[k]@),
            lv == lines_spec(input.spec_bytes()),
            i <= lines@.len(),
            paths_of(lv.subrange(0, i as int)) == Some(Seq::new(out@.len(), |k: int| out@[k]@)),
        decreases lines@.len() - i,
    {
        assert(lv.subrange(0, i + 1).drop_last() =~= lv.subrange(0, i as int));
        assert(lv[i as int] == lines@[i as int]@);
        let ghost before = Seq::new(out@.len(), |k: int| out@[k]@);
        if lines[i].len() > 0 {
            match directions(&lines[i]) {
                Some(d) => {
                    out.push(d);
                    assert(Seq::new(out@.len(), |k: int| out@[k]@) =~= before.push(out@[out@.len() - 1]@));
                },
                None => {
                    proof {
                        lemma_paths_prefix(lv, i + 1);
                    }
                    return None;
                },
            }
        }
        i += 1;
    }
    assert(lv.subrange(0, i as int) =~= lv);
    Some(out)
}

proof fn lemma_paths_prefix(lines: Seq<Seq<u8>>, k: int)
    requires
        0 <= k <= lines.len(),
        paths_of(lines.subrange(0, k)) is None,
    ensures
        paths_of(lines) is None,
    decreases lines.len(),
{
    if k < lines.len() {
        assert(lines.drop_last().subrange(0, k) =~= lines.subrange(0, k));
        lemma_paths_prefix(lines.drop_last(), k);
    } else {
        assert(lines.subrange(0, k) =~= lines);
    }
}

pub open spec fn as_int_pair(p: (i64, i64)) -> (int, int) {
    (p.0 as int, p.1 as int)
}

/// `black` lists, once each, exactly the tiles of `s`.
pub open spec fn lists(black: Seq<(i64, i64)>, s: Set<(int, int)>) -> bool {
    &&& black.no_duplicates()
    &&& forall|q: (i64, i64)| #[trigger] black.contains(q) == s.contains(as_int_pair(q))
    &&& forall|t: (int, int)| #[trigger] s.contains(t) ==> exists|q: (i64, i64)| black.contains(q) && t == as_int_pair(q)
}

/// The lines are paths, and `n` tiles end up flipped to black.
pub open spec fn black_count(lines: Seq<Seq<u8>>, n: int) -> bool {
    match paths_of(lines) {
        Some(paths) => exists|black: Seq<(i64, i64)>|
            #[trigger] lists(black, flipped_after(paths, paths.len() as int)) && n == black.len(),
        None => false,
    }
}

/// The number of tiles flipped to black by the paths; `None` when the input is
/// not a list of paths or a path leaves the 64-bit range.
pub fn solve_part1(input: &str) -> (r: Option<usize>)
    ensures
        r matches Some(n) ==> black_count(lines_spec(input.spec_bytes()), n as int),
{
    let paths = match parse_paths(input) {
        Some(p) => p,
        None => {
            return None;
        },
    };
    let ghost pv = Seq::new(paths@.len(), |i: int| paths@[i]@);
    let mut black: Vec<(i64, i64)> = Vec::new();
    let mut i: usize = 0;
    while i < paths.len()
        invariant
            pv == Seq::new(paths@.len(), |i: int| paths@[i]@),
            i <= paths@.len(),
            lists(black@, flipped_after(pv, i as int)),
        decreases paths@.len() - i,
    {
        let pos = match follow_path(&paths[i]) {
            Some(p) => p,
            None => {
                return None;
            },
        };
        let ghost before = black@;
        let ghost s = flipped_after(pv, i as int);
        assert(pv[i as int] == paths@[i as int]@);
        toggle(&mut black, pos);
        proof {
            let s1 = flipped_after(pv, i + 1);
            assert(as_int_pair(pos) == walk(pv[i as int]));
            assert forall|t: (int, int)| #[trigger] s1.contains(t) implies exists|q: (i64, i64)|
                black@.contains(q) && t == as_int_pair(q) by {
                if t == as_int_pair(pos) {
                    assert(black@.contains(pos));
                } else {
                    assert(s.contains(t));
                    let q = choose|q: (i64, i64)| before.contains(q) && t == as_int_pair(q);
                    assert(black@.contains(q));
                }
            }
        }
        i += 1;
    }
    assert(paths_of(lines_spec(input.spec_bytes())) == Some(pv));
    assert(lists(black@, flipped_after(pv, pv.len() as int)));
    proof {
        let lines = lines_spec(input.spec_bytes());
        let paths = paths_of(lines)->Some_0;
        assert(paths == pv);
        assert(lists(black@, flipped_after(paths, paths.len() as int)));
        assert(black_count(lines, black@.len() as int));
    }
    Some(black.len())
}

/// The six neighbours of a tile.
pub open spec fn neighbor_spec(t: (int, int), k: int) -> (int, int) {
    if k == 0 {
        (t.0 - 2, t.1)
    } else if k == 1 {
        (t.0 - 1, t.1 - 1)
    } else if k == 2 {
        (t.0 - 1, t.1 + 1)
    } else if k == 3 {
        (t.0 + 1, t.1 - 1)
    } else if k == 4 {
        (t.0 + 1, t.1 + 1)
    } else {
        (t.0 + 2, t.1)
    }
}

/// Positions well inside the 64-bit range, so that neighbours and bounds fit.
pub open spec fn in_range(p: (i64, i64)) -> bool {
    -4611686018427387904 <= p.0 <= 4611686018427387904 && -4611686018427387904 <= p.1
        <= 4611686018427387904
}

/// The six neighbours of `tile`.
pub fn neighbors(tile: (i64, i64)) -> (r: Vec<(i64, i64)>)
    requires
        i64::MIN + 2 <= tile.0 <= i64::MAX - 2,
        i64::MIN + 1 <= tile.1 <= i64::MAX - 1,
    ensures
        r@.len() == 6,
        forall|k: int| 0 <= k < 6 ==> as_int_pair(#[trigger] r@[k]) == neighbor_spec(as_int_pair(tile), k),
{
    let r = vec![
        (tile.0 - 2, tile.1),
        (tile.0 - 1, tile.1 - 1),
        (tile.0 - 1, tile.1 + 1),
        (tile.0 + 1, tile.1 - 1),
        (tile.0 + 1, tile.1 + 1),
        (tile.0 + 2, tile.1),
    ];
    r
}

/// How many of the six neighbours of `t` are in `s`.
pub open spec fn black_around(s: Set<(int, int)>, t: (int, int), k: int) -> nat
    decreases k,
{
    if k <= 0 {
        0
    } else {
        black_around(s, t, k - 1) + if s.contains(neighbor_spec(t, k - 1)) {
            1nat
        } else {
            0nat
        }
    }
}

/// The black tiles, with bounds that hold every one of them.
pub struct Floor {
    pub black_tiles: Vec<(i64, i64)>,
    pub x_bounds: (i64, i64),
    pub y_bounds: (i64, i64),
}

impl Floor {
    pub open spec fn wf(&self) -> bool {
        &&& self.black_tiles@.no_duplicates()
        &&& self.x_bounds.0 <= self.x_bounds.1
        &&& self.y_bounds.0 <= self.y_bounds.1
        &&& in_range((self.x_bounds.0, self.y_bounds.0))
        &&& in_range((self.x_bounds.1, self.y_bounds.1))
        &&& forall|k: int|
            0 <= k < self.black_tiles@.len() ==> self.x_bounds.0 <= (#[trigger] self.black_tiles@[k]).0
                <= self.x_bounds.1 && self.y_bounds.0 <= self.black_tiles@[k].1 <= self.y_bounds.1
    }

    pub open spec fn black(&self) -> Set<(i64, i64)> {
        self.black_tiles@.to_set()
    }

    pub fn new() -> (r: Self)
        ensures
            r.wf(),
            r.black_tiles@.len() == 0,
    {
        Floor { black_tiles: Vec::new(), x_bounds: (0, 0), y_bounds: (0, 0) }
    }

    /// Flips the tile at `position`, widening the bounds when it turns black.
    pub fn flip_tile(&mut self, position: (i64, i64))
        requires
            old(self).wf(),
            in_range(position),
        ensures
            final(self).wf(),
            forall|q: (i64, i64)| #[trigger] final(self).black_tiles@.contains(q) == (if q == position {
                !old(self).black_tiles@.contains(q)
            } else {
                old(self).black_tiles@.contains(q)
            }),
            old(self).black_tiles@.contains(position) ==> final(self).x_bounds == old(self).x_bounds
                && final(self).y_bounds == old(self).y_bounds,
            !old(self).black_tiles@.contains(position) ==> final(self).x_bounds == (
                if position.0 < old(self).x_bounds.0 {
                    position.0
                } else {
                    old(self).x_bounds.0
                },
                if position.0 > old(self).x_bounds.1 {
                    position.0
                } else {
                    old(self).x_bounds.1
                },
            ) && final(self).y_bounds == (
                if position.1 < old(self).y_bounds.0 {
                    position.1
                } else {
                    old(self).y_bounds.0
                },
                if position.1 > old(self).y_bounds.1 {
                    position.1
                } else {
                    old(self).y_bounds.1
                },
            ),
    {
        let ghost before = self.black_tiles@;
        let was_black = index_of(&self.black_tiles, position).is_some();
        toggle(&mut self.black_tiles, position);
        if !was_black {
            if position.0 < self.x_bounds.0 {
                self.x_bounds.0 = position.0;
            } else if position.0 > self.x_bounds.1 {
                self.x_bounds.1 = position.0;
            }
            if position.1 < self.y_bounds.0 {
                self.y_bounds.0 = position.1;
            } else if position.1 > self.y_bounds.1 {
                self.y_bounds.1 = position.1;
            }
        }
        assert(self.x_bounds.0 <= old(self).x_bounds.0 && self.x_bounds.1 >= old(self).x_bounds.1);
        assert(self.y_bounds.0 <= old(self).y_bounds.0 && self.y_bounds.1 >= old(self).y_bounds.1);
        assert forall|k: int|
            0 <= k < self.black_tiles@.len() implies self.x_bounds.0 <= (#[trigger] self.black_tiles@[k]).0
            <= self.x_bounds.1 && self.y_bounds.0 <= self.black_tiles@[k].1 <= self.y_bounds.1 by {
            let q = self.black_tiles@[k];
            assert(self.black_tiles@.contains(q));
            if q == position {
                assert(!was_black);
            } else {
                let j = choose|j: int| 0 <= j < before.len() && before[j] == q;
                assert(old(self).black_tiles@[j] == q);
                assert(old(self).x_bounds.0 <= q.0 <= old(self).x_bounds.1);
                assert(old(self).y_bounds.0 <= q.1 <= old(self).y_bounds.1);
            }
        }
    }

    /// How many of the six neighbours of `tile` are black.
    pub fn black_adjacent(&self, tile: (i64, i64)) -> (r: usize)
        requires
            in_range(tile),
        ensures
            r == black_around(
                self.black_tiles@.map_values(|p: (i64, i64)| as_int_pair(p)).to_set(),
                as_int_pair(tile),
                6,
            ),
    {
        let ghost s = self.black_tiles@.map_values(|p: (i64, i64)| as_int_pair(p)).to_set();
        let ns = neighbors(tile);
        let mut count: usize = 0;
        let mut k: usize = 0;
        while k < 6
            invariant
                ns@.len() == 6,
                forall|k: int| 0 <= k < 6 ==> as_int_pair(#[trigger] ns@[k]) == neighbor_spec(as_int_pair(tile), k),
                s == self.black_tiles@.map_values(|p: (i64, i64)| as_int_pair(p)).to_set(),
                k <= 6,
                count == black_around(s, as_int_pair(tile), k as int),
                count <= k,
            decreases 6 - k,
        {
            let q = ns[k];
            let found = index_of(&self.black_tiles, q).is_some();
            proof {
                let m = self.black_tiles@.map_values(|p: (i64, i64)| as_int_pair(p));
                if found {
                    let i = choose|i: int| 0 <= i < self.black_tiles@.len() && self.black_tiles@[i] == q;
                    assert(m[i] == as_int_pair(q));
                    assert(s.contains(as_int_pair(q)));
                } else {
                    if s.contains(as_int_pair(q)) {
                        let i = choose|i: int| 0 <= i < m.len() && m[i] == as_int_pair(q);
                        assert(self.black_tiles@[i] == q);
                    }
                }
            }
            if found {
                count += 1;
            }
            k += 1;
        }
        count
    }
}

/// Tile `t` is black after a day: a black tile stays black with one or two black
/// neighbours, a white one turns black with exactly two.
pub open spec fn next_black(s: Set<(int, int)>, t: (int, int)) -> bool {
    let n = black_around(s, t, 6);
    if s.contains(t) {
        n == 1 || n == 2
    } else {
        n == 2
    }
}

/// Bounds that leave room for a day's growth.
pub open spec fn room_to_grow(f: &Floor) -> bool {
    -4611686018427387900 <= f.x_bounds.0 && f.x_bounds.1 <= 4611686018427387900 && -4611686018427387900
        <= f.y_bounds.0 && f.y_bounds.1 <= 4611686018427387900
}

pub open spec fn int_set(v: Seq<(i64, i64)>) -> Set<(int, int)> {
    v.map_values(|p: (i64, i64)| as_int_pair(p)).to_set()
}

/// `a` comes before `b`, column first.
pub open spec fn before(a: (i64, i64), b: (i64, i64)) -> bool {
    a.0 < b.0 || (a.0 == b.0 && a.1 < b.1)
}

impl Floor {
    /// One day: every tile within two columns and two rows of the bounds is
    /// decided by `next_black`; tiles further out have at most one black
    /// neighbour and stay white.
    pub fn run_day(&mut self)
        requires
            old(self).wf(),
            room_to_grow(old(self)),
        ensures
            final(self).wf(),
            forall|t: (i64, i64)|
                #[trigger] final(self).black_tiles@.contains(t) == (old(self).x_bounds.0 - 2 <= t.0
                    < old(self).x_bounds.1 + 2 && old(self).y_bounds.0 - 2 <= t.1 < old(self).y_bounds.1
                    + 2 && next_black(int_set(old(self).black_tiles@), as_int_pair(t))),
            forall|t: (i64, i64)|
                #[trigger] final(self).black_tiles@.contains(t) == next_black(
                    int_set(old(self).black_tiles@),
                    as_int_pair(t),
                ),
            final(self).x_bounds.0 <= old(self).x_bounds.0 && old(self).x_bounds.1 <= final(self).x_bounds.1,
            final(self).y_bounds.0 <= old(self).y_bounds.0 && old(self).y_bounds.1 <= final(self).y_bounds.1,
    {
        let ghost s0 = int_set(self.black_tiles@);
        let ghost v0 = self.black_tiles@;
        let mut new_floor: Vec<(i64, i64)> = Vec::new();
        let mut new_x = self.x_bounds;
        let mut new_y = self.y_bounds;
        let (x_lo, x_hi) = (self.x_bounds.0 - 2, self.x_bounds.1 + 2);
        let (y_lo, y_hi) = (self.y_bounds.0 - 2, self.y_bounds.1 + 2);
        let mut x = x_lo;
        while x < x_hi
            invariant
                self.wf(),
                room_to_grow(self),
                self.black_tiles@ == v0,
                s0 == int_set(v0),
                x_lo == self.x_bounds.0 - 2,
                x_hi == self.x_bounds.1 + 2,
                y_lo == self.y_bounds.0 - 2,
                y_hi == self.y_bounds.1 + 2,
                x_lo <= x <= x_hi,
                new_x.0 <= new_x.1 && new_y.0 <= new_y.1,
                new_x.0 <= self.x_bounds.0 && self.x_bounds.1 <= new_x.1,
                new_y.0 <= self.y_bounds.0 && self.y_bounds.1 <= new_y.1,
                x_lo <= new_x.0 && new_x.1 < x_hi && y_lo <= new_y.0 && new_y.1 < y_hi,
                new_floor@.no_duplicates(),
                forall|k: int| 0 <= k < new_floor@.len() ==> (#[trigger] new_floor@[k]).0 < x,
                forall|k: int|
                    0 <= k < new_floor@.len() ==> new_x.0 <= (#[trigger] new_floor@[k]).0 <= new_x.1
                        && new_y.0 <= new_floor@[k].1 <= new_y.1,
                forall|t: (i64, i64)|
                    #[trigger] new_floor@.contains(t) == (x_lo <= t.0 < x && y_lo <= t.1 < y_hi && next_black(
                        s0,
                        as_int_pair(t),
                    )),
            decreases x_hi - x,
        {
            let mut y = y_lo;
            while y < y_hi
                invariant
                    self.wf(),
                    room_to_grow(self),
                    self.black_tiles@ == v0,
                    s0 == int_set(v0),
                    x_lo == self.x_bounds.0 - 2,
                    x_hi == self.x_bounds.1 + 2,
                    y_lo == self.y_bounds.0 - 2,
                    y_hi == self.y_bounds.1 + 2,
                    x_lo <= x < x_hi,
                    y_lo <= y <= y_hi,
                    new_x.0 <= new_x.1 && new_y.0 <= new_y.1,
                    new_x.0 <= self.x_bounds.0 && self.x_bounds.1 <= new_x.1,
                    new_y.0 <= self.y_bounds.0 && self.y_bounds.1 <= new_y.1,
                new_x.0 <= self.x_bounds.0 && self.x_bounds.1 <= new_x.1,
                new_y.0 <= self.y_bounds.0 && self.y_bounds.1 <= new_y.1,
                    x_lo <= new_x.0 && new_x.1 < x_hi && y_lo <= new_y.0 && new_y.1 < y_hi,
                    new_floor@.no_duplicates(),
                    forall|k: int| 0 <= k < new_floor@.len() ==> before(#[trigger] new_floor@[k], (x, y)),
                    forall|k: int|
                        0 <= k < new_floor@.len() ==> new_x.0 <= (#[trigger] new_floor@[k]).0 <= new_x.1
                            && new_y.0 <= new_floor@[k].1 <= new_y.1,
                    forall|t: (i64, i64)|
                        #[trigger] new_floor@.contains(t) == (((x_lo <= t.0 < x && y_lo <= t.1 < y_hi) || (
                        t.0 == x && y_lo <= t.1 < y)) && next_black(s0, as_int_pair(t))),
                decreases y_hi - y,
            {
                let tile = (x, y);
                let adjacent = self.black_adjacent(tile);
                let is_black = index_of(&self.black_tiles, tile).is_some();
                proof {
                    let m = v0.map_values(|p: (i64, i64)| as_int_pair(p));
                    if is_black {
                        let i = choose|i: int| 0 <= i < v0.len() && v0[i] == tile;
                        assert(m[i] == as_int_pair(tile));
                    } else if s0.contains(as_int_pair(tile)) {
                        let i = choose|i: int| 0 <= i < m.len() && m[i] == as_int_pair(tile);
                        assert(v0[i] == tile);
                    }
                    assert(is_black == s0.contains(as_int_pair(tile)));
                }
                let should_insert = if is_black {
                    adjacent == 1 || adjacent == 2
                } else {
                    adjacent == 2
                };
                if should_insert {
                    let ghost prev = new_floor@;
                    new_floor.push(tile);
                    proof {
                        assert forall|a: int, b: int|
                            0 <= a < new_floor@.len() && 0 <= b < new_floor@.len() && a != b implies new_floor@[a]
                            != new_floor@[b] by {
                            if a == prev.len() {
                                assert(before(prev[b], tile));
                            } else if b == prev.len() {
                                assert(before(prev[a], tile));
                            } else {
                                assert(prev[a] != prev[b]);
                            }
                        }
                        assert(new_floor@[prev.len() as int] == tile);
                        assert forall|t: (i64, i64)| #[trigger] new_floor@.contains(t) == prev.contains(t) || t == tile by {
                            if new_floor@.contains(t) && t != tile {
                                let k = choose|k: int| 0 <= k < new_floor@.len() && new_floor@[k] == t;
                                assert(prev[k] == t);
                            }
                            if prev.contains(t) {
                                let k = choose|k: int| 0 <= k < prev.len() && prev[k] == t;
                                assert(new_floor@[k] == t);
                            }
                        }
                    }
                    if tile.0 < new_x.0 {
                        new_x.0 = tile.0;
                    } else if tile.0 > new_x.1 {
                        new_x.1 = tile.0;
                    }
                    if tile.1 < new_y.0 {
                        new_y.0 = tile.1;
                    } else if tile.1 > new_y.1 {
                        new_y.1 = tile.1;
                    }
                }
                y += 1;
            }
            x += 1;
        }
        proof {
            assert forall|t: (i64, i64)|
                !(x_lo <= t.0 < x_hi && y_lo <= t.1 < y_hi) implies !next_black(s0, #[trigger] as_int_pair(t)) by {
                lemma_outside_white(v0, self.x_bounds, self.y_bounds, as_int_pair(t));
            }
        }
        self.black_tiles = new_floor;
        self.x_bounds = new_x;
        self.y_bounds = new_y;
    }
}

/// A tile more than two columns or rows outside the bounds of the black tiles
/// has at most one black neighbour and is white, so it stays white.
proof fn lemma_outside_white(v: Seq<(i64, i64)>, xb: (i64, i64), yb: (i64, i64), t: (int, int))
    requires
        forall|k: int|
            0 <= k < v.len() ==> xb.0 <= (#[trigger] v[k]).0 <= xb.1 && yb.0 <= v[k].1 <= yb.1,
        !(xb.0 - 2 <= t.0 < xb.1 + 2 && yb.0 - 2 <= t.1 < yb.1 + 2),
    ensures
        !next_black(int_set(v), t),
{
    let s = int_set(v);
    let m = v.map_values(|p: (i64, i64)| as_int_pair(p));
    assert forall|p: (int, int)| #[trigger] s.contains(p) implies xb.0 <= p.0 <= xb.1 && yb.0 <= p.1
        <= yb.1 by {
        let k = choose|k: int| 0 <= k < m.len() && m[k] == p;
        assert(v[k].0 == p.0 && v[k].1 == p.1);
    }
    reveal_with_fuel(black_around, 7);
    let n0 = neighbor_spec(t, 0);
    let n1 = neighbor_spec(t, 1);
    let n2 = neighbor_spec(t, 2);
    let n3 = neighbor_spec(t, 3);
    let n4 = neighbor_spec(t, 4);
    let n5 = neighbor_spec(t, 5);
    if s.contains(n0) {
        assert(!s.contains(n1) && !s.contains(n2) && !s.contains(n3) && !s.contains(n4)
            && !s.contains(n5));
    }
    assert(!s.contains(t));
    assert(black_around(s, t, 6) <= 1);
}

/// The black tiles after flipping by the paths and then a hundred days; `None`
/// when the input is not a list of paths or the floor outgrows the 64-bit range.
pub fn solve_part2(input: &str) -> (r: Option<usize>)
{
    let paths = match parse_paths(input) {
        Some(p) => p,
        None => {
            return None;
        },
    };
    let mut floor = Floor::new();
    let mut i: usize = 0;
    while i < paths.len()
        invariant
            floor.wf(),
            i <= paths@.len(),
        decreases paths@.len() - i,
    {
        let pos = match follow_path(&paths[i]) {
            Some(p) => p,
            None => {
                return None;
            },
        };
        if !(-4611686018427387904 <= pos.0 && pos.0 <= 4611686018427387904 && -4611686018427387904
            <= pos.1 && pos.1 <= 4611686018427387904) {
            return None;
        }
        floor.flip_tile(pos);
        i += 1;
    }
    let mut day: usize = 0;
    while day < 100
        invariant
            floor.wf(),
            day <= 100,
        decreases 100 - day,
    {
        if !(-4611686018427387900 <= floor.x_bounds.0 && floor.x_bounds.1 <= 4611686018427387900
            && -4611686018427387900 <= floor.y_bounds.0 && floor.y_bounds.1 <= 4611686018427387900) {
            return None;
        }
        floor.run_day();
        day += 1;
    }
    Some(floor.black_tiles.len())
}

} // verus!
