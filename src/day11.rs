//! Ferry seating: seats fill and empty by the occupied seats around them, until
//! the layout no longer changes.

use crate::text::{lines_spec, split_lines};
use vstd::prelude::*;
use vstd::string::StringSliceAdditionalSpecFns;

verus! {

#[derive(Clone, Copy, PartialEq, Eq, Debug, Structural)]
pub enum Spot {
    Floor,
    Empty,
    Occupied,
}

/// The seating layout, row by row.
pub struct Lobby {
    pub layout: Vec<Vec<Spot>>,
}

pub open spec fn cells(l: &Lobby) -> Seq<Seq<Spot>> {
    Seq::new(l.layout@.len(), |i: int| l.layout@[i]@)
}

pub open spec fn rect(g: Seq<Seq<Spot>>) -> bool {
    g.len() > 0 && forall|i: int| 0 <= i < g.len() ==> #[trigger] g[i].len() == g[0].len()
}

/// 1 when (`r`, `c`) lies on the layout and is occupied.
pub open spec fn occ(g: Seq<Seq<Spot>>, r: int, c: int) -> int {
    if 0 <= r < g.len() && 0 <= c < g[0].len() && g[r][c] == Spot::Occupied {
        1
    } else {
        0
    }
}

/// Occupied seats among the eight neighbours.
pub open spec fn around(g: Seq<Seq<Spot>>, r: int, c: int) -> int {
    occ(g, r - 1, c - 1) + occ(g, r - 1, c) + occ(g, r - 1, c + 1) + occ(g, r, c - 1) + occ(g, r, c + 1)
        + occ(g, r + 1, c - 1) + occ(g, r + 1, c) + occ(g, r + 1, c + 1)
}

/// Steps left before leaving the layout in direction (`dr`, `dc`).
pub open spec fn room(g: Seq<Seq<Spot>>, r: int, c: int, dr: int, dc: int) -> int {
    if dr > 0 {
        g.len() - r
    } else if dr < 0 {
        r + 1
    } else if dc > 0 {
        g[0].len() - c
    } else {
        c + 1
    }
}

/// 1 when the first seat seen from (`r`, `c`) in direction (`dr`, `dc`) is occupied.
pub open spec fn seen(g: Seq<Seq<Spot>>, r: int, c: int, dr: int, dc: int) -> int
    decreases room(g, r, c, dr, dc),
{
    let (nr, nc) = (r + dr, c + dc);
    if !(0 <= nr < g.len() && 0 <= nc < g[0].len()) || (dr == 0 && dc == 0) || room(g, r, c, dr, dc)
        <= 0 {
        0
    } else if g[nr][nc] == Spot::Occupied {
        1
    } else if g[nr][nc] == Spot::Empty {
        0
    } else {
        seen(g, nr, nc, dr, dc)
    }
}

/// Occupied seats seen in the eight directions.
pub open spec fn visible(g: Seq<Seq<Spot>>, r: int, c: int) -> int {
    seen(g, r, c, -1, -1) + seen(g, r, c, -1, 0) + seen(g, r, c, -1, 1) + seen(g, r, c, 0, -1) + seen(
        g,
        r,
        c,
        0,
        1,
    ) + seen(g, r, c, 1, -1) + seen(g, r, c, 1, 0) + seen(g, r, c, 1, 1)
}

/// The next state of a spot: an empty seat with nothing occupied around fills, an
/// occupied one with at least `limit` occupied around empties.
pub open spec fn next_spot(s: Spot, count: int, limit: int) -> Spot {
    match s {
        Spot::Floor => Spot::Floor,
        Spot::Empty => if count == 0 {
            Spot::Occupied
        } else {
            Spot::Empty
        },
        Spot::Occupied => if count >= limit {
            Spot::Empty
        } else {
            Spot::Occupied
        },
    }
}

/// One round for the whole layout: neighbours with limit four, or seats in sight
/// with limit five.
pub open spec fn next_layout(g: Seq<Seq<Spot>>, in_sight: bool) -> Seq<Seq<Spot>> {
    Seq::new(
        g.len(),
        |r: int|
            Seq::new(
                g[r].len(),
                |c: int|
                    if in_sight {
                        next_spot(g[r][c], visible(g, r, c), 5)
                    } else {
                        next_spot(g[r][c], around(g, r, c), 4)
                    },
            ),
    )
}

pub open spec fn count_row(row: Seq<Spot>, k: int) -> nat
    decreases k,
{
    if k <= 0 {
        0
    } else {
        count_row(row, k - 1) + if row[k - 1] == Spot::Occupied {
            1nat
        } else {
            0nat
        }
    }
}

pub open spec fn count_all(g: Seq<Seq<Spot>>, k: int) -> nat
    decreases k,
{
    if k <= 0 {
        0
    } else {
        count_all(g, k - 1) + count_row(g[k - 1], g[k - 1].len() as int)
    }
}

impl Lobby {
    fn occupied_at(&self, r: i128, c: i128) -> (res: u8)
        requires
            rect(cells(self)),
        ensures
            res == occ(cells(self), r as int, c as int),
    {
        let h = self.layout.len();
        let w = self.layout[0].len();
        if r < 0 || c < 0 || r >= h as i128 || c >= w as i128 {
            return 0;
        }
        assert(cells(self)[r as int].len() == w);
        if self.layout[r as usize][c as usize] == Spot::Occupied {
            1
        } else {
            0
        }
    }

    /// Occupied seats among the eight neighbours of (`row`, `col`).
    pub fn count_surrounding(&self, row: usize, col: usize) -> (r: u8)
        requires
            rect(cells(self)),
            row < self.layout@.len(),
            col < self.layout@[0]@.len(),
        ensures
            r == around(cells(self), row as int, col as int),
    {
        let (r, c) = (row as i128, col as i128);
        self.occupied_at(r - 1, c - 1) + self.occupied_at(r - 1, c) + self.occupied_at(r - 1, c + 1)
            + self.occupied_at(r, c - 1) + self.occupied_at(r, c + 1) + self.occupied_at(r + 1, c - 1)
            + self.occupied_at(r + 1, c) + self.occupied_at(r + 1, c + 1)
    }

    /// Occupied seats seen from (`row`, `col`) in the eight directions.
    pub fn count_visible(&self, row: usize, col: usize) -> (r: u8)
        requires
            rect(cells(self)),
            row < self.layout@.len(),
            col < self.layout@[0]@.len(),
        ensures
            r == visible(cells(self), row as int, col as int),
    {
        self.visible_direction(row, col, (-1, -1)) + self.visible_direction(row, col, (-1, 0))
            + self.visible_direction(row, col, (-1, 1)) + self.visible_direction(row, col, (0, -1))
            + self.visible_direction(row, col, (0, 1)) + self.visible_direction(row, col, (1, -1))
            + self.visible_direction(row, col, (1, 0)) + self.visible_direction(row, col, (1, 1))
    }

    /// 1 when the first seat seen from (`row`, `col`) in `direction` is occupied.
    pub fn visible_direction(&self, row: usize, col: usize, direction: (i8, i8)) -> (r: u8)
        requires
            rect(cells(self)),
            row < self.layout@.len(),
            col < self.layout@[0]@.len(),
            -1 <= direction.0 <= 1,
            -1 <= direction.1 <= 1,
        ensures
            r == seen(cells(self), row as int, col as int, direction.0 as int, direction.1 as int),
            r <= 1,
    {
        let ghost g = cells(self);
        let h = self.layout.len();
        let w = self.layout[0].len();
        let (dr, dc) = (direction.0 as i128, direction.1 as i128);
        if dr == 0 && dc == 0 {
            return 0;
        }
        let mut r = row as i128;
        let mut c = col as i128;
        loop
            invariant
                g == cells(self),
                rect(g),
                h == g.len(),
                w == g[0].len(),
                0 <= r < h,
                0 <= c < w,
                dr == direction.0 && dc == direction.1,
                -1 <= dr <= 1 && -1 <= dc <= 1,
                !(dr == 0 && dc == 0),
                seen(g, r as int, c as int, dr as int, dc as int) == seen(
                    g,
                    row as int,
                    col as int,
                    dr as int,
                    dc as int,
                ),
            decreases room(g, r as int, c as int, dr as int, dc as int),
        {
            let nr = r + dr;
            let nc = c + dc;
            if nr < 0 || nc < 0 || nr >= h as i128 || nc >= w as i128 {
                return 0;
            }
            assert(g[nr as int].len() == w);
            match self.layout[nr as usize][nc as usize] {
                Spot::Occupied => {
                    return 1;
                },
                Spot::Empty => {
                    return 0;
                },
                Spot::Floor => {},
            }
            r = nr;
            c = nc;
        }
    }

    /// The number of occupied seats.
    pub fn count_occupied(&self) -> (r: usize)
        requires
            rect(cells(self)),
            cells(self).len() * cells(self)[0].len() <= usize::MAX,
        ensures
            r == count_all(cells(self), cells(self).len() as int),
    {
        let ghost g = cells(self);
        let mut total: usize = 0;
        let mut i: usize = 0;
        while i < self.layout.len()
            invariant
                g == cells(self),
                rect(g),
                g.len() * g[0].len() <= usize::MAX,
                i <= g.len(),
                total == count_all(g, i as int),
                total <= i * g[0].len(),
            decreases g.len() - i,
        {
            let row = &self.layout[i];
            let mut j: usize = 0;
            let mut in_row: usize = 0;
            while j < row.len()
                invariant
                    j <= row@.len(),
                    in_row == count_row(row@, j as int),
                    in_row <= j,
                decreases row@.len() - j,
            {
                if row[j] == Spot::Occupied {
                    in_row += 1;
                }
                j += 1;
            }
            assert(g[i as int] == row@);
            assert(total + in_row <= (i + 1) * g[0].len() <= g.len() * g[0].len()) by (nonlinear_arith)
                requires
                    total <= i * g[0].len(),
                    in_row <= g[0].len(),
                    i < g.len(),
            ;
            total = total + in_row;
            i += 1;
        }
        total
    }
}

impl Lobby {
    fn next(&self, in_sight: bool) -> (r: Lobby)
        requires
            rect(cells(self)),
        ensures
            cells(&r) == next_layout(cells(self), in_sight),
            rect(cells(&r)),
    {
        let ghost g = cells(self);
        let h = self.layout.len();
        let mut rows: Vec<Vec<Spot>> = Vec::new();
        let mut i: usize = 0;
        while i < h
            invariant
                g == cells(self),
                rect(g),
                h == g.len(),
                i <= h,
                rows@.len() == i,
                forall|k: int| 0 <= k < i ==> #[trigger] rows@[k]@ == next_layout(g, in_sight)[k],
            decreases h - i,
        {
            let w = self.layout[i].len();
            assert(g[i as int] == self.layout@[i as int]@);
            assert(w == g[0].len());
            let mut row: Vec<Spot> = Vec::new();
            let mut j: usize = 0;
            while j < w
                invariant
                    g == cells(self),
                    rect(g),
                    h == g.len(),
                    i < h,
                    w == g[i as int].len(),
                    w == g[0].len(),
                    j <= w,
                    row@.len() == j,
                    forall|k: int| 0 <= k < j ==> #[trigger] row@[k] == next_layout(g, in_sight)[i as int][k],
                decreases w - j,
            {
                let spot = self.layout[i][j];
                let s = if in_sight {
                    let n = self.count_visible(i, j);
                    match spot {
                        Spot::Floor => Spot::Floor,
                        Spot::Empty => if n == 0 {
                            Spot::Occupied
                        } else {
                            Spot::Empty
                        },
                        Spot::Occupied => if n >= 5 {
                            Spot::Empty
                        } else {
                            Spot::Occupied
                        },
                    }
                } else {
                    let n = self.count_surrounding(i, j);
                    match spot {
                        Spot::Floor => Spot::Floor,
                        Spot::Empty => if n == 0 {
                            Spot::Occupied
                        } else {
                            Spot::Empty
                        },
                        Spot::Occupied => if n >= 4 {
                            Spot::Empty
                        } else {
                            Spot::Occupied
                        },
                    }
                };
                row.push(s);
                j += 1;
            }
            assert(row@ =~= next_layout(g, in_sight)[i as int]);
            rows.push(row);
            i += 1;
        }
        let r = Lobby { layout: rows };
        assert(cells(&r) =~= next_layout(g, in_sight));
        r
    }

    /// One round by the neighbours: an empty seat fills with no occupied seat
    /// around it, an occupied one empties with four or more.
    pub fn step(&self) -> (r: Lobby)
        requires
            rect(cells(self)),
        ensures
            cells(&r) == next_layout(cells(self), false),
            rect(cells(&r)),
    {
        self.next(false)
    }

    /// One round by the seats in sight: an empty seat fills when none in sight is
    /// occupied, an occupied one empties with five or more.
    pub fn step_part2(&self) -> (r: Lobby)
        requires
            rect(cells(self)),
        ensures
            cells(&r) == next_layout(cells(self), true),
            rect(cells(&r)),
    {
        self.next(true)
    }

    /// Whether two layouts are the same.
    pub fn same_layout(&self, other: &Lobby) -> (r: bool)
        ensures
            r == (cells(self) == cells(other)),
    {
        if self.layout.len() != other.layout.len() {
            assert(cells(self).len() != cells(other).len());
            return false;
        }
        let mut i: usize = 0;
        while i < self.layout.len()
            invariant
                self.layout@.len() == other.layout@.len(),
                i <= self.layout@.len(),
                forall|k: int| 0 <= k < i ==> #[trigger] cells(self)[k] == cells(other)[k],
            decreases self.layout@.len() - i,
        {
            let a = &self.layout[i];
            let b = &other.layout[i];
            if a.len() != b.len() {
                assert(cells(self)[i as int] != cells(other)[i as int]);
                return false;
            }
            assert(cells(self)[i as int] == a@);
            assert(cells(other)[i as int] == b@);
            let mut j: usize = 0;
            while j < a.len()
                invariant
                    i < self.layout@.len(),
                    self.layout@.len() == other.layout@.len(),
                    cells(self)[i as int] == a@,
                    cells(other)[i as int] == b@,
                    a@.len() == b@.len(),
                    j <= a@.len(),
                    forall|k: int| 0 <= k < j ==> a@[k] == b@[k],
                decreases a@.len() - j,
            {
                if a[j] != b[j] {
                    assert(cells(self)[i as int][j as int] != cells(other)[i as int][j as int]);
                    return false;
                }
                j += 1;
            }
            assert(a@ =~= b@);
            assert(cells(self)[i as int] == a@);
            assert(cells(other)[i as int] == b@);
            i += 1;
        }
        assert(cells(self) =~= cells(other));
        true
    }
}

/// `k` rounds from `g`.
pub open spec fn rounds(g: Seq<Seq<Spot>>, k: nat, in_sight: bool) -> Seq<Seq<Spot>>
    decreases k,
{
    if k == 0 {
        g
    } else {
        next_layout(rounds(g, (k - 1) as nat, in_sight), in_sight)
    }
}

pub open spec fn settled(g: Seq<Seq<Spot>>, in_sight: bool) -> bool {
    next_layout(g, in_sight) == g
}

proof fn lemma_next_shape(g: Seq<Seq<Spot>>, in_sight: bool)
    requires
        rect(g),
    ensures
        rect(next_layout(g, in_sight)),
        next_layout(g, in_sight).len() == g.len(),
        next_layout(g, in_sight)[0].len() == g[0].len(),
{
}

/// Rounds until the layout no longer changes, then the occupied seats; `None`
/// when it still changes after the most rounds a 64-bit counter can count.
fn settle(input: &Lobby, in_sight: bool) -> (r: Option<usize>)
    requires
        rect(cells(input)),
        cells(input).len() * cells(input)[0].len() <= usize::MAX,
    ensures
        r matches Some(n) ==> exists|k: nat|
            k >= 1 && #[trigger] settled(rounds(cells(input), k, in_sight), in_sight) && n == count_all(
                rounds(cells(input), k, in_sight),
                cells(input).len() as int,
            ) && forall|j: nat| 1 <= j < k ==> !#[trigger] settled(rounds(cells(input), j, in_sight), in_sight),
{
    let ghost g = cells(input);
    let mut current = input.next(in_sight);
    let mut k: u64 = 1;
    assert(rounds(g, 0, in_sight) == g);
    assert(rounds(g, 1, in_sight) == next_layout(g, in_sight));
    while k < u64::MAX
        invariant
            g == cells(input),
            rect(g),
            g.len() * g[0].len() <= usize::MAX,
            k >= 1,
            cells(&current) == rounds(g, k as nat, in_sight),
            rect(cells(&current)),
            cells(&current).len() == g.len(),
            cells(&current)[0].len() == g[0].len(),
            forall|j: nat| 1 <= j < k ==> !#[trigger] settled(rounds(g, j, in_sight), in_sight),
        decreases u64::MAX - k,
    {
        let next_step = current.next(in_sight);
        proof {
            lemma_next_shape(cells(&current), in_sight);
        }
        if current.same_layout(&next_step) {
            let n = current.count_occupied();
            assert(settled(rounds(g, k as nat, in_sight), in_sight));
            return Some(n);
        }
        assert(rounds(g, (k + 1) as nat, in_sight) == next_layout(rounds(g, k as nat, in_sight), in_sight));
        current = next_step;
        k += 1;
    }
    None
}

/// Occupied seats once the layout settles under the neighbour rule.
pub fn solve_part1(input: &Lobby) -> (r: Option<usize>)
    requires
        rect(cells(input)),
        cells(input).len() * cells(input)[0].len() <= usize::MAX,
    ensures
        r matches Some(n) ==> exists|k: nat|
            k >= 1 && #[trigger] settled(rounds(cells(input), k, false), false) && n == count_all(
                rounds(cells(input), k, false),
                cells(input).len() as int,
            ) && forall|j: nat| 1 <= j < k ==> !#[trigger] settled(rounds(cells(input), j, false), false),
{
    settle(input, false)
}

/// Occupied seats once the layout settles under the rule of seats in sight.
pub fn solve_part2(input: &Lobby) -> (r: Option<usize>)
    requires
        rect(cells(input)),
        cells(input).len() * cells(input)[0].len() <= usize::MAX,
    ensures
        r matches Some(n) ==> exists|k: nat|
            k >= 1 && #[trigger] settled(rounds(cells(input), k, true), true) && n == count_all(
                rounds(cells(input), k, true),
                cells(input).len() as int,
            ) && forall|j: nat| 1 <= j < k ==> !#[trigger] settled(rounds(cells(input), j, true), true),
{
    settle(input, true)
}

pub open spec fn spot_of(b: u8) -> Option<Spot> {
    if b == 76 {
        Some(Spot::Empty)
    } else if b == 35 {
        Some(Spot::Occupied)
    } else if b == 46 {
        Some(Spot::Floor)
    } else {
        None
    }
}

/// One row per line: `L` an empty seat, `#` an occupied one, `.` floor. `None`
/// on any other byte.
pub fn parser(input: &str) -> (r: Option<Lobby>)
    ensures
        r matches Some(l) ==> cells(&l).len() == lines_spec(input.spec_bytes()).len() && forall|i: int, j: int|
            0 <= i < cells(&l).len() && 0 <= j < cells(&l)[i].len() ==> Some(#[trigger] cells(&l)[i][j])
                == spot_of(lines_spec(input.spec_bytes())[i][j]),
{
    let lines = split_lines(input.as_bytes());
    let ghost lv = lines_spec(input.spec_bytes());
    let mut layout: Vec<Vec<Spot>> = Vec::new();
    let mut i: usize = 0;
    while i < lines.len()
        invariant
            lv == Seq::new(lines@.len(), |k: int| lines@[k]@),
            i <= lines@.len(),
            layout@.len() == i,
            forall|k: int| 0 <= k < i ==> (#[trigger] layout@[k])@.len() == lv[k].len(),
            forall|k: int, j: int|
                0 <= k < i && 0 <= j < layout@[k]@.len() ==> Some(#[trigger] layout@[k]@[j]) == spot_of(lv[k][j]),
        decreases lines@.len() - i,
    {
        let line = &lines[i];
        assert(lv[i as int] == line@);
        let mut row: Vec<Spot> = Vec::new();
        let mut j: usize = 0;
        while j < line.len()
            invariant
                j <= line@.len(),
                row@.len() == j,
                forall|k: int| 0 <= k < j ==> Some(#[trigger] row@[k]) == spot_of(line@[k]),
            decreases line@.len() - j,
        {
            let b = line[j];
            let s = if b == 76 {
                Spot::Empty
            } else if b == 35 {
                Spot::Occupied
            } else if b == 46 {
                Spot::Floor
            } else {
                return None;
            };
            row.push(s);
            j += 1;
        }
        layout.push(row);
        i += 1;
    }
    Some(Lobby { layout })
}

} // verus!
