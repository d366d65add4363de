//! Toboggan slopes: counting trees met on straight descents through a map that
//! repeats to the right.

use crate::text::{lines_spec, split_lines};
use vstd::prelude::*;
use vstd::string::StringSliceAdditionalSpecFns;

verus! {

/// Each line as a row of cells, `#` a tree.
pub open spec fn rows_of(lines: Seq<Seq<u8>>) -> Seq<Seq<bool>> {
    Seq::new(lines.len(), |i: int| Seq::new(lines[i].len(), |j: int| lines[i][j] == 35))
}

/// One row of the map per line of the input.
pub fn parser(input: &str) -> (r: Vec<Vec<bool>>)
    ensures
        Seq::new(r@.len(), |i: int| r@[i]@) == rows_of(lines_spec(input.spec_bytes())),
{
    let lines = split_lines(input.as_bytes());
    let ghost lv = lines_spec(input.spec_bytes());
    let mut out: Vec<Vec<bool>> = Vec::new();
    let mut i: usize = 0;
    while i < lines.len()
        invariant
            lv == Seq::new(lines@.len(), |k: int| lines@[k]@),
            i <= lines@.len(),
            out@.len() == i,
            forall|k: int| 0 <= k < i ==> #[trigger] out@[k]@ == rows_of(lv)[k],
        decreases lines@.len() - i,
    {
        let line = &lines[i];
        let mut row: Vec<bool> = Vec::new();
        let mut j: usize = 0;
        while j < line.len()
            invariant
                j <= line@.len(),
                row@.len() == j,
                forall|k: int| 0 <= k < j ==> #[trigger] row@[k] == (line@[k] == 35),
            decreases line@.len() - j,
        {
            row.push(line[j] == 35);
            j += 1;
        }
        assert(row@ =~= rows_of(lv)[i as int]);
        out.push(row);
        i += 1;
    }
    assert(Seq::new(out@.len(), |i: int| out@[i]@) =~= rows_of(lv));
    out
}

/// A map of at least one row, every row of the same positive width.
pub open spec fn map_ok(map: Seq<Vec<bool>>) -> bool {
    &&& map.len() > 0
    &&& map[0]@.len() > 0
    &&& forall|i: int| 0 <= i < map.len() ==> #[trigger] map[i]@.len() == map[0]@.len()
}

/// Trees met from column `x`, row `y` on, moving `dx` right and `dy` down each step.
pub open spec fn trees_from(map: Seq<Vec<bool>>, x: int, y: int, dx: int, dy: int) -> nat
    decreases if y < map.len() {
        map.len() - y
    } else {
        0
    },
{
    if y < 0 || y >= map.len() || dy <= 0 || x < 0 {
        0
    } else {
        (if map[y]@[x] {
            1nat
        } else {
            0nat
        }) + trees_from(map, (x + dx) % (map[0]@.len() as int), y + dy, dx, dy)
    }
}

proof fn lemma_trees_bound(map: Seq<Vec<bool>>, x: int, y: int, dx: int, dy: int)
    requires
        y >= 0,
    ensures
        trees_from(map, x, y, dx, dy) <= if y < map.len() {
            map.len() - y
        } else {
            0
        },
    decreases if y < map.len() {
        map.len() - y
    } else {
        0
    },
{
    if !(y < 0 || y >= map.len() || dy <= 0 || x < 0) {
        lemma_trees_bound(map, (x + dx) % (map[0]@.len() as int), y + dy, dx, dy);
    }
}

/// Trees met from the top-left corner on the slope `(right, down)`.
pub fn find_trees(slope: (usize, usize), input: &[Vec<bool>]) -> (r: u64)
    requires
        map_ok(input@),
        slope.1 > 0,
    ensures
        r == trees_from(input@, 0, 0, slope.0 as int, slope.1 as int),
{
    let bottom = input.len();
    let width = input[0].len();
    let mut x: usize = 0;
    let mut y: usize = 0;
    let mut count: u64 = 0;
    proof {
        lemma_trees_bound(input@, 0, 0, slope.0 as int, slope.1 as int);
    }
    while y < bottom
        invariant
            map_ok(input@),
            slope.1 > 0,
            bottom == input@.len(),
            width == input@[0]@.len(),
            x < width,
            count + trees_from(input@, x as int, y as int, slope.0 as int, slope.1 as int) == trees_from(
                input@,
                0,
                0,
                slope.0 as int,
                slope.1 as int,
            ),
            trees_from(input@, 0, 0, slope.0 as int, slope.1 as int) <= bottom,
        decreases bottom - y,
    {
        assert(input@[y as int]@.len() == width);
        if input[y][x] {
            count += 1;
        }
        let ghost nx = (x as int + slope.0 as int) % (width as int);
        x = ((x as u128 + slope.0 as u128) % (width as u128)) as usize;
        assert(x == nx);
        if bottom - y <= slope.1 {
            proof {
                assert(trees_from(input@, x as int, y + slope.1 as int, slope.0 as int, slope.1 as int) == 0);
                assert(trees_from(input@, x as int, bottom as int, slope.0 as int, slope.1 as int) == 0);
            }
            y = bottom;
        } else {
            y = y + slope.1;
        }
    }
    count
}

pub fn solve_part1(input: &[Vec<bool>]) -> (r: u64)
    requires
        map_ok(input@),
    ensures
        r == trees_from(input@, 0, 0, 3, 1),
{
    find_trees((3, 1), input)
}

/// The product of the trees met on the slopes (1, 1), (3, 1), (5, 1), (7, 1) and
/// (1, 2); `None` when it does not fit in 64 bits.
pub fn solve_part2(input: &[Vec<bool>]) -> (r: Option<u64>)
    requires
        map_ok(input@),
    ensures
        r matches Some(p) ==> p == trees_from(input@, 0, 0, 1, 1) * trees_from(input@, 0, 0, 3, 1)
            * trees_from(input@, 0, 0, 5, 1) * trees_from(input@, 0, 0, 7, 1) * trees_from(
            input@,
            0,
            0,
            1,
            2,
        ),
        r is None ==> trees_from(input@, 0, 0, 1, 1) * trees_from(input@, 0, 0, 3, 1) * trees_from(
            input@,
            0,
            0,
            5,
            1,
        ) * trees_from(input@, 0, 0, 7, 1) * trees_from(input@, 0, 0, 1, 2) > u64::MAX,
{
    let a = find_trees((1, 1), input);
    let b = find_trees((3, 1), input);
    let c = find_trees((5, 1), input);
    let d = find_trees((7, 1), input);
    let e = find_trees((1, 2), input);
    if a == 0 || b == 0 || c == 0 || d == 0 || e == 0 {
        assert(a * b * c * d * e == 0) by (nonlinear_arith)
            requires
                a == 0 || b == 0 || c == 0 || d == 0 || e == 0,
        ;
        return Some(0);
    }
    proof {
        lemma_product_large(a as int, b as int, c as int, d as int, e as int);
    }
    let ab = match a.checked_mul(b) {
        Some(v) => v,
        None => {
            return None;
        },
    };
    let abc = match ab.checked_mul(c) {
        Some(v) => v,
        None => {
            return None;
        },
    };
    let abcd = match abc.checked_mul(d) {
        Some(v) => v,
        None => {
            return None;
        },
    };
    abcd.checked_mul(e)
}

/// With positive factors, a partial product past the 64-bit range leaves the
/// whole product past it.
proof fn lemma_product_large(a: int, b: int, c: int, d: int, e: int)
    requires
        a > 0,
        b > 0,
        c > 0,
        d > 0,
        e > 0,
    ensures
        a * b > u64::MAX ==> a * b * c * d * e > u64::MAX,
        a * b * c > u64::MAX ==> a * b * c * d * e > u64::MAX,
        a * b * c * d > u64::MAX ==> a * b * c * d * e > u64::MAX,
{
    assert(a * b > 0) by (nonlinear_arith)
        requires
            a > 0,
            b > 0,
    ;
    assert(a * b * c > 0) by (nonlinear_arith)
        requires
            a * b > 0,
            c > 0,
    ;
    assert(a * b * c * d > 0) by (nonlinear_arith)
        requires
            a * b * c > 0,
            d > 0,
    ;
    assert(a * b * c >= a * b) by (nonlinear_arith)
        requires
            a > 0,
            b > 0,
            c > 0,
    ;
    assert(a * b * c * d >= a * b * c) by (nonlinear_arith)
        requires
            a * b * c > 0,
            d > 0,
    ;
    assert(a * b * c * d * e >= a * b * c * d) by (nonlinear_arith)
        requires
            a * b * c * d > 0,
            e > 0,
    ;
}

} // verus!
