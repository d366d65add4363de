//! Tile reassembly: square tiles with matching borders are oriented and linked
//! into one rectangular arrangement, whose corners and stitched interior image are
//! then examined.

use crate::seqs::{count_true, lemma_count_true_bound, lemma_count_true_set, lemma_count_zero};
use crate::text::{lines_spec, number_of, parse_u64, split_lines};
use crate::grid::{
    bottom, is_square, left, lemma_orientation_square, lemma_orientation_step, lemma_rotated_mod4,
    lemma_rotated_step, lemma_square_transforms, lemma_rot_cw_shape, mirror_h, mirror_v, orientation, right, rot_ccw,
    rot_cw, rot_half, rotated, same_bytes, top, flipped, Axis, Grid, width, is_rect,
    lemma_mirror_h_shape, lemma_rot_cw_borders, lemma_mirror_h_borders, lemma_rev_rev, rev,
};
use vstd::prelude::*;
use vstd::string::StringSliceAdditionalSpecFns;

verus! {

/// One side of a tile.
#[derive(Clone, Copy, PartialEq, Eq, Debug, Structural)]
pub enum Side {
    Top,
    Bottom,
    Left,
    Right,
}

pub open spec fn opposite(side: Side) -> Side {
    match side {
        Side::Top => Side::Bottom,
        Side::Bottom => Side::Top,
        Side::Left => Side::Right,
        Side::Right => Side::Left,
    }
}

/// The border on `side`: rows read left to right, columns top to bottom.
pub open spec fn border_of(g: Seq<Seq<u8>>, side: Side) -> Seq<u8> {
    match side {
        Side::Top => top(g),
        Side::Bottom => bottom(g),
        Side::Left => left(g),
        Side::Right => right(g),
    }
}

/// The side across from `side`.
pub fn opposite_side(side: Side) -> (r: Side)
    ensures
        r == opposite(side),
{
    match side {
        Side::Top => Side::Bottom,
        Side::Bottom => Side::Top,
        Side::Left => Side::Right,
        Side::Right => Side::Left,
    }
}

/// A tile of the arrangement: its identifier, its cells in their current
/// orientation, and the index of its neighbour on each side, once linked.
pub struct GraphTile {
    pub data: Grid,
    pub id: u64,
    pub top: Option<usize>,
    pub bottom: Option<usize>,
    pub left: Option<usize>,
    pub right: Option<usize>,
}

impl GraphTile {
    pub open spec fn wf(&self) -> bool {
        is_square(self.data@)
    }

    pub open spec fn link(&self, side: Side) -> Option<usize> {
        match side {
            Side::Top => self.top,
            Side::Bottom => self.bottom,
            Side::Left => self.left,
            Side::Right => self.right,
        }
    }

    /// Same identifier and links; only the cells may differ.
    pub open spec fn same_frame(&self, other: &GraphTile) -> bool {
        &&& self.id == other.id
        &&& self.top == other.top
        &&& self.bottom == other.bottom
        &&& self.left == other.left
        &&& self.right == other.right
    }

    /// An unlinked tile.
    pub fn new(id: u64, data: Grid) -> (r: GraphTile)
        ensures
            r.id == id,
            r.data@ == data@,
            r.top is None,
            r.bottom is None,
            r.left is None,
            r.right is None,
    {
        GraphTile { data, id, top: None, bottom: None, left: None, right: None }
    }

    pub fn top_border(&self) -> (r: Vec<u8>)
        requires
            self.wf(),
        ensures
            r@ == top(self.data@),
    {
        self.data.top_border()
    }

    pub fn bottom_border(&self) -> (r: Vec<u8>)
        requires
            self.wf(),
        ensures
            r@ == bottom(self.data@),
    {
        self.data.bottom_border()
    }

    pub fn left_border(&self) -> (r: Vec<u8>)
        requires
            self.wf(),
        ensures
            r@ == left(self.data@),
    {
        self.data.left_border()
    }

    pub fn right_border(&self) -> (r: Vec<u8>)
        requires
            self.wf(),
        ensures
            r@ == right(self.data@),
    {
        self.data.right_border()
    }

    pub fn border(&self, side: Side) -> (r: Vec<u8>)
        requires
            self.wf(),
        ensures
            r@ == border_of(self.data@, side),
    {
        match side {
            Side::Top => self.top_border(),
            Side::Bottom => self.bottom_border(),
            Side::Left => self.left_border(),
            Side::Right => self.right_border(),
        }
    }

    /// The cells with the outermost ring removed.
    pub fn data(&self) -> (r: Grid)
        requires
            self.wf(),
        ensures
            r@ == interior(self.data@),
    {
        let n = self.data.height();
        let mut rows: Vec<Vec<u8>> = Vec::new();
        let mut i: usize = 1;
        while i + 1 < n
            invariant
                self.wf(),
                n == self.data@.len(),
                1 <= i <= n - 1,
                rows@.len() == i - 1,
                forall|k: int| 0 <= k < i - 1 ==> #[trigger] rows@[k]@ == interior(self.data@)[k],
            decreases n - i,
        {
            let mut row: Vec<u8> = Vec::new();
            let mut j: usize = 1;
            while j + 1 < n
                invariant
                    self.wf(),
                    n == self.data@.len(),
                    1 <= i < n - 1,
                    1 <= j <= n - 1,
                    row@.len() == j - 1,
                    forall|k: int|
                        0 <= k < j - 1 ==> #[trigger] row@[k] == self.data@[i as int][k + 1],
                decreases n - j,
            {
                row.push(self.data.get(i, j));
                j += 1;
            }
            assert(row@ =~= interior(self.data@)[i - 1]);
            rows.push(row);
            i += 1;
        }
        let r = Grid { rows };
        assert(r@ =~= interior(self.data@));
        r
    }

    pub fn top_neighbor(&self) -> (r: Option<usize>)
        ensures
            r == self.top,
    {
        self.top
    }

    pub fn bottom_neighbor(&self) -> (r: Option<usize>)
        ensures
            r == self.bottom,
    {
        self.bottom
    }

    pub fn left_neighbor(&self) -> (r: Option<usize>)
        ensures
            r == self.left,
    {
        self.left
    }

    pub fn right_neighbor(&self) -> (r: Option<usize>)
        ensures
            r == self.right,
    {
        self.right
    }

    pub fn neighbor(&self, side: Side) -> (r: Option<usize>)
        ensures
            r == self.link(side),
    {
        match side {
            Side::Top => self.top,
            Side::Bottom => self.bottom,
            Side::Left => self.left,
            Side::Right => self.right,
        }
    }

    /// Turns the cells a quarter turn clockwise, in place.
    pub fn rotate_right(&mut self)
        requires
            old(self).wf(),
        ensures
            final(self).wf(),
            final(self).data@ == rot_cw(old(self).data@),
            final(self).same_frame(old(self)),
    {
        proof {
            lemma_square_transforms(self.data@);
        }
        self.data = self.data.rotated_right();
    }

    /// Turns the cells a quarter turn counter-clockwise, in place.
    pub fn rotate_left(&mut self)
        requires
            old(self).wf(),
        ensures
            final(self).wf(),
            final(self).data@ == rot_ccw(old(self).data@),
            final(self).same_frame(old(self)),
    {
        proof {
            lemma_square_transforms(self.data@);
        }
        self.data = self.data.rotated_left();
    }

    /// Turns the cells a half turn, in place.
    pub fn rotate_180(&mut self)
        requires
            old(self).wf(),
        ensures
            final(self).wf(),
            final(self).data@ == rot_half(old(self).data@),
            final(self).same_frame(old(self)),
    {
        proof {
            lemma_square_transforms(self.data@);
        }
        self.data = self.data.rotated_half();
    }

    /// Exchanges left and right, in place.
    pub fn flip_horizontal(&mut self)
        requires
            old(self).wf(),
        ensures
            final(self).wf(),
            final(self).data@ == mirror_h(old(self).data@),
            final(self).same_frame(old(self)),
    {
        proof {
            lemma_square_transforms(self.data@);
        }
        self.data = self.data.flipped_horizontal();
    }

    /// Exchanges top and bottom, in place.
    pub fn flip_vertical(&mut self)
        requires
            old(self).wf(),
        ensures
            final(self).wf(),
            final(self).data@ == mirror_v(old(self).data@),
            final(self).same_frame(old(self)),
    {
        proof {
            lemma_square_transforms(self.data@);
        }
        self.data = self.data.flipped_vertical();
    }

    /// Applies `quarter_turns` quarter turns clockwise.
    pub fn rotate(&mut self, quarter_turns: u32)
        requires
            old(self).wf(),
        ensures
            final(self).wf(),
            final(self).data@ == rotated(old(self).data@, quarter_turns as nat),
            final(self).same_frame(old(self)),
    {
        let ghost g0 = self.data@;
        let turns = quarter_turns % 4;
        let mut k: u32 = 0;
        while k < turns
            invariant
                self.wf(),
                is_square(g0),
                turns < 4,
                k <= turns,
                self.data@ == rotated(g0, k as nat),
                self.same_frame(old(self)),
            decreases turns - k,
        {
            proof {
                lemma_rotated_step(g0, k as nat);
            }
            self.rotate_right();
            k += 1;
        }
        proof {
            lemma_rotated_mod4(g0, quarter_turns as nat);
        }
    }

    /// Applies the mirror image about `axis`.
    pub fn flip(&mut self, axis: Axis)
        requires
            old(self).wf(),
        ensures
            final(self).wf(),
            final(self).data@ == flipped(old(self).data@, axis),
            final(self).same_frame(old(self)),
    {
        match axis {
            Axis::Horizontal => self.flip_horizontal(),
            Axis::Vertical => self.flip_vertical(),
        }
    }

    /// Puts the tile in the first of its eight orientations whose border on `side`
    /// reads `target`; when there is none the tile is left as it was.
    pub fn align(&mut self, side: Side, target: &Vec<u8>) -> (found: bool)
        requires
            old(self).wf(),
        ensures
            final(self).wf(),
            final(self).same_frame(old(self)),
            final(self).data@.len() == old(self).data@.len(),
            found ==> border_of(final(self).data@, side) == target@,
            found ==> oriented_from(final(self).data@, old(self).data@),
            !found ==> *final(self) == *old(self),
            !found ==> forall|o: nat|
                o < 8 ==> border_of(#[trigger] orientation(old(self).data@, o), side) != target@,
            !found ==> forall|from: Side| #[trigger] border_of(old(self).data@, from) != target@
                && rev(border_of(old(self).data@, from)) != target@,
    {
        match find_orientation(&self.data, side, target) {
            Some(o) => {
                proof {
                    lemma_orientation_square(self.data@, o as nat);
                }
                self.data = self.data.oriented(o);
                true
            },
            None => {
                proof {
                    assert forall|from: Side| #[trigger] border_of(self.data@, from) != target@
                        && rev(border_of(self.data@, from)) != target@ by {
                        lemma_orientations_cover(self.data@, side, from, false);
                        lemma_orientations_cover(self.data@, side, from, true);
                    }
                }
                false
            },
        }
    }
}

/// The border of a grid on `side`.
pub fn grid_border(g: &Grid, side: Side) -> (r: Vec<u8>)
    requires
        g.wf(),
    ensures
        r@ == border_of(g@, side),
{
    match side {
        Side::Top => g.top_border(),
        Side::Bottom => g.bottom_border(),
        Side::Left => g.left_border(),
        Side::Right => g.right_border(),
    }
}

/// The first of the eight orientations of `g` whose border on `side` reads `target`.
pub fn find_orientation(g: &Grid, side: Side, target: &Vec<u8>) -> (r: Option<usize>)
    requires
        g.wf(),
    ensures
        r matches Some(o) ==> o < 8 && border_of(orientation(g@, o as nat), side) == target@
            && forall|k: nat| k < o ==> border_of(#[trigger] orientation(g@, k), side) != target@,
        r is None ==> forall|k: nat|
            k < 8 ==> border_of(#[trigger] orientation(g@, k), side) != target@,
{
    let b = grid_border(g, side);
    if same_bytes(&b, target) {
        return Some(0);
    }
    proof {
        lemma_orientation_step(g@, 0);
        lemma_rot_cw_shape(g@);
    }
    let mut w = g.rotated_right();
    let mut o: usize = 1;
    while o < 8
        invariant
            g.wf(),
            1 <= o <= 8,
            w.wf(),
            o < 8 ==> w@ == orientation(g@, o as nat),
            forall|k: nat| k < o ==> border_of(#[trigger] orientation(g@, k), side) != target@,
        decreases 8 - o,
    {
        let b = grid_border(&w, side);
        if same_bytes(&b, target) {
            return Some(o);
        }
        proof {
            lemma_orientation_step(g@, o as nat);
        }
        w = w.rotated_right();
        if o == 3 {
            w = w.flipped_horizontal();
        }
        o += 1;
    }
    None
}

/// The cells with the outermost ring removed.
pub open spec fn interior(g: Seq<Seq<u8>>) -> Seq<Seq<u8>> {
    Seq::new(
        (g.len() - 2) as nat,
        |i: int| Seq::new((g.len() - 2) as nat, |j: int| g[i + 1][j + 1]),
    )
}

/// The link of tile `i` on `side`, if any, leads to another tile whose link on the
/// opposite side leads back, and the two borders that meet there are equal.
pub open spec fn link_ok(tiles: Seq<GraphTile>, i: int, side: Side) -> bool {
    match tiles[i].link(side) {
        None => true,
        Some(j) => {
            &&& j < tiles.len()
            &&& j != i
            &&& tiles[j as int].link(opposite(side)) == Some(i as usize)
            &&& border_of(tiles[i].data@, side) == border_of(tiles[j as int].data@, opposite(side))
        },
    }
}

pub open spec fn links_ok(tiles: Seq<GraphTile>) -> bool {
    forall|i: int, side: Side| 0 <= i < tiles.len() ==> #[trigger] link_ok(tiles, i, side)
}

/// Every tile square, of side `n`.
pub open spec fn tiles_ok(tiles: Seq<GraphTile>, n: nat) -> bool {
    forall|i: int| 0 <= i < tiles.len() ==> #[trigger] tiles[i].wf() && tiles[i].data@.len() == n
}

pub open spec fn unlinked(t: GraphTile) -> bool {
    &&& t.top is None
    &&& t.bottom is None
    &&& t.left is None
    &&& t.right is None
}

/// Tile for tile, `tiles` has the identifiers of `orig`; a tile not yet placed
/// still has the cells it was read with and no links, a placed one is in one of the
/// eight orientations of those cells.
pub open spec fn placement_ok(tiles: Seq<GraphTile>, orig: Seq<GraphTile>, placed: Seq<bool>) -> bool {
    &&& tiles.len() == orig.len()
    &&& placed.len() == orig.len()
    &&& forall|i: int| #![trigger tiles[i]] 0 <= i < tiles.len() ==> tiles[i].id == orig[i].id
    &&& forall|i: int|
        #![trigger tiles[i]]
        0 <= i < tiles.len() && !placed[i] ==> tiles[i].data@ == orig[i].data@ && unlinked(tiles[i])
    &&& forall|i: int|
        0 <= i < tiles.len() && placed[i] ==> #[trigger] oriented_from(tiles[i].data@, orig[i].data@)
}

/// `g` is one of the eight orientations of `g0`.
pub open spec fn oriented_from(g: Seq<Seq<u8>>, g0: Seq<Seq<u8>>) -> bool {
    exists|o: nat| o < 8 && g == #[trigger] orientation(g0, o)
}

/// The tiles of a puzzle, linked into an arrangement as assembly proceeds.
pub struct Graph {
    pub tiles: Vec<GraphTile>,
}

impl Graph {
    /// Tiles all square of one size, at least one of them, links consistent.
    pub open spec fn wf(&self) -> bool {
        &&& self.tiles@.len() > 0
        &&& tiles_ok(self.tiles@, self.tiles@[0].data@.len())
        &&& links_ok(self.tiles@)
    }

    /// Links tile `i` on `side` to tile `j`, and `j` back on the opposite side.
    #[verifier::rlimit(40)]
    fn set_link(&mut self, i: usize, side: Side, j: usize)
        requires
            i < old(self).tiles@.len(),
            j < old(self).tiles@.len(),
            i != j,
            links_ok(old(self).tiles@),
            old(self).tiles@[i as int].link(side) is None,
            old(self).tiles@[j as int].link(opposite(side)) is None,
            border_of(old(self).tiles@[i as int].data@, side) == border_of(
                old(self).tiles@[j as int].data@,
                opposite(side),
            ),
        ensures
            links_ok(final(self).tiles@),
            final(self).tiles@.len() == old(self).tiles@.len(),
            final(self).tiles@[i as int].link(side) == Some(j),
            final(self).tiles@[j as int].link(opposite(side)) == Some(i),
            forall|k: int|
                #![trigger final(self).tiles@[k]]
                0 <= k < final(self).tiles@.len() ==> final(self).tiles@[k].data == old(self).tiles@[k].data
                    && final(self).tiles@[k].id == old(self).tiles@[k].id,
            forall|k: int|
                #![trigger final(self).tiles@[k]]
                0 <= k < final(self).tiles@.len() && k != i && k != j ==> final(self).tiles@[k]
                    == old(self).tiles@[k],
            forall|s: Side|
                s != side ==> #[trigger] final(self).tiles@[i as int].link(s) == old(self).tiles@[i as int].link(s),
            forall|s: Side|
                s != opposite(side) ==> #[trigger] final(self).tiles@[j as int].link(s) == old(self).tiles@[j as int].link(s),
            forall|k: int, s: Side|
                #![trigger final(self).tiles@[k].link(s)]
                0 <= k < final(self).tiles@.len() && old(self).tiles@[k].link(s) is Some
                    ==> final(self).tiles@[k].link(s) == old(self).tiles@[k].link(s),
    {
        let ghost t0 = self.tiles@;
        match side {
            Side::Top => {
                self.tiles[i].top = Some(j);
                self.tiles[j].bottom = Some(i);
            },
            Side::Bottom => {
                self.tiles[i].bottom = Some(j);
                self.tiles[j].top = Some(i);
            },
            Side::Left => {
                self.tiles[i].left = Some(j);
                self.tiles[j].right = Some(i);
            },
            Side::Right => {
                self.tiles[i].right = Some(j);
                self.tiles[j].left = Some(i);
            },
        }
        let ghost t1 = self.tiles@;
        assert forall|k: int, s: Side| 0 <= k < t1.len() implies #[trigger] link_ok(t1, k, s) by {
            assert(link_ok(t0, k, s));
            if k == i as int && s == side {
            } else if k == j as int && s == opposite(side) {
            } else {
                assert(t1[k].link(s) == t0[k].link(s));
                match t0[k].link(s) {
                    None => {},
                    Some(l) => {
                        assert(link_ok(t0, l as int, opposite(s)));
                    },
                }
            }
        }
    }
}

pub open spec fn assembly_ok(tiles: Seq<GraphTile>, orig: Seq<GraphTile>, placed: Seq<bool>, n: nat) -> bool {
    &&& tiles_ok(tiles, n)
    &&& links_ok(tiles)
    &&& placement_ok(tiles, orig, placed)
}

/// Tile `j` cannot be linked on `side` to a border reading `target`: that side is
/// taken, or the tile is placed and its border there differs, or it is not placed
/// and differs there in each of its eight orientations.
pub open spec fn no_fit(
    tiles: Seq<GraphTile>,
    orig: Seq<GraphTile>,
    placed: Seq<bool>,
    j: int,
    side: Side,
    target: Seq<u8>,
) -> bool {
    ||| tiles[j].link(side) is Some
    ||| placed[j] && border_of(tiles[j].data@, side) != target
    ||| !placed[j] && forall|o: nat|
        o < 8 ==> border_of(#[trigger] orientation(orig[j].data@, o), side) != target
}

/// If side `side` of tile `i` is open, no tile could be linked there.
pub open spec fn side_closed(
    tiles: Seq<GraphTile>,
    orig: Seq<GraphTile>,
    placed: Seq<bool>,
    i: int,
    side: Side,
) -> bool {
    tiles[i].link(side) is None ==> forall|j: int|
        0 <= j < tiles.len() && j != i ==> #[trigger] no_fit(
            tiles,
            orig,
            placed,
            j,
            opposite(side),
            border_of(tiles[i].data@, side),
        )
}

/// Every open side of tile `i` has no tile that could be linked there.
pub open spec fn closed(tiles: Seq<GraphTile>, orig: Seq<GraphTile>, placed: Seq<bool>, i: int) -> bool {
    forall|side: Side| #[trigger] side_closed(tiles, orig, placed, i, side)
}

/// From state 0 to state 1 tiles are only placed, placed tiles keep their cells,
/// and links are only added.
pub open spec fn evolves(
    t0: Seq<GraphTile>,
    p0: Seq<bool>,
    t1: Seq<GraphTile>,
    p1: Seq<bool>,
    orig: Seq<GraphTile>,
) -> bool {
    &&& placement_ok(t0, orig, p0)
    &&& placement_ok(t1, orig, p1)
    &&& forall|k: int| 0 <= k < t0.len() && p0[k] ==> #[trigger] p1[k]
    &&& forall|k: int| 0 <= k < t0.len() && p0[k] ==> #[trigger] t1[k].data@ == t0[k].data@
    &&& forall|k: int, s: Side|
        0 <= k < t0.len() && #[trigger] t0[k].link(s) is Some ==> t1[k].link(s) == t0[k].link(s)
}

proof fn lemma_evolves_trans(
    t0: Seq<GraphTile>,
    p0: Seq<bool>,
    t1: Seq<GraphTile>,
    p1: Seq<bool>,
    t2: Seq<GraphTile>,
    p2: Seq<bool>,
    orig: Seq<GraphTile>,
)
    requires
        evolves(t0, p0, t1, p1, orig),
        evolves(t1, p1, t2, p2, orig),
    ensures
        evolves(t0, p0, t2, p2, orig),
{
    assert forall|k: int, s: Side| 0 <= k < t0.len() && #[trigger] t0[k].link(s) is Some implies t2[k].link(
        s,
    ) == t0[k].link(s) by {
        assert(t1[k].link(s) is Some);
    }
}

proof fn lemma_no_fit_kept(
    t0: Seq<GraphTile>,
    p0: Seq<bool>,
    t1: Seq<GraphTile>,
    p1: Seq<bool>,
    orig: Seq<GraphTile>,
    j: int,
    side: Side,
    target: Seq<u8>,
)
    requires
        evolves(t0, p0, t1, p1, orig),
        0 <= j < t0.len(),
        no_fit(t0, orig, p0, j, side, target),
    ensures
        no_fit(t1, orig, p1, j, side, target),
{
    if t0[j].link(side) is Some {
        assert(t1[j].link(side) == t0[j].link(side));
    } else if p0[j] {
        assert(p1[j]);
        assert(t1[j].data@ == t0[j].data@);
    } else if p1[j] {
        assert(oriented_from(t1[j].data@, orig[j].data@));
        let o = choose|o: nat| o < 8 && t1[j].data@ == #[trigger] orientation(orig[j].data@, o);
        assert(border_of(orientation(orig[j].data@, o), side) != target);
    }
}

proof fn lemma_side_closed_kept(
    t0: Seq<GraphTile>,
    p0: Seq<bool>,
    t1: Seq<GraphTile>,
    p1: Seq<bool>,
    orig: Seq<GraphTile>,
    i: int,
    side: Side,
)
    requires
        evolves(t0, p0, t1, p1, orig),
        0 <= i < t0.len(),
        p0[i],
        side_closed(t0, orig, p0, i, side),
    ensures
        side_closed(t1, orig, p1, i, side),
{
    if t1[i].link(side) is None {
        if t0[i].link(side) is Some {
            assert(t1[i].link(side) == t0[i].link(side));
        }
        assert(t1[i].data@ == t0[i].data@);
        assert forall|j: int| 0 <= j < t1.len() && j != i implies #[trigger] no_fit(
            t1,
            orig,
            p1,
            j,
            opposite(side),
            border_of(t1[i].data@, side),
        ) by {
            assert(no_fit(t0, orig, p0, j, opposite(side), border_of(t0[i].data@, side)));
            lemma_no_fit_kept(t0, p0, t1, p1, orig, j, opposite(side), border_of(t0[i].data@, side));
        }
    }
}

proof fn lemma_closed_kept(
    t0: Seq<GraphTile>,
    p0: Seq<bool>,
    t1: Seq<GraphTile>,
    p1: Seq<bool>,
    orig: Seq<GraphTile>,
    i: int,
)
    requires
        evolves(t0, p0, t1, p1, orig),
        0 <= i < t0.len(),
        p0[i],
        closed(t0, orig, p0, i),
    ensures
        closed(t1, orig, p1, i),
{
    assert forall|side: Side| #[trigger] side_closed(t1, orig, p1, i, side) by {
        assert(side_closed(t0, orig, p0, i, side));
        lemma_side_closed_kept(t0, p0, t1, p1, orig, i, side);
    }
}

impl Graph {
    /// Looks for a tile to link to tile `cur` on `side`, when that side is still
    /// open: a placed tile whose opposite border already matches, or an unplaced
    /// one that some orientation makes match, which is then placed and queued.
    fn attach_side(
        &mut self,
        cur: usize,
        side: Side,
        placed: &mut Vec<bool>,
        queue: &mut Vec<usize>,
        Ghost(orig): Ghost<Seq<GraphTile>>,
        Ghost(n): Ghost<nat>,
    )
        requires
            assembly_ok(old(self).tiles@, orig, old(placed)@, n),
            cur < old(self).tiles@.len(),
            old(placed)@[cur as int],
            forall|k: int| 0 <= k < old(queue)@.len() ==> #[trigger] old(queue)@[k] < old(self).tiles@.len() && old(placed)@[old(queue)@[k] as int],
        ensures
            final(self).tiles@.len() == old(self).tiles@.len(),
            assembly_ok(final(self).tiles@, orig, final(placed)@, n),
            evolves(old(self).tiles@, old(placed)@, final(self).tiles@, final(placed)@, orig),
            forall|k: int| 0 <= k < final(queue)@.len() ==> #[trigger] final(queue)@[k] < final(self).tiles@.len() && final(placed)@[final(queue)@[k] as int],
            count_true(final(placed)@) + old(queue)@.len() == count_true(old(placed)@) + final(queue)@.len(),
            final(queue)@.len() >= old(queue)@.len(),
            forall|k: int| 0 <= k < old(queue)@.len() ==> #[trigger] final(queue)@[k] == old(queue)@[k],
            forall|i: int|
                0 <= i < old(placed)@.len() && !old(placed)@[i] && #[trigger] final(placed)@[i]
                    ==> final(queue)@.contains(i as usize),
            side_closed(final(self).tiles@, orig, final(placed)@, cur as int, side),
            forall|s: Side| s != side ==> #[trigger] final(self).tiles@[cur as int].link(s) == old(self).tiles@[cur as int].link(s),
    {
        if self.tiles[cur].neighbor(side).is_some() {
            return ;
        }
        let ghost t0 = self.tiles@;
        let ghost p0 = placed@;
        let ghost q0 = queue@;
        let target = self.tiles[cur].border(side);
        let opp = opposite_side(side);
        let count = self.tiles.len();
        let mut j: usize = 0;
        while j < count
            invariant
                self.tiles@ == t0,
                placed@ == p0,
                queue@ == q0,
                t0 == old(self).tiles@,
                p0 == old(placed)@,
                q0 == old(queue)@,
                forall|k: int| 0 <= k < q0.len() ==> #[trigger] q0[k] < t0.len() && p0[q0[k] as int],
                count == t0.len(),
                assembly_ok(t0, orig, p0, n),
                cur < count,
                p0[cur as int],
                t0[cur as int].link(side) is None,
                target@ == border_of(t0[cur as int].data@, side),
                opp == opposite(side),
                j <= count,
                forall|k: int| 0 <= k < j && k != cur ==> #[trigger] no_fit(t0, orig, p0, k, opp, target@),
            decreases count - j,
        {
            if j != cur && self.tiles[j].neighbor(opp).is_none() {
                if placed[j] {
                    let b = self.tiles[j].border(opp);
                    if same_bytes(&b, &target) {
                        self.set_link(cur, side, j);
                        proof {
                            lemma_relink_ok(t0, self.tiles@, orig, p0, n);
                        }
                        return ;
                    }
                } else {
                    let ok = self.tiles[j].align(opp, &target);
                    if ok {
                        let ghost t1 = self.tiles@;
                        assert(t0[j as int].wf());
                        placed.set(j, true);
                        proof {
                            lemma_count_true_set(p0, j as int);
                            lemma_place_ok(t0, t1, orig, p0, j as int, n);
                        }
                        queue.push(j);
                        assert(queue@[q0.len() as int] == j);
                        self.set_link(cur, side, j);
                        proof {
                            lemma_relink_ok(t1, self.tiles@, orig, placed@, n);
                            lemma_evolves_trans(t0, p0, t1, placed@, self.tiles@, placed@, orig);
                        }
                        return ;
                    }
                }
            }
            j += 1;
        }
    }
}

/// Adding links between placed tiles keeps the assembly state consistent.
proof fn lemma_relink_ok(t0: Seq<GraphTile>, t1: Seq<GraphTile>, orig: Seq<GraphTile>, p: Seq<bool>, n: nat)
    requires
        assembly_ok(t0, orig, p, n),
        links_ok(t1),
        t1.len() == t0.len(),
        forall|k: int| #![trigger t1[k]] 0 <= k < t1.len() ==> t1[k].data == t0[k].data && t1[k].id == t0[k].id,
        forall|k: int| #![trigger t1[k]] 0 <= k < t1.len() && !p[k] ==> t1[k] == t0[k],
        forall|k: int, s: Side|
            0 <= k < t0.len() && #[trigger] t0[k].link(s) is Some ==> t1[k].link(s) == t0[k].link(s),
    ensures
        assembly_ok(t1, orig, p, n),
        evolves(t0, p, t1, p, orig),
{
    assert forall|i: int| 0 <= i < t1.len() && p[i] implies #[trigger] oriented_from(
        t1[i].data@,
        orig[i].data@,
    ) by {
        assert(t1[i].data == t0[i].data);
        assert(oriented_from(t0[i].data@, orig[i].data@));
    }
    assert forall|i: int| 0 <= i < t1.len() implies #[trigger] t1[i].wf() && t1[i].data@.len() == n by {
        assert(t1[i].data == t0[i].data);
        assert(t0[i].wf());
    }
}

/// Placing an unplaced tile in one of its orientations keeps the assembly state
/// consistent.
proof fn lemma_place_ok(t0: Seq<GraphTile>, t1: Seq<GraphTile>, orig: Seq<GraphTile>, p: Seq<bool>, j: int, n: nat)
    requires
        assembly_ok(t0, orig, p, n),
        0 <= j < t0.len(),
        !p[j],
        t1 == t0.update(j, t1[j]),
        t1[j].same_frame(&t0[j]),
        t1[j].wf(),
        t1[j].data@.len() == n,
        oriented_from(t1[j].data@, orig[j].data@),
    ensures
        assembly_ok(t1, orig, p.update(j, true), n),
        evolves(t0, p, t1, p.update(j, true), orig),
{
    assert(unlinked(t0[j]));
    assert forall|k: int, s: Side| 0 <= k < t1.len() implies #[trigger] link_ok(t1, k, s) by {
        assert(link_ok(t0, k, s));
        if k != j {
            match t0[k].link(s) {
                None => {},
                Some(l) => {
                    if l == j {
                        assert(unlinked(t0[j]));
                    }
                },
            }
        }
    }
    let p1 = p.update(j, true);
    assert forall|i: int| 0 <= i < t1.len() && p1[i] implies #[trigger] oriented_from(
        t1[i].data@,
        orig[i].data@,
    ) by {
        if i != j {
            assert(p[i]);
            assert(t1[i] == t0[i]);
            assert(oriented_from(t0[i].data@, orig[i].data@));
        }
    }
    assert forall|i: int| 0 <= i < t1.len() implies #[trigger] t1[i].wf() && t1[i].data@.len() == n by {
        if i != j {
            assert(t0[i].wf());
        }
    }
}

impl Graph {
    /// Flood fill from tile `start`, which keeps its orientation: each open side of
    /// a placed tile is matched against the other tiles (see `attach_side`), and
    /// every newly placed tile is examined in turn. Returns which tiles were placed.
    /// Afterwards no open side of a placed tile has a tile that could be linked to it.
    pub fn orient_inner(&mut self, start: usize) -> (placed: Vec<bool>)
        requires
            old(self).wf(),
            start < old(self).tiles@.len(),
            forall|i: int| 0 <= i < old(self).tiles@.len() ==> #[trigger] unlinked(old(self).tiles@[i]),
        ensures
            final(self).wf(),
            final(self).tiles@[0].data@.len() == old(self).tiles@[0].data@.len(),
            assembly_ok(final(self).tiles@, old(self).tiles@, placed@, old(self).tiles@[0].data@.len()),
            placed@[start as int],
            final(self).tiles@[start as int].data@ == old(self).tiles@[start as int].data@,
            forall|i: int|
                0 <= i < placed@.len() && placed@[i] ==> #[trigger] closed(final(self).tiles@, old(self).tiles@, placed@, i),
    {
        let ghost orig = self.tiles@;
        let ghost n = self.tiles@[0].data@.len();
        let count = self.tiles.len();
        let mut placed: Vec<bool> = Vec::new();
        let mut k: usize = 0;
        while k < count
            invariant
                k <= count,
                placed@.len() == k,
                forall|i: int| 0 <= i < k ==> !#[trigger] placed@[i],
            decreases count - k,
        {
            placed.push(false);
            k += 1;
        }
        proof {
            assert(placement_ok(orig, orig, placed@));
            lemma_count_true_set(placed@, start as int);
            assert(oriented_from(orig[start as int].data@, orig[start as int].data@)) by {
                assert(orientation(orig[start as int].data@, 0) == orig[start as int].data@);
            }
        }
        placed.set(start, true);
        let mut queue: Vec<usize> = Vec::new();
        queue.push(start);
        assert(queue@[0] == start);
        let ghost mut processed: Seq<bool> = Seq::new(count as nat, |i: int| false);
        proof {
            assert(count_true(placed@.update(start as int, false)) == 0) by {
                lemma_count_zero(placed@.update(start as int, false));
            }
            lemma_count_true_bound(placed@);
        }
        while queue.len() > 0
            invariant
                self.tiles@.len() == count,
                orig.len() == count,
                n == orig[0].data@.len(),
                processed.len() == count,
                start < count,
                assembly_ok(self.tiles@, orig, placed@, n),
                count_true(placed@) <= count,
                forall|k: int| 0 <= k < queue@.len() ==> #[trigger] queue@[k] < count && placed@[queue@[k] as int],
                forall|i: int|
                    0 <= i < count && placed@[i] ==> #[trigger] processed[i] || queue@.contains(i as usize),
                forall|i: int|
                    0 <= i < count && #[trigger] processed[i] ==> placed@[i] && closed(self.tiles@, orig, placed@, i),
                placed@[start as int],
                self.tiles@[start as int].data@ == orig[start as int].data@,
            decreases (count - count_true(placed@)) + queue@.len(),
        {
            let ghost q_before = queue@;
            let cur = queue.pop().unwrap();
            assert(q_before[q_before.len() - 1] == cur);
            let ghost t0 = self.tiles@;
            let ghost p0 = placed@;
            let ghost q0 = queue@;
            self.attach_side(cur, Side::Top, &mut placed, &mut queue, Ghost(orig), Ghost(n));
            let ghost t1 = self.tiles@;
            let ghost p1 = placed@;
            let ghost q1 = queue@;
            self.attach_side(cur, Side::Bottom, &mut placed, &mut queue, Ghost(orig), Ghost(n));
            let ghost t2 = self.tiles@;
            let ghost p2 = placed@;
            let ghost q2 = queue@;
            self.attach_side(cur, Side::Left, &mut placed, &mut queue, Ghost(orig), Ghost(n));
            let ghost t3 = self.tiles@;
            let ghost p3 = placed@;
            let ghost q3 = queue@;
            self.attach_side(cur, Side::Right, &mut placed, &mut queue, Ghost(orig), Ghost(n));
            proof {
                let t4 = self.tiles@;
                let p4 = placed@;
                lemma_evolves_trans(t0, p0, t1, p1, t2, p2, orig);
                lemma_evolves_trans(t0, p0, t2, p2, t3, p3, orig);
                lemma_evolves_trans(t0, p0, t3, p3, t4, p4, orig);
                lemma_evolves_trans(t1, p1, t2, p2, t3, p3, orig);
                lemma_evolves_trans(t1, p1, t3, p3, t4, p4, orig);
                lemma_side_closed_kept(t1, p1, t4, p4, orig, cur as int, Side::Top);
                lemma_side_closed_kept(t2, p2, t4, p4, orig, cur as int, Side::Bottom);
                lemma_side_closed_kept(t3, p3, t4, p4, orig, cur as int, Side::Left);
                assert forall|side: Side| #[trigger] side_closed(t4, orig, p4, cur as int, side) by {
                    match side {
                        Side::Top => {},
                        Side::Bottom => {},
                        Side::Left => {},
                        Side::Right => {},
                    }
                }
                assert forall|i: int| 0 <= i < count && #[trigger] processed[i] implies closed(t4, orig, p4, i) by {
                    lemma_closed_kept(t0, p0, t4, p4, orig, i);
                }
                processed = processed.update(cur as int, true);
                assert forall|i: int|
                    0 <= i < count && p4[i] implies #[trigger] processed[i] || queue@.contains(i as usize) by {
                    if !p0[i] {
                        let q4 = queue@;
                        if p1[i] {
                            lemma_queue_kept(q1, q2, i as usize);
                            lemma_queue_kept(q2, q3, i as usize);
                            lemma_queue_kept(q3, q4, i as usize);
                        } else if p2[i] {
                            lemma_queue_kept(q2, q3, i as usize);
                            lemma_queue_kept(q3, q4, i as usize);
                        } else if p3[i] {
                            lemma_queue_kept(q3, q4, i as usize);
                        }
                    } else if i != cur {
                        if !processed[i] {
                            assert(q_before.contains(i as usize));
                            let k = choose|k: int| 0 <= k < q_before.len() && q_before[k] == i as usize;
                            assert(queue@[k] == i as usize);
                        }
                    }
                }
                lemma_count_true_bound(p4);
            }
        }
        proof {
            assert forall|i: int| 0 <= i < placed@.len() && placed@[i] implies #[trigger] closed(self.tiles@, orig, placed@, i) by {
                assert(processed[i] || queue@.contains(i as usize));
            }
            assert(self.tiles@[0].wf());
        }
        placed
    }
}

proof fn lemma_queue_kept(qa: Seq<usize>, qb: Seq<usize>, x: usize)
    requires
        qa.len() <= qb.len(),
        forall|k: int| 0 <= k < qa.len() ==> #[trigger] qb[k] == qa[k],
        qa.contains(x),
    ensures
        qb.contains(x),
{
    let k = choose|k: int| 0 <= k < qa.len() && qa[k] == x;
    assert(qb[k] == x);
}

/// The tile reached from tile `i` after `k` steps across the links on `side`,
/// stopping at the first tile without such a link.
pub open spec fn follow(tiles: Seq<GraphTile>, i: int, side: Side, k: nat) -> int
    decreases k,
{
    if k == 0 {
        i
    } else {
        let p = follow(tiles, i, side, (k - 1) as nat);
        match tiles[p].link(side) {
            Some(j) => j as int,
            None => p,
        }
    }
}

/// The end of the chain of links on `side` from tile `i`, when it is reached within
/// as many steps as there are tiles.
pub open spec fn chain_end(tiles: Seq<GraphTile>, i: int, side: Side) -> Option<int> {
    let e = follow(tiles, i, side, tiles.len());
    if tiles[e].link(side) is None {
        Some(e)
    } else {
        None
    }
}

proof fn lemma_follow_in_range(tiles: Seq<GraphTile>, i: int, side: Side, k: nat)
    requires
        links_ok(tiles),
        0 <= i < tiles.len(),
    ensures
        0 <= follow(tiles, i, side, k) < tiles.len(),
    decreases k,
{
    if k > 0 {
        lemma_follow_in_range(tiles, i, side, (k - 1) as nat);
        assert(link_ok(tiles, follow(tiles, i, side, (k - 1) as nat), side));
    }
}

proof fn lemma_follow_stops(tiles: Seq<GraphTile>, i: int, side: Side, k: nat, m: nat)
    requires
        k <= m,
        tiles[follow(tiles, i, side, k)].link(side) is None,
    ensures
        follow(tiles, i, side, m) == follow(tiles, i, side, k),
    decreases m,
{
    if m > k {
        lemma_follow_stops(tiles, i, side, k, (m - 1) as nat);
    }
}

/// Why a puzzle could not be solved.
#[derive(Clone, Copy, PartialEq, Eq, Debug, Structural)]
pub enum PuzzleError {
    /// The input text is not a list of square tiles of one size.
    Malformed,
    /// A chain of links does not end: the links close into a loop.
    Unbounded,
    /// The product of the corner identifiers does not fit in 64 bits.
    Overflow,
    /// The arrangement is not a full rectangle of tiles, or the image stitched
    /// from it has no cells.
    NotRectangular,
}

impl Graph {
    /// The last tile on the chain of links on `side` from tile `start`.
    pub fn walk(&self, start: usize, side: Side) -> (r: Option<usize>)
        requires
            self.wf(),
            start < self.tiles@.len(),
        ensures
            r is Some <==> chain_end(self.tiles@, start as int, side) is Some,
            r matches Some(e) ==> chain_end(self.tiles@, start as int, side) == Some(e as int),
            r matches Some(e) ==> e < self.tiles@.len(),
            chain_end(self.tiles@, start as int, side) matches Some(e) ==> 0 <= e < self.tiles@.len(),
    {
        let n = self.tiles.len();
        proof {
            lemma_follow_in_range(self.tiles@, start as int, side, n as nat);
        }
        let mut cur = start;
        let mut k: usize = 0;
        while k < n
            invariant
                self.wf(),
                n == self.tiles@.len(),
                start < n,
                k <= n,
                cur < n,
                cur == follow(self.tiles@, start as int, side, k as nat),
            decreases n - k,
        {
            match self.tiles[cur].neighbor(side) {
                None => {
                    proof {
                        lemma_follow_stops(self.tiles@, start as int, side, k as nat, n as nat);
                    }
                    return Some(cur);
                },
                Some(j) => {
                    assert(link_ok(self.tiles@, cur as int, side));
                    cur = j;
                },
            }
            k += 1;
        }
        if self.tiles[cur].neighbor(side).is_none() {
            Some(cur)
        } else {
            None
        }
    }

    /// Assembles the tiles from the last one, which keeps its orientation, and
    /// returns the index of the top-left tile: the end of the chain upwards from
    /// the anchor, then of the chain leftwards from there.
    pub fn orient(&mut self) -> (r: Result<usize, PuzzleError>)
        requires
            old(self).wf(),
            forall|i: int| 0 <= i < old(self).tiles@.len() ==> #[trigger] unlinked(old(self).tiles@[i]),
        ensures
            final(self).wf(),
            final(self).tiles@.len() == old(self).tiles@.len(),
            final(self).tiles@[0].data@.len() == old(self).tiles@[0].data@.len(),
            exists|placed: Seq<bool>|
                #![trigger assembly_ok(final(self).tiles@, old(self).tiles@, placed, old(self).tiles@[0].data@.len())]
                assembly_ok(final(self).tiles@, old(self).tiles@, placed, old(self).tiles@[0].data@.len())
                && placed[old(self).tiles@.len() - 1]
                && (forall|i: int| 0 <= i < placed.len() && placed[i] ==> #[trigger] closed(final(self).tiles@, old(self).tiles@, placed, i)),
            final(self).tiles@[old(self).tiles@.len() - 1].data@ == old(self).tiles@[old(self).tiles@.len() - 1].data@,
            r matches Ok(tl) ==> top_left_of(final(self).tiles@) == Some(tl as int),
            r is Err ==> top_left_of(final(self).tiles@) is None && r == Err::<usize, PuzzleError>(
                PuzzleError::Unbounded,
            ),
            r matches Ok(tl) ==> tl < final(self).tiles@.len(),
    {
        let anchor = self.tiles.len() - 1;
        let placed = self.orient_inner(anchor);
        assert(assembly_ok(self.tiles@, old(self).tiles@, placed@, old(self).tiles@[0].data@.len()));
        let up = match self.walk(anchor, Side::Top) {
            Some(u) => u,
            None => {
                return Err(PuzzleError::Unbounded);
            },
        };
        match self.walk(up, Side::Left) {
            Some(tl) => Ok(tl),
            None => Err(PuzzleError::Unbounded),
        }
    }

    /// The product of the identifiers of the four corner tiles, found from the
    /// top-left tile by walking right, then down, then left.
    pub fn corner_product(&self, top_left: usize) -> (r: Result<u64, PuzzleError>)
        requires
            self.wf(),
            top_left < self.tiles@.len(),
        ensures
            r == corner_product_spec(self.tiles@, top_left as int),
    {
        let tr = match self.walk(top_left, Side::Right) {
            Some(e) => e,
            None => {
                return Err(PuzzleError::Unbounded);
            },
        };
        assert(chain_end(self.tiles@, top_left as int, Side::Right) == Some(tr as int));
        let br = match self.walk(tr, Side::Bottom) {
            Some(e) => e,
            None => {
                return Err(PuzzleError::Unbounded);
            },
        };
        assert(chain_end(self.tiles@, tr as int, Side::Bottom) == Some(br as int));
        let bl = match self.walk(br, Side::Left) {
            Some(e) => e,
            None => {
                return Err(PuzzleError::Unbounded);
            },
        };
        let a = self.tiles[top_left].id;
        let b = self.tiles[tr].id;
        let c = self.tiles[br].id;
        let d = self.tiles[bl].id;
        if a == 0 || b == 0 || c == 0 || d == 0 {
            assert(a as int * b as int * c as int * d as int == 0) by (nonlinear_arith)
                requires
                    a == 0 || b == 0 || c == 0 || d == 0,
            ;
            return Ok(0);
        }
        let ab = match a.checked_mul(b) {
            Some(v) => v,
            None => {
                proof {
                    lemma_product_grows(a as int, b as int, c as int, d as int);
                }
                return Err(PuzzleError::Overflow);
            },
        };
        let abc = match ab.checked_mul(c) {
            Some(v) => v,
            None => {
                proof {
                    lemma_product_grows(a as int, b as int, c as int, d as int);
                }
                return Err(PuzzleError::Overflow);
            },
        };
        match abc.checked_mul(d) {
            Some(v) => Ok(v),
            None => Err(PuzzleError::Overflow),
        }
    }
}

/// The product of the four corner identifiers, when every walk ends and the
/// product fits in 64 bits.
pub open spec fn corner_product_spec(tiles: Seq<GraphTile>, tl: int) -> Result<u64, PuzzleError> {
    match chain_end(tiles, tl, Side::Right) {
        None => Err(PuzzleError::Unbounded),
        Some(tr) => match chain_end(tiles, tr, Side::Bottom) {
            None => Err(PuzzleError::Unbounded),
            Some(br) => match chain_end(tiles, br, Side::Left) {
                None => Err(PuzzleError::Unbounded),
                Some(bl) => {
                    let p = tiles[tl].id as int * tiles[tr].id as int * tiles[br].id as int
                        * tiles[bl].id as int;
                    if p <= u64::MAX {
                        Ok(p as u64)
                    } else {
                        Err(PuzzleError::Overflow)
                    }
                },
            },
        },
    }
}

/// A product of naturals is at least each partial product, unless a later factor is zero.
proof fn lemma_product_grows(a: int, b: int, c: int, d: int)
    requires
        a >= 0,
        b >= 0,
        c >= 0,
        d >= 0,
    ensures
        a * b > u64::MAX && c > 0 && d > 0 ==> a * b * c * d > u64::MAX,
        a * b * c > u64::MAX && d > 0 ==> a * b * c * d > u64::MAX,
        a * b * c * d > u64::MAX ==> a * b * c > u64::MAX || (a * b * c) * d > u64::MAX,
{
    assert(a * b > u64::MAX && c > 0 && d > 0 ==> a * b * c * d > u64::MAX) by (nonlinear_arith);
    assert(a * b * c > u64::MAX && d > 0 ==> a * b * c * d > u64::MAX) by (nonlinear_arith);
}

/// Row `i` of the stitched image of one row of tiles: row `i` of each tile's
/// interior, left to right, concatenated.
pub open spec fn stitched_row(tiles: Seq<GraphTile>, row: Seq<usize>, i: int) -> Seq<u8> {
    Seq::new(row.len(), |c: int| interior(tiles[row[c] as int].data@)[i]).flatten()
}

/// The `m` image rows contributed by one row of tiles.
pub open spec fn stitched_block(tiles: Seq<GraphTile>, row: Seq<usize>, m: nat) -> Seq<Seq<u8>> {
    Seq::new(m, |i: int| stitched_row(tiles, row, i))
}

/// The image stitched from the interiors of the tiles, laid out row by row.
pub open spec fn stitched(tiles: Seq<GraphTile>, layout: Seq<Seq<usize>>, m: nat) -> Seq<Seq<u8>> {
    Seq::new(layout.len(), |r: int| stitched_block(tiles, layout[r], m)).flatten()
}

/// The arrangement as rows of tile indices: the chain downwards from the top-left
/// tile gives the first tile of each row, and the chain rightwards from each of
/// those gives the row.
pub open spec fn layout_ok(tiles: Seq<GraphTile>, top_left: int, layout: Seq<Seq<usize>>) -> bool {
    &&& layout.len() > 0
    &&& chain_end(tiles, top_left, Side::Bottom) == Some(
        follow(tiles, top_left, Side::Bottom, (layout.len() - 1) as nat),
    )
    &&& linked_until(tiles, top_left, Side::Bottom, layout.len() - 1)
    &&& forall|r: int|
        #![trigger layout[r]]
        0 <= r < layout.len() ==> {
            let start = follow(tiles, top_left, Side::Bottom, r as nat);
            &&& layout[r].len() == layout[0].len()
            &&& layout[r].len() > 0
            &&& chain_end(tiles, start, Side::Right) == Some(
                follow(tiles, start, Side::Right, (layout[r].len() - 1) as nat),
            )
            &&& linked_until(tiles, start, Side::Right, layout[r].len() - 1)
            &&& forall|c: int|
                0 <= c < layout[r].len() ==> #[trigger] layout[r][c] as int == follow(
                    tiles,
                    start,
                    Side::Right,
                    c as nat,
                )
        }
}

/// The first `m` tiles of the chain on `side` from `i` all have a link on `side`.
pub open spec fn linked_until(tiles: Seq<GraphTile>, i: int, side: Side, m: int) -> bool {
    forall|r: int| 0 <= r < m ==> (#[trigger] tiles[follow(tiles, i, side, r as nat)]).link(side) is Some
}

/// A chain ends at one place only: the first tile without a link.
proof fn lemma_end_unique(tiles: Seq<GraphTile>, i: int, side: Side, a: int, b: int)
    requires
        0 <= a,
        0 <= b,
        tiles[follow(tiles, i, side, a as nat)].link(side) is None,
        tiles[follow(tiles, i, side, b as nat)].link(side) is None,
        linked_until(tiles, i, side, a),
        linked_until(tiles, i, side, b),
    ensures
        a == b,
{
    if a < b {
        assert(tiles[follow(tiles, i, side, a as nat)].link(side) is Some);
    } else if b < a {
        assert(tiles[follow(tiles, i, side, b as nat)].link(side) is Some);
    }
}

/// The end that `chain_end` reports has no link on `side`.
proof fn lemma_chain_end_unlinked(tiles: Seq<GraphTile>, i: int, side: Side, m: int)
    requires
        m >= 0,
        chain_end(tiles, i, side) == Some(follow(tiles, i, side, m as nat)),
    ensures
        tiles[follow(tiles, i, side, m as nat)].link(side) is None,
{
}

impl Graph {
    /// The tiles of the chain of links on `side` from `start`, up to its end.
    pub fn chain(&self, start: usize, side: Side) -> (r: Option<Vec<usize>>)
        requires
            self.wf(),
            start < self.tiles@.len(),
        ensures
            r is Some <==> chain_end(self.tiles@, start as int, side) is Some,
            r matches Some(v) ==> {
                &&& v@.len() > 0
                &&& chain_end(self.tiles@, start as int, side) == Some(
                    follow(self.tiles@, start as int, side, (v@.len() - 1) as nat),
                )
                &&& linked_until(self.tiles@, start as int, side, v@.len() - 1)
                &&& forall|k: int|
                    0 <= k < v@.len() ==> #[trigger] v@[k] as int == follow(
                        self.tiles@,
                        start as int,
                        side,
                        k as nat,
                    ) && v@[k] < self.tiles@.len()
            },
    {
        let n = self.tiles.len();
        proof {
            lemma_follow_in_range(self.tiles@, start as int, side, n as nat);
        }
        let mut out: Vec<usize> = Vec::new();
        out.push(start);
        let mut cur = start;
        let mut k: usize = 0;
        while k < n
            invariant
                self.wf(),
                n == self.tiles@.len(),
                start < n,
                k <= n,
                cur < n,
                cur == follow(self.tiles@, start as int, side, k as nat),
                out@.len() == k + 1,
                linked_until(self.tiles@, start as int, side, k as int),
                forall|i: int|
                    0 <= i < out@.len() ==> #[trigger] out@[i] as int == follow(
                        self.tiles@,
                        start as int,
                        side,
                        i as nat,
                    ) && out@[i] < n,
            decreases n - k,
        {
            match self.tiles[cur].neighbor(side) {
                None => {
                    proof {
                        lemma_follow_stops(self.tiles@, start as int, side, k as nat, n as nat);
                    }
                    return Some(out);
                },
                Some(j) => {
                    assert(link_ok(self.tiles@, cur as int, side));
                    assert forall|r: int| 0 <= r < k + 1 implies (#[trigger] self.tiles@[follow(
                        self.tiles@,
                        start as int,
                        side,
                        r as nat,
                    )]).link(side) is Some by {
                        if r < k {
                            assert(linked_until(self.tiles@, start as int, side, k as int));
                        }
                    }
                    cur = j;
                    out.push(j);
                },
            }
            k += 1;
        }
        if self.tiles[cur].neighbor(side).is_none() {
            Some(out)
        } else {
            None
        }
    }

    /// The arrangement as rows of tile indices, from the top-left tile; every row
    /// must hold as many tiles as the first. It fails exactly when no arrangement
    /// of that shape exists: a chain does not end, or the rows differ in length.
    pub fn layout(&self, top_left: usize) -> (r: Result<Vec<Vec<usize>>, PuzzleError>)
        requires
            self.wf(),
            top_left < self.tiles@.len(),
        ensures
            r matches Ok(l) ==> layout_ok(self.tiles@, top_left as int, Seq::new(l@.len(), |i: int| l@[i]@)),
            r matches Ok(l) ==> forall|i: int, c: int| 0 <= i < l@.len() && 0 <= c < l@[i]@.len() ==> #[trigger] l@[i]@[c] < self.tiles@.len(),
            r is Err ==> !exists|l: Seq<Seq<usize>>| #[trigger] layout_ok(self.tiles@, top_left as int, l),
            r matches Err(e) ==> e == PuzzleError::Unbounded || e == PuzzleError::NotRectangular,
    {
        let ghost t = self.tiles@;
        let ghost tl = top_left as int;
        let starts = match self.chain(top_left, Side::Bottom) {
            Some(v) => v,
            None => {
                return Err(PuzzleError::Unbounded);
            },
        };
        proof {
            lemma_chain_end_unlinked(t, tl, Side::Bottom, starts@.len() - 1);
        }
        let mut rows: Vec<Vec<usize>> = Vec::new();
        let mut r: usize = 0;
        while r < starts.len()
            invariant
                self.wf(),
                t == self.tiles@,
                tl == top_left,
                top_left < self.tiles@.len(),
                starts@.len() > 0,
                chain_end(t, tl, Side::Bottom) == Some(follow(t, tl, Side::Bottom, (starts@.len() - 1) as nat)),
                t[follow(t, tl, Side::Bottom, (starts@.len() - 1) as nat)].link(Side::Bottom) is None,
                linked_until(t, tl, Side::Bottom, starts@.len() - 1),
                forall|k: int|
                    0 <= k < starts@.len() ==> #[trigger] starts@[k] as int == follow(
                        self.tiles@,
                        top_left as int,
                        Side::Bottom,
                        k as nat,
                    ) && starts@[k] < self.tiles@.len(),
                r <= starts@.len(),
                rows@.len() == r,
                forall|i: int|
                    #![trigger rows@[i]]
                    0 <= i < r ==> {
                        let start = follow(self.tiles@, top_left as int, Side::Bottom, i as nat);
                        &&& rows@[i]@.len() == rows@[0]@.len()
                        &&& rows@[i]@.len() > 0
                        &&& chain_end(self.tiles@, start, Side::Right) == Some(
                            follow(self.tiles@, start, Side::Right, (rows@[i]@.len() - 1) as nat),
                        )
                        &&& linked_until(self.tiles@, start, Side::Right, rows@[i]@.len() - 1)
                        &&& forall|c: int|
                            0 <= c < rows@[i]@.len() ==> #[trigger] rows@[i]@[c] as int == follow(
                                self.tiles@,
                                start,
                                Side::Right,
                                c as nat,
                            ) && rows@[i]@[c] < self.tiles@.len()
                    },
            decreases starts@.len() - r,
        {
            let ghost start = follow(t, tl, Side::Bottom, r as nat);
            let row = match self.chain(starts[r], Side::Right) {
                Some(v) => v,
                None => {
                    proof {
                        assert forall|l: Seq<Seq<usize>>| !#[trigger] layout_ok(t, tl, l) by {
                            if layout_ok(t, tl, l) {
                                lemma_chain_end_unlinked(t, tl, Side::Bottom, l.len() - 1);
                                lemma_end_unique(t, tl, Side::Bottom, l.len() - 1, starts@.len() - 1);
                                assert(l[r as int].len() > 0);
                            }
                        }
                    }
                    return Err(PuzzleError::Unbounded);
                },
            };
            proof {
                lemma_chain_end_unlinked(t, start, Side::Right, row@.len() - 1);
            }
            if r > 0 && row.len() != rows[0].len() {
                proof {
                    let start0 = follow(t, tl, Side::Bottom, 0);
                    assert(rows@[0]@.len() > 0);
                    lemma_chain_end_unlinked(t, start0, Side::Right, rows@[0]@.len() - 1);
                    assert forall|l: Seq<Seq<usize>>| !#[trigger] layout_ok(t, tl, l) by {
                        if layout_ok(t, tl, l) {
                            lemma_chain_end_unlinked(t, tl, Side::Bottom, l.len() - 1);
                            lemma_end_unique(t, tl, Side::Bottom, l.len() - 1, starts@.len() - 1);
                            assert(l[r as int].len() > 0 && l[0].len() > 0);
                            lemma_chain_end_unlinked(t, start, Side::Right, l[r as int].len() - 1);
                            lemma_end_unique(t, start, Side::Right, l[r as int].len() - 1, row@.len() - 1);
                            lemma_chain_end_unlinked(t, start0, Side::Right, l[0].len() - 1);
                            lemma_end_unique(t, start0, Side::Right, l[0].len() - 1, rows@[0]@.len() - 1);
                        }
                    }
                }
                return Err(PuzzleError::NotRectangular);
            }
            rows.push(row);
            r += 1;
        }
        let ghost lv = Seq::new(rows@.len(), |i: int| rows@[i]@);
        assert forall|i: int| #![trigger lv[i]] 0 <= i < lv.len() implies {
            let start = follow(self.tiles@, top_left as int, Side::Bottom, i as nat);
            &&& lv[i].len() == lv[0].len()
            &&& lv[i].len() > 0
            &&& chain_end(self.tiles@, start, Side::Right) == Some(
                follow(self.tiles@, start, Side::Right, (lv[i].len() - 1) as nat),
            )
            &&& linked_until(self.tiles@, start, Side::Right, lv[i].len() - 1)
            &&& forall|c: int|
                0 <= c < lv[i].len() ==> #[trigger] lv[i][c] as int == follow(
                    self.tiles@,
                    start,
                    Side::Right,
                    c as nat,
                )
        } by {
            assert(lv[i] == rows@[i]@);
        }
        Ok(rows)
    }
}

/// Appends to `image` the rows that one row of tiles contributes: for each row of
/// the tiles' interiors, the rows of the tiles left to right, concatenated.
pub fn process_row(graph: &Graph, row: &Vec<usize>, image: &mut Grid)
    requires
        graph.wf(),
        forall|c: int| 0 <= c < row@.len() ==> #[trigger] row@[c] < graph.tiles@.len(),
    ensures
        final(image)@ == old(image)@ + stitched_block(
            graph.tiles@,
            row@,
            (graph.tiles@[0].data@.len() - 2) as nat,
        ),
{
    let ghost tiles = graph.tiles@;
    assert(tiles[0].wf());
    let m = graph.tiles[0].data.height() - 2;
    let mut inner: Vec<Grid> = Vec::new();
    let mut c: usize = 0;
    while c < row.len()
        invariant
            graph.wf(),
            tiles == graph.tiles@,
            m == tiles[0].data@.len() - 2,
            forall|k: int| 0 <= k < row@.len() ==> #[trigger] row@[k] < tiles.len(),
            c <= row@.len(),
            inner@.len() == c,
            forall|k: int|
                0 <= k < c ==> #[trigger] inner@[k]@ == interior(tiles[row@[k] as int].data@),
        decreases row@.len() - c,
    {
        assert(tiles[row@[c as int] as int].wf());
        inner.push(graph.tiles[row[c]].data());
        c += 1;
    }
    let ghost start = image@;
    let mut i: usize = 0;
    while i < m
        invariant
            graph.wf(),
            tiles == graph.tiles@,
            m == tiles[0].data@.len() - 2,
            forall|k: int| 0 <= k < row@.len() ==> #[trigger] row@[k] < tiles.len(),
            inner@.len() == row@.len(),
            forall|k: int|
                0 <= k < row@.len() ==> #[trigger] inner@[k]@ == interior(tiles[row@[k] as int].data@),
            i <= m,
            image@ == start + Seq::new(i as nat, |k: int| stitched_row(tiles, row@, k)),
        decreases m - i,
    {
        let mut line: Vec<u8> = Vec::new();
        let mut c: usize = 0;
        while c < row.len()
            invariant
                graph.wf(),
                tiles == graph.tiles@,
                m == tiles[0].data@.len() - 2,
                forall|k: int| 0 <= k < row@.len() ==> #[trigger] row@[k] < tiles.len(),
                inner@.len() == row@.len(),
                forall|k: int|
                    0 <= k < row@.len() ==> #[trigger] inner@[k]@ == interior(
                        tiles[row@[k] as int].data@,
                    ),
                i < m,
                c <= row@.len(),
                line@ == Seq::new(c as nat, |k: int| interior(tiles[row@[k] as int].data@)[i as int]).flatten(),
            decreases row@.len() - c,
        {
            assert(tiles[row@[c as int] as int].wf());
            assert(tiles[row@[c as int] as int].data@.len() == tiles[0].data@.len());
            assert(inner@[c as int]@.len() == m);
            let mut piece = inner[c].rows[i].clone();
            proof {
                let f = |k: int| interior(tiles[row@[k] as int].data@)[i as int];
                assert(Seq::new((c + 1) as nat, f) =~= Seq::new(c as nat, f).push(f(c as int)));
                Seq::<Seq<u8>>::lemma_flatten_push(Seq::new(c as nat, f), f(c as int));
                assert(inner@[c as int]@[i as int] == f(c as int));
            }
            line.append(&mut piece);
            c += 1;
        }
        proof {
            assert(Seq::new(row@.len(), |k: int| interior(tiles[row@[k] as int].data@)[i as int]) =~= Seq::new(c as nat, |k: int| interior(tiles[row@[k] as int].data@)[i as int]));
            assert(line@ == stitched_row(tiles, row@, i as int));
        }
        let ghost before = image@;
        let ghost line_v = line@;
        image.rows.push(line);
        proof {
            assert(image@ =~= before.push(line_v));
            assert(image@ =~= start + Seq::new((i + 1) as nat, |k: int| stitched_row(tiles, row@, k)));
        }
        i += 1;
    }
    assert(image@ =~= start + stitched_block(tiles, row@, m as nat));
}

/// The byte of a marked cell.
pub const MARK: u8 = 35;

/// The cells of the sea monster pattern, as (row, column) offsets from the top-left
/// corner of its three-row, twenty-column bounding box.
pub open spec fn monster_cells() -> Seq<(int, int)> {
    seq![
        (0, 18),
        (1, 0),
        (1, 5),
        (1, 6),
        (1, 11),
        (1, 12),
        (1, 17),
        (1, 18),
        (1, 19),
        (2, 1),
        (2, 4),
        (2, 7),
        (2, 10),
        (2, 13),
        (2, 16),
    ]
}

/// Number of columns `x` at which the pattern's box fits.
pub open spec fn x_bound(g: Seq<Seq<u8>>) -> int {
    if width(g) >= 20 {
        width(g) - 19
    } else {
        0
    }
}

/// Number of rows `y` at which the pattern's box fits.
pub open spec fn y_bound(g: Seq<Seq<u8>>) -> int {
    if g.len() >= 3 {
        g.len() - 2
    } else {
        0
    }
}

/// With its box's top-left corner at column `x`, row `y`, every cell of the
/// pattern falls on a marked cell.
pub open spec fn monster_at(g: Seq<Seq<u8>>, x: int, y: int) -> bool {
    forall|k: int|
        0 <= k < 15 ==> #[trigger] g[y + monster_cells()[k].0][x + monster_cells()[k].1] == MARK
}

pub open spec fn placement(g: Seq<Seq<u8>>, x: int, y: int) -> bool {
    0 <= x < x_bound(g) && 0 <= y < y_bound(g) && monster_at(g, x, y)
}

pub open spec fn has_monster(g: Seq<Seq<u8>>) -> bool {
    exists|x: int, y: int| #[trigger] placement(g, x, y)
}

/// Cell (`r`, `c`) is part of some found pattern instance.
pub open spec fn covered(g: Seq<Seq<u8>>, r: int, c: int) -> bool {
    exists|k: int|
        0 <= k < 15 && #[trigger] placement(
            g,
            c - monster_cells()[k].1,
            r - monster_cells()[k].0,
        )
}

/// The cell is marked, and, when `only_rough`, not part of a pattern instance.
pub open spec fn counted(g: Seq<Seq<u8>>, r: int, c: int, only_rough: bool) -> bool {
    g[r][c] == MARK && (!only_rough || !covered(g, r, c))
}

pub open spec fn count_row(g: Seq<Seq<u8>>, r: int, c: nat, only_rough: bool) -> nat
    decreases c,
{
    if c == 0 {
        0
    } else {
        count_row(g, r, (c - 1) as nat, only_rough) + if counted(g, r, c - 1, only_rough) {
            1nat
        } else {
            0nat
        }
    }
}

/// Counted cells in the first `h` rows.
pub open spec fn count_grid(g: Seq<Seq<u8>>, h: nat, only_rough: bool) -> nat
    decreases h,
{
    if h == 0 {
        0
    } else {
        count_grid(g, (h - 1) as nat, only_rough) + count_row(
            g,
            h - 1,
            width(g) as nat,
            only_rough,
        )
    }
}

pub open spec fn marked_count(g: Seq<Seq<u8>>) -> nat {
    count_grid(g, g.len(), false)
}

/// Marked cells that no pattern instance covers.
pub open spec fn roughness_of(g: Seq<Seq<u8>>) -> nat {
    count_grid(g, g.len(), true)
}

/// The search over orientations `o`, `o + 1`, ...: the first one holding the
/// pattern gives its uncovered marked cells; with none, all marked cells count.
pub open spec fn search_from(g: Seq<Seq<u8>>, o: nat) -> nat
    decreases 8 - o,
{
    if o >= 8 {
        marked_count(g)
    } else if has_monster(orientation(g, o)) {
        roughness_of(orientation(g, o))
    } else {
        search_from(g, o + 1)
    }
}

pub open spec fn water_roughness(g: Seq<Seq<u8>>) -> nat {
    search_from(g, 0)
}

proof fn lemma_count_row_bound(g: Seq<Seq<u8>>, r: int, c: nat, only_rough: bool)
    ensures
        count_row(g, r, c, only_rough) <= c,
    decreases c,
{
    if c > 0 {
        lemma_count_row_bound(g, r, (c - 1) as nat, only_rough);
    }
}

proof fn lemma_count_grid_bound(g: Seq<Seq<u8>>, h: nat, only_rough: bool)
    ensures
        count_grid(g, h, only_rough) <= h * width(g),
    decreases h,
{
    if h > 0 {
        lemma_count_grid_bound(g, (h - 1) as nat, only_rough);
        lemma_count_row_bound(g, h - 1, width(g) as nat, only_rough);
        let w = width(g);
        assert((h - 1) * w + w == h * w) by (nonlinear_arith);
    }
}

proof fn lemma_rotated_area(g: Seq<Seq<u8>>, k: nat)
    requires
        is_rect(g),
    ensures
        rotated(g, k).len() * width(rotated(g, k)) == g.len() * width(g),
        is_rect(rotated(g, k)),
    decreases k,
{
    if k > 0 {
        lemma_rot_cw_shape(g);
        lemma_rotated_area(rot_cw(g), (k - 1) as nat);
        assert(width(g) * g.len() == g.len() * width(g)) by (nonlinear_arith);
    }
}

proof fn lemma_orientation_area(g: Seq<Seq<u8>>, o: nat)
    requires
        is_rect(g),
    ensures
        orientation(g, o).len() * width(orientation(g, o)) == g.len() * width(g),
        is_rect(orientation(g, o)),
{
    lemma_mirror_h_shape(g);
    lemma_rotated_area(g, o);
    lemma_rotated_area(mirror_h(g), (o - 4) as nat);
}

/// An image in which no orientation holds the pattern keeps its full count of
/// marked cells.
pub proof fn lemma_no_monster_keeps_total(g: Seq<Seq<u8>>)
    requires
        forall|o: nat| o < 8 ==> !has_monster(#[trigger] orientation(g, o)),
    ensures
        water_roughness(g) == marked_count(g),
{
    reveal_with_fuel(search_from, 9);
    assert(!has_monster(orientation(g, 0)));
    assert(!has_monster(orientation(g, 1)));
    assert(!has_monster(orientation(g, 2)));
    assert(!has_monster(orientation(g, 3)));
    assert(!has_monster(orientation(g, 4)));
    assert(!has_monster(orientation(g, 5)));
    assert(!has_monster(orientation(g, 6)));
    assert(!has_monster(orientation(g, 7)));
}

/// The sea monster pattern.
pub struct Monster;

impl Monster {
    /// The pattern's cells as (row, column) offsets.
    pub fn offsets(&self) -> (r: Vec<(usize, usize)>)
        ensures
            r@.len() == 15,
            forall|k: int|
                0 <= k < 15 ==> (#[trigger] r@[k]).0 as int == monster_cells()[k].0 && r@[k].1 as int
                    == monster_cells()[k].1,
    {
        let r = vec![
            (0usize, 18usize),
            (1, 0),
            (1, 5),
            (1, 6),
            (1, 11),
            (1, 12),
            (1, 17),
            (1, 18),
            (1, 19),
            (2, 1),
            (2, 4),
            (2, 7),
            (2, 10),
            (2, 13),
            (2, 16),
        ];
        assert(r@ == seq![
            (0usize, 18usize),
            (1usize, 0usize),
            (1usize, 5usize),
            (1usize, 6usize),
            (1usize, 11usize),
            (1usize, 12usize),
            (1usize, 17usize),
            (1usize, 18usize),
            (1usize, 19usize),
            (2usize, 1usize),
            (2usize, 4usize),
            (2usize, 7usize),
            (2usize, 10usize),
            (2usize, 13usize),
            (2usize, 16usize),
        ]);
        r
    }

    /// The cells, as (column, row), of the pattern with its box's top-left
    /// corner at column `x`, row `y`.
    pub fn points(&self, x: usize, y: usize) -> (r: Vec<(usize, usize)>)
        requires
            x + 19 <= usize::MAX,
            y + 2 <= usize::MAX,
        ensures
            r@.len() == 15,
            forall|k: int|
                0 <= k < 15 ==> (#[trigger] r@[k]).0 as int == x + monster_cells()[k].1 && r@[k].1 as int
                    == y + monster_cells()[k].0,
    {
        let offs = self.offsets();
        let mut r: Vec<(usize, usize)> = Vec::new();
        let mut k: usize = 0;
        while k < 15
            invariant
                offs@.len() == 15,
                forall|k: int|
                    0 <= k < 15 ==> (#[trigger] offs@[k]).0 as int == monster_cells()[k].0
                        && offs@[k].1 as int == monster_cells()[k].1,
                x + 19 <= usize::MAX,
                y + 2 <= usize::MAX,
                k <= 15,
                r@.len() == k,
                forall|j: int|
                    0 <= j < k ==> (#[trigger] r@[j]).0 as int == x + monster_cells()[j].1 && r@[j].1 as int
                        == y + monster_cells()[j].0,
            decreases 15 - k,
        {
            let (dr, dc) = offs[k];
            assert(0 <= monster_cells()[k as int].0 <= 2 && 0 <= monster_cells()[k as int].1 <= 19);
            r.push((x + dc, y + dr));
            k += 1;
        }
        r
    }
}

/// The composite image stitched from the tiles' interiors.
pub struct Image {
    pub data: Grid,
}

impl Image {
    pub open spec fn wf(&self) -> bool {
        is_rect(self.data@)
    }

    /// How many columns and how many rows the pattern's box can start at.
    pub fn get_bounds(&self) -> (r: (usize, usize))
        requires
            self.wf(),
        ensures
            r.0 as int == x_bound(self.data@),
            r.1 as int == y_bound(self.data@),
    {
        let w = self.data.width();
        let h = self.data.height();
        let xb = if w >= 20 {
            w - 19
        } else {
            0
        };
        let yb = if h >= 3 {
            h - 2
        } else {
            0
        };
        (xb, yb)
    }

    /// Whether the pattern, with its box at column `x`, row `y`, lies on marked cells.
    pub fn is_monster(&self, x: usize, y: usize) -> (r: bool)
        requires
            self.wf(),
            x < x_bound(self.data@),
            y < y_bound(self.data@),
        ensures
            r == monster_at(self.data@, x as int, y as int),
    {
        let w = self.data.width();
        let h = self.data.height();
        assert(x + 19 < w && y + 2 < h);
        let pts = Monster.points(x, y);
        let mut k: usize = 0;
        while k < 15
            invariant
                self.wf(),
                x < x_bound(self.data@),
                y < y_bound(self.data@),
                pts@.len() == 15,
                forall|j: int|
                    0 <= j < 15 ==> (#[trigger] pts@[j]).0 as int == x + monster_cells()[j].1
                        && pts@[j].1 as int == y + monster_cells()[j].0,
                k <= 15,
                forall|j: int|
                    0 <= j < k ==> #[trigger] self.data@[y + monster_cells()[j].0][x
                        + monster_cells()[j].1] == MARK,
            decreases 15 - k,
        {
            let (x1, y1) = pts[k];
            assert(0 <= monster_cells()[k as int].0 <= 2 && 0 <= monster_cells()[k as int].1 <= 19);
            if self.data.get(y1, x1) != MARK {
                return false;
            }
            k += 1;
        }
        true
    }

    /// Whether the pattern occurs anywhere in the image as it stands.
    pub fn has_monster(&self) -> (r: bool)
        requires
            self.wf(),
        ensures
            r == has_monster(self.data@),
    {
        let (xb, yb) = self.get_bounds();
        let mut y: usize = 0;
        while y < yb
            invariant
                self.wf(),
                xb == x_bound(self.data@),
                yb == y_bound(self.data@),
                y <= yb,
                forall|xx: int, yy: int| 0 <= yy < y ==> !#[trigger] placement(self.data@, xx, yy),
            decreases yb - y,
        {
            let mut x: usize = 0;
            while x < xb
                invariant
                    self.wf(),
                    xb == x_bound(self.data@),
                    yb == y_bound(self.data@),
                    y < yb,
                    x <= xb,
                    forall|xx: int, yy: int| 0 <= yy < y ==> !#[trigger] placement(self.data@, xx, yy),
                    forall|xx: int| 0 <= xx < x ==> !#[trigger] placement(self.data@, xx, y as int),
                decreases xb - x,
            {
                if self.is_monster(x, y) {
                    assert(placement(self.data@, x as int, y as int));
                    return true;
                }
                x += 1;
            }
            y += 1;
        }
        false
    }

    /// Whether cell (`r`, `c`) belongs to a pattern instance.
    pub fn is_covered(&self, r: usize, c: usize) -> (res: bool)
        requires
            self.wf(),
        ensures
            res == covered(self.data@, r as int, c as int),
    {
        let offs = Monster.offsets();
        let (xb, yb) = self.get_bounds();
        let mut k: usize = 0;
        while k < 15
            invariant
                self.wf(),
                xb == x_bound(self.data@),
                yb == y_bound(self.data@),
                offs@.len() == 15,
                forall|j: int|
                    0 <= j < 15 ==> (#[trigger] offs@[j]).0 as int == monster_cells()[j].0
                        && offs@[j].1 as int == monster_cells()[j].1,
                k <= 15,
                forall|j: int|
                    0 <= j < k ==> !#[trigger] placement(
                        self.data@,
                        c - monster_cells()[j].1,
                        r - monster_cells()[j].0,
                    ),
            decreases 15 - k,
        {
            let (dr, dc) = offs[k];
            if r >= dr && c >= dc {
                let y = r - dr;
                let x = c - dc;
                if x < xb && y < yb && self.is_monster(x, y) {
                    assert(placement(self.data@, x as int, y as int));
                    return true;
                }
            }
            k += 1;
        }
        false
    }

    /// For each cell, whether it belongs to a pattern instance.
    pub fn find_monsters(&self) -> (r: Vec<Vec<bool>>)
        requires
            self.wf(),
        ensures
            r@.len() == self.data@.len(),
            forall|i: int|
                0 <= i < r@.len() ==> (#[trigger] r@[i])@.len() == width(self.data@),
            forall|i: int, j: int|
                0 <= i < r@.len() && 0 <= j < width(self.data@) ==> (#[trigger] r@[i]@[j]) == covered(
                    self.data@,
                    i,
                    j,
                ),
    {
        let h = self.data.height();
        let w = self.data.width();
        let mut out: Vec<Vec<bool>> = Vec::new();
        let mut i: usize = 0;
        while i < h
            invariant
                self.wf(),
                h == self.data@.len(),
                w == width(self.data@),
                i <= h,
                out@.len() == i,
                forall|k: int| 0 <= k < i ==> (#[trigger] out@[k])@.len() == w,
                forall|k: int, j: int|
                    0 <= k < i && 0 <= j < w ==> (#[trigger] out@[k]@[j]) == covered(self.data@, k, j),
            decreases h - i,
        {
            let mut row: Vec<bool> = Vec::new();
            let mut j: usize = 0;
            while j < w
                invariant
                    self.wf(),
                    h == self.data@.len(),
                    w == width(self.data@),
                    i < h,
                    j <= w,
                    row@.len() == j,
                    forall|k: int| 0 <= k < j ==> #[trigger] row@[k] == covered(self.data@, i as int, k),
                decreases w - j,
            {
                row.push(self.is_covered(i, j));
                j += 1;
            }
            out.push(row);
            i += 1;
        }
        out
    }

    /// The number of marked cells, or, when `only_rough`, of marked cells outside
    /// every pattern instance.
    pub fn count(&self, only_rough: bool) -> (r: usize)
        requires
            self.wf(),
            self.data@.len() * width(self.data@) <= usize::MAX,
        ensures
            r == count_grid(self.data@, self.data@.len(), only_rough),
    {
        let h = self.data.height();
        let w = self.data.width();
        let mut total: usize = 0;
        let mut i: usize = 0;
        while i < h
            invariant
                self.wf(),
                h == self.data@.len(),
                w == width(self.data@),
                h * w <= usize::MAX,
                i <= h,
                total == count_grid(self.data@, i as nat, only_rough),
            decreases h - i,
        {
            let mut j: usize = 0;
            proof {
                lemma_count_grid_bound(self.data@, (i + 1) as nat, only_rough);
                assert((i + 1) * w <= h * w) by (nonlinear_arith)
                    requires
                        i + 1 <= h,
                ;
            }
            while j < w
                invariant
                    self.wf(),
                    h == self.data@.len(),
                    w == width(self.data@),
                    i < h,
                    j <= w,
                    count_grid(self.data@, (i + 1) as nat, only_rough) <= usize::MAX,
                    total == count_grid(self.data@, i as nat, only_rough) + count_row(
                        self.data@,
                        i as int,
                        j as nat,
                        only_rough,
                    ),
                decreases w - j,
            {
                proof {
                    lemma_count_row_mono(self.data@, i as int, (j + 1) as nat, w as nat, only_rough);
                }
                if self.data.get(i, j) == MARK {
                    if !only_rough || !self.is_covered(i, j) {
                        total += 1;
                    }
                }
                j += 1;
            }
            i += 1;
        }
        total
    }

    /// The marked cells outside every pattern instance, in the first of the eight
    /// orientations of the image that holds the pattern; all marked cells when
    /// none does.
    pub fn roughness(&self) -> (r: usize)
        requires
            self.wf(),
            self.data@.len() * width(self.data@) <= usize::MAX,
        ensures
            r == water_roughness(self.data@),
    {
        let mut o: usize = 0;
        while o < 8
            invariant
                self.wf(),
                self.data@.len() * width(self.data@) <= usize::MAX,
                o <= 8,
                water_roughness(self.data@) == search_from(self.data@, o as nat),
            decreases 8 - o,
        {
            proof {
                lemma_orientation_area(self.data@, o as nat);
            }
            let view = Image { data: self.data.oriented(o) };
            if view.has_monster() {
                return view.count(true);
            }
            o += 1;
        }
        self.count(false)
    }
}

proof fn lemma_count_row_mono(g: Seq<Seq<u8>>, r: int, a: nat, b: nat, only_rough: bool)
    requires
        a <= b,
    ensures
        count_row(g, r, a, only_rough) <= count_row(g, r, b, only_rough),
    decreases b,
{
    if b > a {
        lemma_count_row_mono(g, r, a, (b - 1) as nat, only_rough);
    }
}

/// The byte of an unmarked cell.
pub const BLANK: u8 = 46;

/// The identifier in a header line `Tile <digits>:`.
pub open spec fn header_id(line: Seq<u8>) -> Option<u64> {
    if line.len() >= 7 && line.subrange(0, 5) == seq![84u8, 105u8, 108u8, 101u8, 32u8]
        && line.last() == 58 {
        number_of(line.subrange(5, line.len() - 1))
    } else {
        None
    }
}

/// Reads a tile header line.
pub fn parse_header(line: &Vec<u8>) -> (r: Option<u64>)
    ensures
        r == header_id(line@),
{
    let n = line.len();
    if n < 7 || line[0] != 84 || line[1] != 105 || line[2] != 108 || line[3] != 101 || line[4] != 32
        || line[n - 1] != 58 {
        proof {
            if n >= 7 && line@.subrange(0, 5) == seq![84u8, 105u8, 108u8, 101u8, 32u8] {
                assert(line@.subrange(0, 5)[0] == line@[0]);
                assert(line@.subrange(0, 5)[1] == line@[1]);
                assert(line@.subrange(0, 5)[2] == line@[2]);
                assert(line@.subrange(0, 5)[3] == line@[3]);
                assert(line@.subrange(0, 5)[4] == line@[4]);
            }
        }
        return None;
    }
    assert(line@.subrange(0, 5) =~= seq![84u8, 105u8, 108u8, 101u8, 32u8]);
    parse_u64(line.as_slice(), 5, n - 1)
}

/// Every row as long as there are rows, at least two, all cells marked or blank.
pub open spec fn valid_cells(rows: Seq<Seq<u8>>) -> bool {
    &&& rows.len() >= 2
    &&& forall|i: int| 0 <= i < rows.len() ==> #[trigger] rows[i].len() == rows.len()
    &&& forall|i: int, j: int|
        0 <= i < rows.len() && 0 <= j < rows[i].len() ==> #[trigger] rows[i][j] == MARK || rows[i][j]
            == BLANK
}

/// Checks that the rows form a square tile of marked and blank cells.
pub fn check_cells(rows: &Vec<Vec<u8>>) -> (r: bool)
    ensures
        r == valid_cells(Seq::new(rows@.len(), |i: int| rows@[i]@)),
{
    let ghost v = Seq::new(rows@.len(), |i: int| rows@[i]@);
    let n = rows.len();
    if n < 2 {
        return false;
    }
    let mut i: usize = 0;
    while i < n
        invariant
            n == rows@.len(),
            v == Seq::new(rows@.len(), |i: int| rows@[i]@),
            i <= n,
            forall|k: int| 0 <= k < i ==> #[trigger] v[k].len() == n,
            forall|k: int, j: int|
                0 <= k < i && 0 <= j < v[k].len() ==> #[trigger] v[k][j] == MARK || v[k][j] == BLANK,
        decreases n - i,
    {
        if rows[i].len() != n {
            assert(v[i as int].len() != n);
            return false;
        }
        let mut j: usize = 0;
        while j < n
            invariant
                n == rows@.len(),
                v == Seq::new(rows@.len(), |i: int| rows@[i]@),
                i < n,
                v[i as int].len() == n,
                j <= n,
                forall|jj: int| 0 <= jj < j ==> #[trigger] v[i as int][jj] == MARK || v[i as int][jj] == BLANK,
            decreases n - j,
        {
            let b = rows[i][j];
            if b != MARK && b != BLANK {
                assert(v[i as int][j as int] == b);
                return false;
            }
            j += 1;
        }
        i += 1;
    }
    true
}

/// The first index at or after `j` of an empty line, or the number of lines.
pub open spec fn block_end(lines: Seq<Seq<u8>>, j: int) -> int
    decreases lines.len() - j,
{
    if j >= lines.len() || lines[j].len() == 0 {
        j
    } else {
        block_end(lines, j + 1)
    }
}

proof fn lemma_block_end(lines: Seq<Seq<u8>>, j: int)
    ensures
        block_end(lines, j) >= j,
        j <= lines.len() ==> block_end(lines, j) <= lines.len(),
    decreases lines.len() - j,
{
    if !(j >= lines.len() || lines[j].len() == 0) {
        lemma_block_end(lines, j + 1);
    }
}

/// The tiles written in `lines[i..]`, as identifier and rows: empty lines are
/// skipped, and each tile is a header line followed by its rows up to the next
/// empty line. `None` when a header or a tile's cells are malformed.
pub open spec fn tiles_from(lines: Seq<Seq<u8>>, i: int) -> Option<Seq<(u64, Seq<Seq<u8>>)>>
    decreases lines.len() - i via tiles_from_decreases
{
    if i >= lines.len() {
        Some(Seq::empty())
    } else if lines[i].len() == 0 {
        tiles_from(lines, i + 1)
    } else {
        match header_id(lines[i]) {
            None => None,
            Some(id) => {
                let e = block_end(lines, i + 1);
                let rows = lines.subrange(i + 1, e);
                if !valid_cells(rows) {
                    None
                } else {
                    match tiles_from(lines, e) {
                        None => None,
                        Some(rest) => Some(seq![(id, rows)] + rest),
                    }
                }
            },
        }
    }
}

#[via_fn]
proof fn tiles_from_decreases(lines: Seq<Seq<u8>>, i: int) {
    lemma_block_end(lines, i + 1);
}

/// At least one tile, all of one size.
pub open spec fn tiles_ok_spec(ts: Seq<(u64, Seq<Seq<u8>>)>) -> bool {
    ts.len() > 0 && forall|k: int| 0 <= k < ts.len() ==> #[trigger] ts[k].1.len() == ts[0].1.len()
}

/// What the tiles read from `done` and those still to read from line `i` make.
pub open spec fn prepend(done: Seq<(u64, Seq<Seq<u8>>)>, rest: Option<Seq<(u64, Seq<Seq<u8>>)>>) -> Option<
    Seq<(u64, Seq<Seq<u8>>)>,
> {
    match rest {
        None => None,
        Some(r) => Some(done + r),
    }
}

pub open spec fn tile_pairs(tiles: Seq<GraphTile>) -> Seq<(u64, Seq<Seq<u8>>)> {
    Seq::new(tiles.len(), |k: int| (tiles[k].id, tiles[k].data@))
}

impl Graph {
    /// Reads the tiles: blocks of a header line `Tile <id>:` followed by the rows
    /// of cells, separated by empty lines. Every tile must be square, of marked and
    /// blank cells, and of the same size as the others, with at least one tile.
    pub fn parse(input: &str) -> (r: Result<Graph, PuzzleError>)
        ensures
            r is Ok <==> well_formed_input(input),
            r matches Ok(g) ==> read_from(input, g.tiles@),
            r matches Ok(g) ==> g.wf() && forall|i: int|
                0 <= i < g.tiles@.len() ==> #[trigger] unlinked(g.tiles@[i]),
            r matches Err(e) ==> e == PuzzleError::Malformed,
    {
        let lines = split_lines(input.as_bytes());
        let ghost lv = lines_spec(input.spec_bytes());
        let mut tiles: Vec<GraphTile> = Vec::new();
        let mut i: usize = 0;
        assert(tile_pairs(tiles@) + Seq::empty() =~= tile_pairs(tiles@));
        assert(prepend(tile_pairs(tiles@), tiles_from(lv, 0)) == tiles_from(lv, 0)) by {
            match tiles_from(lv, 0) {
                None => {},
                Some(r) => {
                    assert(tile_pairs(tiles@) + r =~= r);
                },
            }
        }
        while i < lines.len()
            invariant
                lv == Seq::new(lines@.len(), |k: int| lines@[k]@),
                lv == lines_spec(input.spec_bytes()),
                i <= lines@.len(),
                forall|k: int| 0 <= k < tiles@.len() ==> #[trigger] unlinked(tiles@[k]),
                forall|k: int| 0 <= k < tiles@.len() ==> valid_cells(#[trigger] tiles@[k].data@),
                forall|k: int| 0 <= k < tiles@.len() ==> (#[trigger] tiles@[k]).data@.len() == tiles@[0].data@.len(),
                tiles_from(lv, 0) == prepend(tile_pairs(tiles@), tiles_from(lv, i as int)),
            decreases lines@.len() - i,
        {
            assert(lv[i as int] == lines@[i as int]@);
            if lines[i].len() == 0 {
                i += 1;
                continue;
            }
            let id = match parse_header(&lines[i]) {
                Some(v) => v,
                None => {
                    assert(tiles_from(lv, i as int) is None);
                    assert(tiles_from(lv, 0) is None);
                    return Err(PuzzleError::Malformed);
                },
            };
            let ghost h = i as int;
            i += 1;
            let ghost i1 = i as int;
            let mut rows: Vec<Vec<u8>> = Vec::new();
            while i < lines.len() && lines[i].len() > 0
                invariant
                    lv == Seq::new(lines@.len(), |k: int| lines@[k]@),
                    lv.len() == lines@.len(),
                    0 <= i1 <= i <= lines@.len(),
                    block_end(lv, i1) == block_end(lv, i as int),
                    Seq::new(rows@.len(), |k: int| rows@[k]@) == lv.subrange(i1, i as int),
                decreases lines@.len() - i,
            {
                assert(lv[i as int] == lines@[i as int]@);
                let ghost prev = Seq::new(rows@.len(), |k: int| rows@[k]@);
                rows.push(lines[i].clone());
                assert(rows@[rows@.len() - 1]@ == lv[i as int]);
                assert(Seq::new(rows@.len(), |k: int| rows@[k]@) =~= prev.push(lv[i as int]));
                i += 1;
                assert(Seq::new(rows@.len(), |k: int| rows@[k]@) =~= lv.subrange(i1, i as int));
            }
            proof {
                if i < lines@.len() {
                    assert(lv[i as int] == lines@[i as int]@);
                }
                assert(block_end(lv, i as int) == i);
            }
            if !check_cells(&rows) {
                assert(tiles_from(lv, h) is None);
                assert(tiles_from(lv, 0) is None);
                return Err(PuzzleError::Malformed);
            }
            let ghost rv = Seq::new(rows@.len(), |k: int| rows@[k]@);
            if tiles.len() > 0 && rows.len() != tiles[0].data.height() {
                proof {
                    match tiles_from(lv, i as int) {
                        None => {},
                        Some(rest) => {
                            let all = tile_pairs(tiles@) + (seq![(id, rv)] + rest);
                            assert(all[tiles@.len() as int].1.len() != all[0].1.len());
                        },
                    }
                }
                return Err(PuzzleError::Malformed);
            }
            let ghost before = tile_pairs(tiles@);
            let tile = GraphTile::new(id, Grid { rows });
            tiles.push(tile);
            proof {
                assert(tile_pairs(tiles@) =~= before.push((id, rv)));
                match tiles_from(lv, i as int) {
                    None => {},
                    Some(rest) => {
                        assert(before + (seq![(id, rv)] + rest) =~= before.push((id, rv)) + rest);
                    },
                }
                assert(tiles@[tiles@.len() - 1].data@ == rv);
            }
        }
        if tiles.len() == 0 {
            return Err(PuzzleError::Malformed);
        }
        proof {
            assert(tile_pairs(tiles@) + Seq::empty() =~= tile_pairs(tiles@));
        }
        let g = Graph { tiles };
        assert forall|k: int| 0 <= k < g.tiles@.len() implies #[trigger] g.tiles@[k].wf() && g.tiles@[k].data@.len() == g.tiles@[0].data@.len() by {
            assert(valid_cells(g.tiles@[k].data@));
        }
        assert forall|k: int, side: Side| 0 <= k < g.tiles@.len() implies #[trigger] link_ok(g.tiles@, k, side) by {
            assert(unlinked(g.tiles@[k]));
        }
        proof {
            let ts = tile_pairs(g.tiles@);
            assert forall|k: int| 0 <= k < ts.len() implies #[trigger] ts[k].1.len() == ts[0].1.len() by {
                assert(g.tiles@[k].data@.len() == g.tiles@[0].data@.len());
            }
        }
        Ok(g)
    }
}

/// `tiles` is the finished assembly of `orig` from its last tile: consistent links,
/// each tile in an orientation of its cells as read, the anchor unturned, and no open
/// side of a placed tile with a tile that could be linked there.
pub open spec fn assembled(tiles: Seq<GraphTile>, orig: Seq<GraphTile>) -> bool {
    &&& tiles.len() == orig.len()
    &&& tiles.len() > 0
    &&& tiles[tiles.len() - 1].data@ == orig[orig.len() - 1].data@
    &&& exists|placed: Seq<bool>|
        #![trigger assembly_ok(tiles, orig, placed, orig[0].data@.len())]
        assembly_ok(tiles, orig, placed, orig[0].data@.len()) && placed[orig.len() - 1] && (forall|i: int|
            0 <= i < placed.len() && placed[i] ==> #[trigger] closed(tiles, orig, placed, i))
}

/// The top-left tile of an assembly: the end of the chain upwards from the anchor,
/// then of the chain leftwards from there.
pub open spec fn top_left_of(tiles: Seq<GraphTile>) -> Option<int> {
    match chain_end(tiles, tiles.len() - 1, Side::Top) {
        None => None,
        Some(up) => chain_end(tiles, up, Side::Left),
    }
}

/// The input text reads as a list of tiles, at least one, all of one size.
pub open spec fn well_formed_input(input: &str) -> bool {
    tiles_from(lines_spec(input.spec_bytes()), 0) matches Some(ts) && tiles_ok_spec(ts)
}

/// `orig` holds the tiles that the input text lists, in order.
pub open spec fn read_from(input: &str, orig: Seq<GraphTile>) -> bool {
    Some(tile_pairs(orig)) == tiles_from(lines_spec(input.spec_bytes()), 0)
}

impl Image {
    /// Stitches the interiors of the tiles together, row of tiles by row of tiles,
    /// from the top-left tile.
    pub fn from_graph(graph: &Graph, top_left: usize) -> (r: Result<Image, PuzzleError>)
        requires
            graph.wf(),
            top_left < graph.tiles@.len(),
        ensures
            r matches Ok(img) ==> exists|layout: Seq<Seq<usize>>|
                #[trigger] layout_ok(graph.tiles@, top_left as int, layout) && img.data@ == stitched(
                    graph.tiles@,
                    layout,
                    (graph.tiles@[0].data@.len() - 2) as nat,
                ),
            r is Err ==> !exists|l: Seq<Seq<usize>>| #[trigger] layout_ok(graph.tiles@, top_left as int, l),
            r matches Err(e) ==> e == PuzzleError::Unbounded || e == PuzzleError::NotRectangular,
    {
        let layout = match graph.layout(top_left) {
            Ok(l) => l,
            Err(e) => {
                return Err(e);
            },
        };
        let ghost lv = Seq::new(layout@.len(), |i: int| layout@[i]@);
        let ghost tiles = graph.tiles@;
        let ghost m = (graph.tiles@[0].data@.len() - 2) as nat;
        let mut image = Grid { rows: Vec::new() };
        let mut r: usize = 0;
        assert(image@ =~= stitched(tiles, lv.subrange(0, 0), m));
        while r < layout.len()
            invariant
                graph.wf(),
                tiles == graph.tiles@,
                m == (tiles[0].data@.len() - 2) as nat,
                lv == Seq::new(layout@.len(), |i: int| layout@[i]@),
                forall|i: int, c: int| 0 <= i < layout@.len() && 0 <= c < layout@[i]@.len() ==> #[trigger] layout@[i]@[c] < tiles.len(),
                r <= layout@.len(),
                image@ == stitched(tiles, lv.subrange(0, r as int), m),
            decreases layout@.len() - r,
        {
            process_row(graph, &layout[r], &mut image);
            proof {
                let pre = lv.subrange(0, r as int);
                let post = lv.subrange(0, r + 1);
                assert(Seq::new(post.len(), |k: int| stitched_block(tiles, post[k], m)) =~= Seq::new(
                    pre.len(),
                    |k: int| stitched_block(tiles, pre[k], m),
                ).push(stitched_block(tiles, lv[r as int], m)));
                Seq::<Seq<Seq<u8>>>::lemma_flatten_push(
                    Seq::new(pre.len(), |k: int| stitched_block(tiles, pre[k], m)),
                    stitched_block(tiles, lv[r as int], m),
                );
            }
            r += 1;
        }
        assert(lv.subrange(0, r as int) =~= lv);
        Ok(Image { data: image })
    }
}

/// What the first part owes for an assembly: the corner product from its
/// top-left tile, or `Unbounded` when the walk to that tile does not end.
pub open spec fn part1_spec(tiles: Seq<GraphTile>) -> Result<u64, PuzzleError> {
    match top_left_of(tiles) {
        Some(tl) => corner_product_spec(tiles, tl),
        None => Err(PuzzleError::Unbounded),
    }
}

/// The image stitched from the arrangement read from tile `tl`.
pub open spec fn image_of(tiles: Seq<GraphTile>, tl: int) -> Seq<Seq<u8>> {
    let l = choose|l: Seq<Seq<usize>>| layout_ok(tiles, tl, l);
    stitched(tiles, l, (tiles[0].data@.len() - 2) as nat)
}

/// What the second part owes for an assembly: the roughness of its image;
/// `Unbounded` when the walk to the top-left tile does not end; the layout's
/// error when the tiles do not form a full rectangle; `NotRectangular` for an
/// empty image; `Overflow` when the image's area does not fit a `usize`.
pub open spec fn part2_owed(tiles: Seq<GraphTile>, r: Result<usize, PuzzleError>) -> bool {
    match top_left_of(tiles) {
        None => r == Err::<usize, PuzzleError>(PuzzleError::Unbounded),
        Some(tl) => if !(exists|l: Seq<Seq<usize>>| layout_ok(tiles, tl, l)) {
            r == Err::<usize, PuzzleError>(PuzzleError::Unbounded) || r == Err::<usize, PuzzleError>(
                PuzzleError::NotRectangular,
            )
        } else {
            let img = image_of(tiles, tl);
            if !is_rect(img) {
                r == Err::<usize, PuzzleError>(PuzzleError::NotRectangular)
            } else if img.len() * width(img) > usize::MAX {
                r == Err::<usize, PuzzleError>(PuzzleError::Overflow)
            } else {
                r matches Ok(v) && v == water_roughness(img)
            }
        },
    }
}

/// An arrangement of a given shape is unique: both chains of links fix it.
proof fn lemma_layout_unique(t: Seq<GraphTile>, tl: int, a: Seq<Seq<usize>>, b: Seq<Seq<usize>>)
    requires
        layout_ok(t, tl, a),
        layout_ok(t, tl, b),
    ensures
        a == b,
{
    lemma_chain_end_unlinked(t, tl, Side::Bottom, a.len() - 1);
    lemma_chain_end_unlinked(t, tl, Side::Bottom, b.len() - 1);
    lemma_end_unique(t, tl, Side::Bottom, a.len() - 1, b.len() - 1);
    assert forall|r: int| 0 <= r < a.len() implies #[trigger] a[r] == b[r] by {
        let start = follow(t, tl, Side::Bottom, r as nat);
        assert(a[r].len() > 0 && b[r].len() > 0);
        lemma_chain_end_unlinked(t, start, Side::Right, a[r].len() - 1);
        lemma_chain_end_unlinked(t, start, Side::Right, b[r].len() - 1);
        lemma_end_unique(t, start, Side::Right, a[r].len() - 1, b[r].len() - 1);
        assert forall|c: int| 0 <= c < a[r].len() implies a[r][c] == b[r][c] by {
            assert(a[r][c] as int == follow(t, start, Side::Right, c as nat));
            assert(b[r][c] as int == follow(t, start, Side::Right, c as nat));
        }
        assert(a[r] =~= b[r]);
    }
    assert(a =~= b);
}

/// Reads and assembles the tiles, and multiplies the identifiers of the four
/// corner tiles.
pub fn solve_part1(input: &str) -> (r: Result<u64, PuzzleError>)
    ensures
        !well_formed_input(input) <==> r == Err::<u64, PuzzleError>(PuzzleError::Malformed),
        well_formed_input(input) ==> exists|orig: Seq<GraphTile>, tiles: Seq<GraphTile>|
            #[trigger] assembled(tiles, orig) && read_from(input, orig) && r == part1_spec(tiles),
{
    let mut graph = match Graph::parse(input) {
        Ok(g) => g,
        Err(e) => {
            return Err(e);
        },
    };
    let ghost orig = graph.tiles@;
    let tl = match graph.orient() {
        Ok(t) => t,
        Err(e) => {
            assert(assembled(graph.tiles@, orig));
            assert(part1_spec(graph.tiles@) == Err::<u64, PuzzleError>(e));
            return Err(e);
        },
    };
    let r = graph.corner_product(tl);
    assert(assembled(graph.tiles@, orig));
    assert(top_left_of(graph.tiles@) == Some(tl as int));
    assert(part1_spec(graph.tiles@) == r);
    r
}

/// Reads and assembles the tiles, stitches the image and counts the marked cells
/// outside sea monsters, in the first orientation of the image that holds any.
pub fn solve_part2(input: &str) -> (r: Result<usize, PuzzleError>)
    ensures
        !well_formed_input(input) <==> r == Err::<usize, PuzzleError>(PuzzleError::Malformed),
        well_formed_input(input) ==> exists|orig: Seq<GraphTile>, tiles: Seq<GraphTile>|
            #[trigger] assembled(tiles, orig) && read_from(input, orig) && part2_owed(tiles, r),
{
    let mut graph = match Graph::parse(input) {
        Ok(g) => g,
        Err(e) => {
            return Err(e);
        },
    };
    let ghost orig = graph.tiles@;
    let tl = match graph.orient() {
        Ok(t) => t,
        Err(e) => {
            assert(assembled(graph.tiles@, orig));
            assert(part2_owed(graph.tiles@, Err(e)));
            return Err(e);
        },
    };
    let ghost t = graph.tiles@;
    assert(assembled(t, orig));
    assert(top_left_of(t) == Some(tl as int));
    let image = match Image::from_graph(&graph, tl) {
        Ok(img) => img,
        Err(e) => {
            assert(part2_owed(t, Err(e)));
            return Err(e);
        },
    };
    proof {
        let l = choose|l: Seq<Seq<usize>>|
            #[trigger] layout_ok(t, tl as int, l) && image.data@ == stitched(
                t,
                l,
                (t[0].data@.len() - 2) as nat,
            );
        let l2 = choose|l: Seq<Seq<usize>>| layout_ok(t, tl as int, l);
        lemma_layout_unique(t, tl as int, l, l2);
        assert(image.data@ == image_of(t, tl as int));
    }
    if !image.data.is_rectangular() {
        assert(part2_owed(t, Err(PuzzleError::NotRectangular)));
        return Err(PuzzleError::NotRectangular);
    }
    let h = image.data.height();
    let w = image.data.width();
    if h.checked_mul(w).is_none() {
        assert(part2_owed(t, Err(PuzzleError::Overflow)));
        return Err(PuzzleError::Overflow);
    }
    let v = image.roughness();
    assert(part2_owed(t, Ok(v)));
    Ok(v)
}

/// The border on `side` of each of the eight orientations, in terms of the four
/// borders of the grid itself.
pub proof fn lemma_orientation_borders(g: Seq<Seq<u8>>)
    requires
        is_square(g),
    ensures
        ({
            let (t, b, l, r) = (top(g), bottom(g), left(g), right(g));
            &&& border_of(orientation(g, 0), Side::Top) == t
            &&& border_of(orientation(g, 0), Side::Bottom) == b
            &&& border_of(orientation(g, 0), Side::Left) == l
            &&& border_of(orientation(g, 0), Side::Right) == r
            &&& border_of(orientation(g, 1), Side::Top) == rev(l)
            &&& border_of(orientation(g, 1), Side::Bottom) == rev(r)
            &&& border_of(orientation(g, 1), Side::Left) == b
            &&& border_of(orientation(g, 1), Side::Right) == t
            &&& border_of(orientation(g, 2), Side::Top) == rev(b)
            &&& border_of(orientation(g, 2), Side::Bottom) == rev(t)
            &&& border_of(orientation(g, 2), Side::Left) == rev(r)
            &&& border_of(orientation(g, 2), Side::Right) == rev(l)
            &&& border_of(orientation(g, 3), Side::Top) == r
            &&& border_of(orientation(g, 3), Side::Bottom) == l
            &&& border_of(orientation(g, 3), Side::Left) == rev(t)
            &&& border_of(orientation(g, 3), Side::Right) == rev(b)
            &&& border_of(orientation(g, 4), Side::Top) == rev(t)
            &&& border_of(orientation(g, 4), Side::Bottom) == rev(b)
            &&& border_of(orientation(g, 4), Side::Left) == r
            &&& border_of(orientation(g, 4), Side::Right) == l
            &&& border_of(orientation(g, 5), Side::Top) == rev(r)
            &&& border_of(orientation(g, 5), Side::Bottom) == rev(l)
            &&& border_of(orientation(g, 5), Side::Left) == rev(b)
            &&& border_of(orientation(g, 5), Side::Right) == rev(t)
            &&& border_of(orientation(g, 6), Side::Top) == b
            &&& border_of(orientation(g, 6), Side::Bottom) == t
            &&& border_of(orientation(g, 6), Side::Left) == rev(l)
            &&& border_of(orientation(g, 6), Side::Right) == rev(r)
            &&& border_of(orientation(g, 7), Side::Top) == l
            &&& border_of(orientation(g, 7), Side::Bottom) == r
            &&& border_of(orientation(g, 7), Side::Left) == t
            &&& border_of(orientation(g, 7), Side::Right) == b
        }),
{
    reveal_with_fuel(rotated, 4);
    let m = mirror_h(g);
    lemma_square_transforms(g);
    lemma_square_transforms(rot_cw(g));
    lemma_square_transforms(rot_cw(rot_cw(g)));
    lemma_square_transforms(m);
    lemma_square_transforms(rot_cw(m));
    lemma_square_transforms(rot_cw(rot_cw(m)));
    lemma_rot_cw_borders(g);
    lemma_rot_cw_borders(rot_cw(g));
    lemma_rot_cw_borders(rot_cw(rot_cw(g)));
    lemma_mirror_h_borders(g);
    lemma_rot_cw_borders(m);
    lemma_rot_cw_borders(rot_cw(m));
    lemma_rot_cw_borders(rot_cw(rot_cw(m)));
    lemma_rev_rev(top(g));
    lemma_rev_rev(bottom(g));
    lemma_rev_rev(left(g));
    lemma_rev_rev(right(g));
    assert(rotated(g, 2) == rot_cw(rot_cw(g)));
    assert(rotated(g, 3) == rot_cw(rot_cw(rot_cw(g))));
    assert(rotated(m, 1) == rot_cw(m));
    assert(rotated(m, 2) == rot_cw(rot_cw(m)));
    assert(rotated(m, 3) == rot_cw(rot_cw(rot_cw(m))));
}

/// The eight orientations are exhaustive: on any side, some orientation shows any
/// one of the four borders, read forwards or reversed.
pub proof fn lemma_orientations_cover(g: Seq<Seq<u8>>, side: Side, from: Side, reversed: bool)
    requires
        is_square(g),
    ensures
        exists|o: nat|
            o < 8 && border_of(#[trigger] orientation(g, o), side) == (if reversed {
                rev(border_of(g, from))
            } else {
                border_of(g, from)
            }),
{
    lemma_orientation_borders(g);
    let _o0 = orientation(g, 0);
    let _o1 = orientation(g, 1);
    let _o2 = orientation(g, 2);
    let _o3 = orientation(g, 3);
    let _o4 = orientation(g, 4);
    let _o5 = orientation(g, 5);
    let _o6 = orientation(g, 6);
    let _o7 = orientation(g, 7);
}

/// The search reaches orientation `o` when none before it holds the pattern.
proof fn lemma_search_reaches(g: Seq<Seq<u8>>, j: nat, o: nat)
    requires
        j <= o < 8,
        forall|k: nat| k < o ==> !has_monster(#[trigger] orientation(g, k)),
        has_monster(orientation(g, o)),
    ensures
        search_from(g, j) == roughness_of(orientation(g, o)),
    decreases o - j,
{
    if j < o {
        assert(!has_monster(orientation(g, j)));
        lemma_search_reaches(g, j + 1, o);
    }
}

/// Marked cells covered by a pattern instance, among the first `c` of row `r`.
pub open spec fn cov_row(g: Seq<Seq<u8>>, r: int, c: nat) -> nat
    decreases c,
{
    if c == 0 {
        0
    } else {
        cov_row(g, r, (c - 1) as nat) + if g[r][c - 1] == MARK && covered(g, r, c - 1) {
            1nat
        } else {
            0nat
        }
    }
}

pub open spec fn cov_grid(g: Seq<Seq<u8>>, h: nat) -> nat
    decreases h,
{
    if h == 0 {
        0
    } else {
        cov_grid(g, (h - 1) as nat) + cov_row(g, h - 1, width(g) as nat)
    }
}

proof fn lemma_row_split(g: Seq<Seq<u8>>, r: int, c: nat)
    ensures
        count_row(g, r, c, false) == count_row(g, r, c, true) + cov_row(g, r, c),
    decreases c,
{
    if c > 0 {
        lemma_row_split(g, r, (c - 1) as nat);
    }
}

/// The marked cells are those outside every instance plus those inside one.
proof fn lemma_grid_split(g: Seq<Seq<u8>>, h: nat)
    ensures
        count_grid(g, h, false) == count_grid(g, h, true) + cov_grid(g, h),
    decreases h,
{
    if h > 0 {
        lemma_grid_split(g, (h - 1) as nat);
        lemma_row_split(g, h - 1, width(g) as nat);
    }
}

/// The columns of the pattern's cells in row `dr` of its box.
pub open spec fn shape_cols(dr: int) -> Seq<int> {
    if dr == 0 {
        seq![18]
    } else if dr == 1 {
        seq![0, 5, 6, 11, 12, 17, 18, 19]
    } else if dr == 2 {
        seq![1, 4, 7, 10, 13, 16]
    } else {
        Seq::empty()
    }
}

proof fn lemma_shape(dr: int, dc: int)
    ensures
        (exists|k: int| 0 <= k < 15 && #[trigger] monster_cells()[k] == (dr, dc)) <==> shape_cols(
            dr,
        ).contains(dc),
{
    let m = monster_cells();
    assert(m[0] == (0int, 18int));
    assert(m[1] == (1int, 0int));
    assert(m[2] == (1int, 5int));
    assert(m[3] == (1int, 6int));
    assert(m[4] == (1int, 11int));
    assert(m[5] == (1int, 12int));
    assert(m[6] == (1int, 17int));
    assert(m[7] == (1int, 18int));
    assert(m[8] == (1int, 19int));
    assert(m[9] == (2int, 1int));
    assert(m[10] == (2int, 4int));
    assert(m[11] == (2int, 7int));
    assert(m[12] == (2int, 10int));
    assert(m[13] == (2int, 13int));
    assert(m[14] == (2int, 16int));
    let sc = shape_cols(dr);
    if sc.contains(dc) {
        let j = choose|j: int| 0 <= j < sc.len() && sc[j] == dc;
        if dr == 0 {
            assert(m[0] == (dr, dc));
        } else if dr == 1 {
            assert(m[1 + j] == (dr, dc));
        } else {
            assert(m[9 + j] == (dr, dc));
        }
    }
    if exists|k: int| 0 <= k < 15 && #[trigger] monster_cells()[k] == (dr, dc) {
        let k = choose|k: int| 0 <= k < 15 && #[trigger] monster_cells()[k] == (dr, dc);
        if k == 0 {
            assert(sc[0] == dc);
        } else if k <= 8 {
            assert(sc[k - 1] == dc);
        } else {
            assert(sc[k - 9] == dc);
        }
    }
}

/// How many of the columns `x0 + d`, for `d` in `d`, lie left of column `c`.
pub open spec fn count_pts(d: Seq<int>, x0: int, c: int) -> nat
    decreases d.len(),
{
    if d.len() == 0 {
        0
    } else {
        count_pts(d.drop_last(), x0, c) + if x0 + d.last() < c {
            1nat
        } else {
            0nat
        }
    }
}

proof fn lemma_count_pts_step(d: Seq<int>, x0: int, c: int)
    requires
        d.no_duplicates(),
    ensures
        count_pts(d, x0, c + 1) == count_pts(d, x0, c) + if d.contains(c - x0) {
            1nat
        } else {
            0nat
        },
    decreases d.len(),
{
    if d.len() > 0 {
        let p = d.drop_last();
        assert(p.no_duplicates());
        lemma_count_pts_step(p, x0, c);
        if d.last() == c - x0 {
            assert(!p.contains(c - x0)) by {
                if p.contains(c - x0) {
                    let i = choose|i: int| 0 <= i < p.len() && p[i] == c - x0;
                    assert(d[i] == d[d.len() - 1]);
                }
            }
        }
        assert(d.contains(c - x0) <==> (p.contains(c - x0) || d.last() == c - x0)) by {
            if d.contains(c - x0) {
                let i = choose|i: int| 0 <= i < d.len() && d[i] == c - x0;
                if i < d.len() - 1 {
                    assert(p[i] == c - x0);
                }
            }
            if p.contains(c - x0) {
                let i = choose|i: int| 0 <= i < p.len() && p[i] == c - x0;
                assert(d[i] == c - x0);
            }
        }
    }
}

proof fn lemma_count_pts_all(d: Seq<int>, x0: int, c: int)
    requires
        forall|i: int| 0 <= i < d.len() ==> x0 + #[trigger] d[i] < c,
    ensures
        count_pts(d, x0, c) == d.len(),
    decreases d.len(),
{
    if d.len() > 0 {
        lemma_count_pts_all(d.drop_last(), x0, c);
        assert(x0 + d[d.len() - 1] < c);
    }
}

proof fn lemma_count_pts_none(d: Seq<int>, x0: int)
    requires
        forall|i: int| 0 <= i < d.len() ==> x0 + #[trigger] d[i] >= 0,
    ensures
        count_pts(d, x0, 0) == 0,
    decreases d.len(),
{
    if d.len() > 0 {
        lemma_count_pts_none(d.drop_last(), x0);
        assert(x0 + d[d.len() - 1] >= 0);
    }
}

/// With a single instance at (`x0`, `y0`), the marked covered cells are exactly
/// the pattern's cells placed there.
proof fn lemma_single_cover(g: Seq<Seq<u8>>, x0: int, y0: int, r: int, c: int)
    requires
        placement(g, x0, y0),
        forall|x: int, y: int| #[trigger] placement(g, x, y) ==> x == x0 && y == y0,
    ensures
        (g[r][c] == MARK && covered(g, r, c)) <==> shape_cols(r - y0).contains(c - x0),
{
    lemma_shape(r - y0, c - x0);
    if covered(g, r, c) {
        let k = choose|k: int|
            0 <= k < 15 && #[trigger] placement(g, c - monster_cells()[k].1, r - monster_cells()[k].0);
        assert(monster_cells()[k] == (r - y0, c - x0));
    }
    if shape_cols(r - y0).contains(c - x0) {
        let k = choose|k: int| 0 <= k < 15 && #[trigger] monster_cells()[k] == (r - y0, c - x0);
        assert(placement(g, c - monster_cells()[k].1, r - monster_cells()[k].0));
        assert(g[y0 + monster_cells()[k].0][x0 + monster_cells()[k].1] == MARK);
    }
}

proof fn lemma_cov_row(g: Seq<Seq<u8>>, x0: int, y0: int, r: int, c: nat)
    requires
        placement(g, x0, y0),
        forall|x: int, y: int| #[trigger] placement(g, x, y) ==> x == x0 && y == y0,
    ensures
        cov_row(g, r, c) == count_pts(shape_cols(r - y0), x0, c as int),
    decreases c,
{
    let d = shape_cols(r - y0);
    assert(d.no_duplicates()) by {
        if r - y0 == 1 {
            assert(d =~= seq![0int, 5, 6, 11, 12, 17, 18, 19]);
        }
    }
    assert forall|i: int| 0 <= i < d.len() implies x0 + #[trigger] d[i] >= 0 by {
        assert(d[i] >= 0);
    }
    if c == 0 {
        lemma_count_pts_none(d, x0);
    } else {
        lemma_cov_row(g, x0, y0, r, (c - 1) as nat);
        lemma_single_cover(g, x0, y0, r, c - 1);
        lemma_count_pts_step(d, x0, c - 1);
    }
}

/// The covered marked cells of the first `h` rows, with a single instance at
/// (`x0`, `y0`).
proof fn lemma_cov_grid(g: Seq<Seq<u8>>, x0: int, y0: int, h: nat)
    requires
        is_rect(g),
        placement(g, x0, y0),
        forall|x: int, y: int| #[trigger] placement(g, x, y) ==> x == x0 && y == y0,
    ensures
        cov_grid(g, h) == (if h > y0 {
            1nat
        } else {
            0nat
        }) + (if h > y0 + 1 {
            8nat
        } else {
            0nat
        }) + (if h > y0 + 2 {
            6nat
        } else {
            0nat
        }),
    decreases h,
{
    if h > 0 {
        lemma_cov_grid(g, x0, y0, (h - 1) as nat);
        let r = h - 1;
        let d = shape_cols(r - y0);
        lemma_cov_row(g, x0, y0, r, width(g) as nat);
        assert forall|i: int| 0 <= i < d.len() implies x0 + #[trigger] d[i] < width(g) by {
            assert(d[i] <= 19);
        }
        lemma_count_pts_all(d, x0, width(g));
    }
}

/// When the first orientation of the image that holds the sea monster holds
/// exactly one instance of it, the answer is that orientation's marked cells less
/// the monster's fifteen cells.
pub proof fn lemma_one_monster(g: Seq<Seq<u8>>, o: nat, x0: int, y0: int)
    requires
        is_rect(g),
        o < 8,
        forall|k: nat| k < o ==> !has_monster(#[trigger] orientation(g, k)),
        placement(orientation(g, o), x0, y0),
        forall|x: int, y: int| #[trigger] placement(orientation(g, o), x, y) ==> x == x0 && y == y0,
    ensures
        water_roughness(g) + 15 == marked_count(orientation(g, o)),
{
    let im = orientation(g, o);
    lemma_orientation_area(g, o);
    assert(has_monster(im));
    lemma_search_reaches(g, 0, o);
    lemma_grid_split(im, im.len());
    lemma_cov_grid(im, x0, y0, im.len());
}

} // verus!
