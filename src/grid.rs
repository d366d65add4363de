//! Rectangular grids of byte-valued cells and their orientation transforms:
//! quarter turns and mirror images, together with the laws they obey.

use vstd::multiset::Multiset;
use vstd::prelude::*;

verus! {

/// A rectangular grid of cells, stored row by row.
pub struct Grid {
    pub rows: Vec<Vec<u8>>,
}

impl View for Grid {
    type V = Seq<Seq<u8>>;

    open spec fn view(&self) -> Seq<Seq<u8>> {
        Seq::new(self.rows@.len(), |i: int| self.rows@[i]@)
    }
}

/// Number of columns (the length of the first row; zero for an empty grid).
pub open spec fn width(g: Seq<Seq<u8>>) -> int {
    if g.len() == 0 {
        0
    } else {
        g[0].len() as int
    }
}

/// At least one row and one column, and every row as long as the first.
pub open spec fn is_rect(g: Seq<Seq<u8>>) -> bool {
    &&& g.len() > 0
    &&& g[0].len() > 0
    &&& forall|i: int| 0 <= i < g.len() ==> #[trigger] g[i].len() == g[0].len()
}

/// A quarter turn clockwise.
pub open spec fn rot_cw(g: Seq<Seq<u8>>) -> Seq<Seq<u8>> {
    Seq::new(width(g) as nat, |i: int| Seq::new(g.len(), |j: int| g[g.len() - 1 - j][i]))
}

/// A quarter turn counter-clockwise.
pub open spec fn rot_ccw(g: Seq<Seq<u8>>) -> Seq<Seq<u8>> {
    Seq::new(width(g) as nat, |i: int| Seq::new(g.len(), |j: int| g[j][width(g) - 1 - i]))
}

/// A half turn.
pub open spec fn rot_half(g: Seq<Seq<u8>>) -> Seq<Seq<u8>> {
    Seq::new(
        g.len(),
        |i: int| Seq::new(width(g) as nat, |j: int| g[g.len() - 1 - i][width(g) - 1 - j]),
    )
}

/// Mirror image left to right: every row reversed.
pub open spec fn mirror_h(g: Seq<Seq<u8>>) -> Seq<Seq<u8>> {
    Seq::new(g.len(), |i: int| Seq::new(width(g) as nat, |j: int| g[i][width(g) - 1 - j]))
}

/// Mirror image top to bottom: the order of the rows reversed.
pub open spec fn mirror_v(g: Seq<Seq<u8>>) -> Seq<Seq<u8>> {
    Seq::new(g.len(), |i: int| g[g.len() - 1 - i])
}

/// `k` quarter turns clockwise.
pub open spec fn rotated(g: Seq<Seq<u8>>, k: nat) -> Seq<Seq<u8>>
    decreases k,
{
    if k == 0 {
        g
    } else {
        rotated(rot_cw(g), (k - 1) as nat)
    }
}

/// The axis of a mirror transform.
#[derive(Clone, Copy, PartialEq, Eq, Debug, Structural)]
pub enum Axis {
    /// Left and right change places.
    Horizontal,
    /// Top and bottom change places.
    Vertical,
}

pub open spec fn flipped(g: Seq<Seq<u8>>, axis: Axis) -> Seq<Seq<u8>> {
    match axis {
        Axis::Horizontal => mirror_h(g),
        Axis::Vertical => mirror_v(g),
    }
}

/// The sequence read backwards.
pub open spec fn rev(s: Seq<u8>) -> Seq<u8> {
    Seq::new(s.len(), |i: int| s[s.len() - 1 - i])
}

/// First row, read left to right.
pub open spec fn top(g: Seq<Seq<u8>>) -> Seq<u8> {
    g[0]
}

/// Last row, read left to right.
pub open spec fn bottom(g: Seq<Seq<u8>>) -> Seq<u8> {
    g[g.len() - 1]
}

/// First column, read top to bottom.
pub open spec fn left(g: Seq<Seq<u8>>) -> Seq<u8> {
    Seq::new(g.len(), |i: int| g[i][0])
}

/// Last column, read top to bottom.
pub open spec fn right(g: Seq<Seq<u8>>) -> Seq<u8> {
    Seq::new(g.len(), |i: int| g[i][width(g) - 1])
}

/// The four borders, each both forwards and reversed.
pub open spec fn border_multiset(g: Seq<Seq<u8>>) -> Multiset<Seq<u8>> {
    Multiset::empty().insert(top(g)).insert(rev(top(g))).insert(bottom(g)).insert(
        rev(bottom(g)),
    ).insert(left(g)).insert(rev(left(g))).insert(right(g)).insert(rev(right(g)))
}

pub proof fn lemma_rev_rev(s: Seq<u8>)
    ensures
        rev(rev(s)) == s,
{
    assert(rev(rev(s)) =~= s);
}

pub proof fn lemma_rot_cw_shape(g: Seq<Seq<u8>>)
    requires
        is_rect(g),
    ensures
        is_rect(rot_cw(g)),
        rot_cw(g).len() == width(g),
        width(rot_cw(g)) == g.len(),
{
}

pub proof fn lemma_mirror_h_shape(g: Seq<Seq<u8>>)
    requires
        is_rect(g),
    ensures
        is_rect(mirror_h(g)),
        mirror_h(g).len() == g.len(),
        width(mirror_h(g)) == width(g),
{
}

pub proof fn lemma_mirror_v_shape(g: Seq<Seq<u8>>)
    requires
        is_rect(g),
    ensures
        is_rect(mirror_v(g)),
        mirror_v(g).len() == g.len(),
        width(mirror_v(g)) == width(g),
{
}

/// Two quarter turns clockwise make a half turn.
pub proof fn lemma_rot_cw_twice(g: Seq<Seq<u8>>)
    requires
        is_rect(g),
    ensures
        rot_cw(rot_cw(g)) == rot_half(g),
{
    lemma_rot_cw_shape(g);
    assert(rot_cw(rot_cw(g)) =~~= rot_half(g));
}

/// Three quarter turns clockwise make a quarter turn counter-clockwise.
pub proof fn lemma_rot_cw_thrice(g: Seq<Seq<u8>>)
    requires
        is_rect(g),
    ensures
        rot_cw(rot_cw(rot_cw(g))) == rot_ccw(g),
{
    lemma_rot_cw_shape(g);
    lemma_rot_cw_twice(rot_cw(g));
    assert(rot_half(rot_cw(g)) =~~= rot_ccw(g));
}

/// A half turn undoes itself.
pub proof fn lemma_rot_half_twice(g: Seq<Seq<u8>>)
    requires
        is_rect(g),
    ensures
        rot_half(rot_half(g)) == g,
{
    assert(rot_half(rot_half(g)) =~~= g);
}

/// Each mirror image undoes itself.
pub proof fn lemma_flip_twice(g: Seq<Seq<u8>>, axis: Axis)
    requires
        is_rect(g),
    ensures
        flipped(flipped(g, axis), axis) == g,
{
    match axis {
        Axis::Horizontal => {
            assert(mirror_h(mirror_h(g)) =~~= g);
        },
        Axis::Vertical => {
            assert(mirror_v(mirror_v(g)) =~~= g);
        },
    }
}

pub proof fn lemma_rotated_add(g: Seq<Seq<u8>>, a: nat, b: nat)
    ensures
        rotated(g, a + b) == rotated(rotated(g, a), b),
    decreases a,
{
    if a > 0 {
        lemma_rotated_add(rot_cw(g), (a - 1) as nat, b);
        assert((a + b - 1) as nat == (a - 1) as nat + b);
    }
}

pub proof fn lemma_rotated_rect(g: Seq<Seq<u8>>, k: nat)
    requires
        is_rect(g),
    ensures
        is_rect(rotated(g, k)),
    decreases k,
{
    if k > 0 {
        lemma_rot_cw_shape(g);
        lemma_rotated_rect(rot_cw(g), (k - 1) as nat);
    }
}

/// One more quarter turn after `k` of them.
pub proof fn lemma_rotated_step(g: Seq<Seq<u8>>, k: nat)
    ensures
        rotated(g, k + 1) == rot_cw(rotated(g, k)),
{
    lemma_rotated_add(g, k, 1);
    reveal_with_fuel(rotated, 2);
}

/// Four quarter turns give back the grid unchanged.
pub proof fn lemma_rotate_four_identity(g: Seq<Seq<u8>>)
    requires
        is_rect(g),
    ensures
        rotated(g, 4) == g,
{
    reveal_with_fuel(rotated, 5);
    lemma_rot_cw_shape(g);
    lemma_rot_cw_twice(g);
    lemma_rot_cw_twice(rot_cw(rot_cw(g)));
    lemma_rot_cw_shape(rot_cw(g));
    lemma_rot_half_twice(g);
}

/// Only the number of quarter turns modulo four matters.
pub proof fn lemma_rotated_mod4(g: Seq<Seq<u8>>, k: nat)
    requires
        is_rect(g),
    ensures
        rotated(g, k) == rotated(g, k % 4),
    decreases k,
{
    if k >= 4 {
        lemma_rotated_add(g, 4, (k - 4) as nat);
        lemma_rotate_four_identity(g);
        lemma_rotated_mod4(g, (k - 4) as nat);
        assert(k % 4 == (k - 4) as nat % 4);
    }
}

/// Where the borders go under a quarter turn clockwise.
pub proof fn lemma_rot_cw_borders(g: Seq<Seq<u8>>)
    requires
        is_rect(g),
    ensures
        top(rot_cw(g)) == rev(left(g)),
        bottom(rot_cw(g)) == rev(right(g)),
        left(rot_cw(g)) == bottom(g),
        right(rot_cw(g)) == top(g),
{
    lemma_rot_cw_shape(g);
    assert(top(rot_cw(g)) =~= rev(left(g)));
    assert(bottom(rot_cw(g)) =~= rev(right(g)));
    assert(left(rot_cw(g)) =~= bottom(g));
    assert(right(rot_cw(g)) =~= top(g));
}

/// Where the borders go under a left-to-right mirror image.
pub proof fn lemma_mirror_h_borders(g: Seq<Seq<u8>>)
    requires
        is_rect(g),
    ensures
        top(mirror_h(g)) == rev(top(g)),
        bottom(mirror_h(g)) == rev(bottom(g)),
        left(mirror_h(g)) == right(g),
        right(mirror_h(g)) == left(g),
{
    lemma_mirror_h_shape(g);
    assert(top(mirror_h(g)) =~= rev(top(g)));
    assert(bottom(mirror_h(g)) =~= rev(bottom(g)));
    assert(left(mirror_h(g)) =~= right(g));
    assert(right(mirror_h(g)) =~= left(g));
}

/// Where the borders go under a top-to-bottom mirror image.
pub proof fn lemma_mirror_v_borders(g: Seq<Seq<u8>>)
    requires
        is_rect(g),
    ensures
        top(mirror_v(g)) == bottom(g),
        bottom(mirror_v(g)) == top(g),
        left(mirror_v(g)) == rev(left(g)),
        right(mirror_v(g)) == rev(right(g)),
{
    lemma_mirror_v_shape(g);
    assert(top(mirror_v(g)) =~= bottom(g));
    assert(bottom(mirror_v(g)) =~= top(g));
    assert(left(mirror_v(g)) =~= rev(left(g)));
    assert(right(mirror_v(g)) =~= rev(right(g)));
}

/// A quarter turn clockwise keeps the border multiset.
pub proof fn lemma_rot_cw_border_multiset(g: Seq<Seq<u8>>)
    requires
        is_rect(g),
    ensures
        border_multiset(rot_cw(g)) == border_multiset(g),
{
    lemma_rot_cw_borders(g);
    lemma_rev_rev(left(g));
    lemma_rev_rev(right(g));
    let (t, b, l, r) = (top(g), bottom(g), left(g), right(g));
    let m = border_multiset(rot_cw(g));
    assert(m == Multiset::empty().insert(rev(l)).insert(l).insert(rev(r)).insert(r).insert(
        b,
    ).insert(rev(b)).insert(t).insert(rev(t)));
    assert(m =~= border_multiset(g));
}

/// A left-to-right mirror image keeps the border multiset.
pub proof fn lemma_mirror_h_border_multiset(g: Seq<Seq<u8>>)
    requires
        is_rect(g),
    ensures
        border_multiset(mirror_h(g)) == border_multiset(g),
{
    lemma_mirror_h_borders(g);
    lemma_rev_rev(top(g));
    lemma_rev_rev(bottom(g));
    assert(border_multiset(mirror_h(g)) =~= border_multiset(g));
}

/// A top-to-bottom mirror image keeps the border multiset.
pub proof fn lemma_mirror_v_border_multiset(g: Seq<Seq<u8>>)
    requires
        is_rect(g),
    ensures
        border_multiset(mirror_v(g)) == border_multiset(g),
{
    lemma_mirror_v_borders(g);
    lemma_rev_rev(left(g));
    lemma_rev_rev(right(g));
    assert(border_multiset(mirror_v(g)) =~= border_multiset(g));
}

/// One orientation transform of a grid.
#[derive(Clone, Copy, PartialEq, Eq, Debug, Structural)]
pub enum Transform {
    RotateRight,
    RotateLeft,
    Rotate180,
    FlipHorizontal,
    FlipVertical,
}

pub open spec fn apply_transform(g: Seq<Seq<u8>>, t: Transform) -> Seq<Seq<u8>> {
    match t {
        Transform::RotateRight => rot_cw(g),
        Transform::RotateLeft => rot_ccw(g),
        Transform::Rotate180 => rot_half(g),
        Transform::FlipHorizontal => mirror_h(g),
        Transform::FlipVertical => mirror_v(g),
    }
}

/// The transforms applied in order, the first one first.
pub open spec fn apply_all(g: Seq<Seq<u8>>, ts: Seq<Transform>) -> Seq<Seq<u8>>
    decreases ts.len(),
{
    if ts.len() == 0 {
        g
    } else {
        apply_all(apply_transform(g, ts[0]), ts.drop_first())
    }
}

/// A single transform keeps the grid rectangular and its border multiset unchanged.
pub proof fn lemma_transform_border_multiset(g: Seq<Seq<u8>>, t: Transform)
    requires
        is_rect(g),
    ensures
        is_rect(apply_transform(g, t)),
        border_multiset(apply_transform(g, t)) == border_multiset(g),
{
    lemma_rot_cw_shape(g);
    lemma_rot_cw_shape(rot_cw(g));
    lemma_rot_cw_border_multiset(g);
    lemma_rot_cw_border_multiset(rot_cw(g));
    lemma_rot_cw_twice(g);
    match t {
        Transform::RotateLeft => {
            lemma_rot_cw_shape(rot_cw(rot_cw(g)));
            lemma_rot_cw_border_multiset(rot_cw(rot_cw(g)));
            lemma_rot_cw_thrice(g);
        },
        Transform::FlipHorizontal => {
            lemma_mirror_h_shape(g);
            lemma_mirror_h_border_multiset(g);
        },
        Transform::FlipVertical => {
            lemma_mirror_v_shape(g);
            lemma_mirror_v_border_multiset(g);
        },
        _ => {},
    }
}

/// Any sequence of quarter turns and mirror images keeps the multiset of the four
/// borders, each taken forwards and reversed: the transforms move border content
/// from side to side but never create or lose any.
pub proof fn lemma_border_multiset_invariant(g: Seq<Seq<u8>>, ts: Seq<Transform>)
    requires
        is_rect(g),
    ensures
        is_rect(apply_all(g, ts)),
        border_multiset(apply_all(g, ts)) == border_multiset(g),
    decreases ts.len(),
{
    if ts.len() > 0 {
        lemma_transform_border_multiset(g, ts[0]);
        lemma_border_multiset_invariant(apply_transform(g, ts[0]), ts.drop_first());
    }
}

impl Grid {
    pub open spec fn wf(&self) -> bool {
        is_rect(self@)
    }

    pub fn height(&self) -> (r: usize)
        ensures
            r == self@.len(),
    {
        self.rows.len()
    }

    pub fn width(&self) -> (r: usize)
        ensures
            r == width(self@),
    {
        if self.rows.len() == 0 {
            0
        } else {
            self.rows[0].len()
        }
    }

    pub fn get(&self, i: usize, j: usize) -> (r: u8)
        requires
            self.wf(),
            i < self@.len(),
            j < width(self@),
        ensures
            r == self@[i as int][j as int],
    {
        assert(self@[i as int].len() == self@[0].len());
        self.rows[i][j]
    }

    /// The grid turned a quarter turn clockwise.
    pub fn rotated_right(&self) -> (r: Grid)
        requires
            self.wf(),
        ensures
            r@ == rot_cw(self@),
            r.wf(),
    {
        let h = self.height();
        let w = self.width();
        let mut rows: Vec<Vec<u8>> = Vec::new();
        let mut i: usize = 0;
        while i < w
            invariant
                self.wf(),
                h == self@.len(),
                w == width(self@),
                i <= w,
                rows@.len() == i,
                forall|k: int| 0 <= k < i ==> #[trigger] rows@[k]@ == rot_cw(self@)[k],
            decreases w - i,
        {
            let mut row: Vec<u8> = Vec::new();
            let mut j: usize = 0;
            while j < h
                invariant
                    self.wf(),
                    h == self@.len(),
                    w == width(self@),
                    i < w,
                    j <= h,
                    row@.len() == j,
                    forall|k: int| 0 <= k < j ==> #[trigger] row@[k] == self@[h - 1 - k][i as int],
                decreases h - j,
            {
                row.push(self.get(h - 1 - j, i));
                j += 1;
            }
            assert(row@ =~= rot_cw(self@)[i as int]);
            rows.push(row);
            i += 1;
        }
        let r = Grid { rows };
        assert(r@ =~= rot_cw(self@));
        proof {
            lemma_rot_cw_shape(self@);
        }
        r
    }

    /// The grid turned a quarter turn counter-clockwise.
    pub fn rotated_left(&self) -> (r: Grid)
        requires
            self.wf(),
        ensures
            r@ == rot_ccw(self@),
            r.wf(),
    {
        let h = self.height();
        let w = self.width();
        let mut rows: Vec<Vec<u8>> = Vec::new();
        let mut i: usize = 0;
        while i < w
            invariant
                self.wf(),
                h == self@.len(),
                w == width(self@),
                i <= w,
                rows@.len() == i,
                forall|k: int| 0 <= k < i ==> #[trigger] rows@[k]@ == rot_ccw(self@)[k],
            decreases w - i,
        {
            let mut row: Vec<u8> = Vec::new();
            let mut j: usize = 0;
            while j < h
                invariant
                    self.wf(),
                    h == self@.len(),
                    w == width(self@),
                    i < w,
                    j <= h,
                    row@.len() == j,
                    forall|k: int| 0 <= k < j ==> #[trigger] row@[k] == self@[k][w - 1 - i],
                decreases h - j,
            {
                row.push(self.get(j, w - 1 - i));
                j += 1;
            }
            assert(row@ =~= rot_ccw(self@)[i as int]);
            rows.push(row);
            i += 1;
        }
        let r = Grid { rows };
        assert(r@ =~= rot_ccw(self@));
        r
    }

    /// The grid turned a half turn.
    pub fn rotated_half(&self) -> (r: Grid)
        requires
            self.wf(),
        ensures
            r@ == rot_half(self@),
            r.wf(),
    {
        let h = self.height();
        let w = self.width();
        let mut rows: Vec<Vec<u8>> = Vec::new();
        let mut i: usize = 0;
        while i < h
            invariant
                self.wf(),
                h == self@.len(),
                w == width(self@),
                i <= h,
                rows@.len() == i,
                forall|k: int| 0 <= k < i ==> #[trigger] rows@[k]@ == rot_half(self@)[k],
            decreases h - i,
        {
            let mut row: Vec<u8> = Vec::new();
            let mut j: usize = 0;
            while j < w
                invariant
                    self.wf(),
                    h == self@.len(),
                    w == width(self@),
                    i < h,
                    j <= w,
                    row@.len() == j,
                    forall|k: int|
                        0 <= k < j ==> #[trigger] row@[k] == self@[h - 1 - i][w - 1 - k],
                decreases w - j,
            {
                row.push(self.get(h - 1 - i, w - 1 - j));
                j += 1;
            }
            assert(row@ =~= rot_half(self@)[i as int]);
            rows.push(row);
            i += 1;
        }
        let r = Grid { rows };
        assert(r@ =~= rot_half(self@));
        r
    }

    /// The mirror image with left and right exchanged.
    pub fn flipped_horizontal(&self) -> (r: Grid)
        requires
            self.wf(),
        ensures
            r@ == mirror_h(self@),
            r.wf(),
    {
        let h = self.height();
        let w = self.width();
        let mut rows: Vec<Vec<u8>> = Vec::new();
        let mut i: usize = 0;
        while i < h
            invariant
                self.wf(),
                h == self@.len(),
                w == width(self@),
                i <= h,
                rows@.len() == i,
                forall|k: int| 0 <= k < i ==> #[trigger] rows@[k]@ == mirror_h(self@)[k],
            decreases h - i,
        {
            let mut row: Vec<u8> = Vec::new();
            let mut j: usize = 0;
            while j < w
                invariant
                    self.wf(),
                    h == self@.len(),
                    w == width(self@),
                    i < h,
                    j <= w,
                    row@.len() == j,
                    forall|k: int| 0 <= k < j ==> #[trigger] row@[k] == self@[i as int][w - 1 - k],
                decreases w - j,
            {
                row.push(self.get(i, w - 1 - j));
                j += 1;
            }
            assert(row@ =~= mirror_h(self@)[i as int]);
            rows.push(row);
            i += 1;
        }
        let r = Grid { rows };
        assert(r@ =~= mirror_h(self@));
        r
    }

    /// The mirror image with top and bottom exchanged.
    pub fn flipped_vertical(&self) -> (r: Grid)
        requires
            self.wf(),
        ensures
            r@ == mirror_v(self@),
            r.wf(),
    {
        let h = self.height();
        let mut rows: Vec<Vec<u8>> = Vec::new();
        let mut i: usize = 0;
        while i < h
            invariant
                self.wf(),
                h == self@.len(),
                i <= h,
                rows@.len() == i,
                forall|k: int| 0 <= k < i ==> #[trigger] rows@[k]@ == mirror_v(self@)[k],
            decreases h - i,
        {
            rows.push(self.rows[h - 1 - i].clone());
            i += 1;
        }
        let r = Grid { rows };
        assert(r@ =~= mirror_v(self@));
        r
    }

    /// The grid under one transform.
    pub fn transformed(&self, t: Transform) -> (r: Grid)
        requires
            self.wf(),
        ensures
            r@ == apply_transform(self@, t),
            r.wf(),
    {
        match t {
            Transform::RotateRight => self.rotated_right(),
            Transform::RotateLeft => self.rotated_left(),
            Transform::Rotate180 => self.rotated_half(),
            Transform::FlipHorizontal => self.flipped_horizontal(),
            Transform::FlipVertical => self.flipped_vertical(),
        }
    }

    /// The first row.
    pub fn top_border(&self) -> (r: Vec<u8>)
        requires
            self.wf(),
        ensures
            r@ == top(self@),
    {
        self.rows[0].clone()
    }

    /// The last row.
    pub fn bottom_border(&self) -> (r: Vec<u8>)
        requires
            self.wf(),
        ensures
            r@ == bottom(self@),
    {
        self.rows[self.rows.len() - 1].clone()
    }

    /// The cells of column `j`, read top to bottom.
    pub fn column(&self, j: usize) -> (r: Vec<u8>)
        requires
            self.wf(),
            j < width(self@),
        ensures
            r@ == Seq::new(self@.len(), |i: int| self@[i][j as int]),
    {
        let h = self.height();
        let mut col: Vec<u8> = Vec::new();
        let mut i: usize = 0;
        while i < h
            invariant
                self.wf(),
                h == self@.len(),
                j < width(self@),
                i <= h,
                col@.len() == i,
                forall|k: int| 0 <= k < i ==> #[trigger] col@[k] == self@[k][j as int],
            decreases h - i,
        {
            col.push(self.get(i, j));
            i += 1;
        }
        assert(col@ =~= Seq::new(self@.len(), |i: int| self@[i][j as int]));
        col
    }

    /// The first column, read top to bottom.
    pub fn left_border(&self) -> (r: Vec<u8>)
        requires
            self.wf(),
        ensures
            r@ == left(self@),
    {
        self.column(0)
    }

    /// The last column, read top to bottom.
    pub fn right_border(&self) -> (r: Vec<u8>)
        requires
            self.wf(),
        ensures
            r@ == right(self@),
    {
        self.column(self.width() - 1)
    }
}

/// Whether two byte strings are equal.
pub fn same_bytes(a: &Vec<u8>, b: &Vec<u8>) -> (r: bool)
    ensures
        r == (a@ == b@),
{
    if a.len() != b.len() {
        return false;
    }
    let mut i: usize = 0;
    while i < a.len()
        invariant
            a@.len() == b@.len(),
            i <= a@.len(),
            forall|k: int| 0 <= k < i ==> a@[k] == b@[k],
        decreases a@.len() - i,
    {
        if a[i] != b[i] {
            return false;
        }
        i += 1;
    }
    assert(a@ =~= b@);
    true
}

/// A byte string read backwards.
pub fn reversed(a: &Vec<u8>) -> (r: Vec<u8>)
    ensures
        r@ == rev(a@),
{
    let n = a.len();
    let mut out: Vec<u8> = Vec::new();
    let mut i: usize = 0;
    while i < n
        invariant
            n == a@.len(),
            i <= n,
            out@.len() == i,
            forall|k: int| 0 <= k < i ==> #[trigger] out@[k] == a@[n - 1 - k],
        decreases n - i,
    {
        out.push(a[n - 1 - i]);
        i += 1;
    }
    assert(out@ =~= rev(a@));
    out
}

/// Square, with at least two rows.
pub open spec fn is_square(g: Seq<Seq<u8>>) -> bool {
    is_rect(g) && width(g) == g.len() && g.len() >= 2
}

/// The eight orientations, numbered: `o < 4` is `o` quarter turns clockwise; `o >= 4`
/// is the left-to-right mirror image followed by `o - 4` quarter turns.
pub open spec fn orientation(g: Seq<Seq<u8>>, o: nat) -> Seq<Seq<u8>> {
    if o < 4 {
        rotated(g, o)
    } else {
        rotated(mirror_h(g), (o - 4) as nat)
    }
}

pub proof fn lemma_square_transforms(g: Seq<Seq<u8>>)
    requires
        is_square(g),
    ensures
        is_square(rot_cw(g)),
        is_square(rot_ccw(g)),
        is_square(rot_half(g)),
        is_square(mirror_h(g)),
        is_square(mirror_v(g)),
        rot_cw(g).len() == g.len(),
        rot_ccw(g).len() == g.len(),
        rot_half(g).len() == g.len(),
        mirror_h(g).len() == g.len(),
        mirror_v(g).len() == g.len(),
{
    lemma_rot_cw_shape(g);
    lemma_mirror_h_shape(g);
    lemma_mirror_v_shape(g);
}

pub proof fn lemma_rotated_square(g: Seq<Seq<u8>>, k: nat)
    requires
        is_square(g),
    ensures
        is_square(rotated(g, k)),
        rotated(g, k).len() == g.len(),
    decreases k,
{
    if k > 0 {
        lemma_square_transforms(g);
        lemma_rotated_square(rot_cw(g), (k - 1) as nat);
    }
}

pub proof fn lemma_orientation_square(g: Seq<Seq<u8>>, o: nat)
    requires
        is_square(g),
    ensures
        is_square(orientation(g, o)),
        orientation(g, o).len() == g.len(),
{
    lemma_square_transforms(g);
    lemma_rotated_square(g, o);
    lemma_rotated_square(mirror_h(g), (o - 4) as nat);
}

/// The step from orientation `o` to orientation `o + 1` is a quarter turn clockwise,
/// followed by a left-to-right mirror image when `o` is 3; after orientation 7 the same
/// step gives back the grid.
pub proof fn lemma_orientation_step(g: Seq<Seq<u8>>, o: nat)
    requires
        is_rect(g),
        o < 8,
    ensures
        o != 3 && o != 7 ==> orientation(g, o + 1) == rot_cw(orientation(g, o)),
        o == 3 ==> orientation(g, 4) == mirror_h(rot_cw(orientation(g, 3))),
        o == 7 ==> g == mirror_h(rot_cw(orientation(g, 7))),
{
    lemma_mirror_h_shape(g);
    if o < 4 {
        lemma_rotated_step(g, o);
    } else {
        lemma_rotated_step(mirror_h(g), (o - 4) as nat);
        assert((o + 1 - 4) as nat == (o - 4) as nat + 1);
    }
    if o == 3 {
        lemma_rotated_step(g, 3);
        lemma_rotate_four_identity(g);
    }
    if o == 7 {
        lemma_rotated_step(mirror_h(g), 3);
        lemma_rotate_four_identity(mirror_h(g));
        lemma_flip_twice(g, Axis::Horizontal);
    }
}

impl Grid {
    /// A copy of the grid.
    pub fn copy(&self) -> (r: Grid)
        ensures
            r@ == self@,
    {
        let mut rows: Vec<Vec<u8>> = Vec::new();
        let mut i: usize = 0;
        while i < self.rows.len()
            invariant
                i <= self.rows@.len(),
                rows@.len() == i,
                forall|k: int| 0 <= k < i ==> #[trigger] rows@[k]@ == self.rows@[k]@,
            decreases self.rows@.len() - i,
        {
            rows.push(self.rows[i].clone());
            i += 1;
        }
        let r = Grid { rows };
        assert(r@ =~= self@);
        r
    }

    /// The grid in orientation `o` (see `orientation`).
    pub fn oriented(&self, o: usize) -> (r: Grid)
        requires
            self.wf(),
            o < 8,
        ensures
            r@ == orientation(self@, o as nat),
            r.wf(),
    {
        let mut w = if o >= 4 {
            self.flipped_horizontal()
        } else {
            self.copy()
        };
        let ghost g0 = w@;
        proof {
            lemma_rot_half_twice(self@);
            lemma_mirror_h_shape(self@);
            lemma_rot_cw_twice(self@);
            lemma_rot_cw_shape(self@);
            lemma_rot_cw_shape(rot_cw(self@));
        }
        let turns = o % 4;
        let mut k: usize = 0;
        while k < turns
            invariant
                w.wf(),
                is_rect(g0),
                turns < 4,
                k <= turns,
                w@ == rotated(g0, k as nat),
            decreases turns - k,
        {
            proof {
                lemma_rotated_step(g0, k as nat);
            }
            w = w.rotated_right();
            k += 1;
        }
        w
    }
}

impl Grid {
    /// Whether the grid has a row and a column and all rows are equally long.
    pub fn is_rectangular(&self) -> (r: bool)
        ensures
            r == is_rect(self@),
    {
        let h = self.rows.len();
        if h == 0 || self.rows[0].len() == 0 {
            return false;
        }
        let w = self.rows[0].len();
        let mut i: usize = 0;
        while i < h
            invariant
                h == self@.len(),
                h > 0,
                w == self@[0].len(),
                i <= h,
                forall|k: int| 0 <= k < i ==> #[trigger] self@[k].len() == w,
            decreases h - i,
        {
            if self.rows[i].len() != w {
                assert(self@[i as int].len() != w);
                return false;
            }
            i += 1;
        }
        true
    }
}

} // verus!
