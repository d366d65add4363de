//! Ship navigation: moves, turns by multiples of a quarter turn, and moving
//! forwards, either along the ship's heading or towards a waypoint.

use crate::text::{
    lemma_parse_lines_prefix, lemma_parse_lines_step, lines_spec, number_of, parse_lines, parse_u64,
    split_lines,
};
use vstd::prelude::*;
use vstd::string::StringSliceAdditionalSpecFns;

verus! {

#[derive(Clone, Copy, PartialEq, Eq, Debug, Structural)]
pub enum Action {
    North(i32),
    South(i32),
    East(i32),
    West(i32),
    Left(i32),
    Right(i32),
    Forward(i32),
}

pub open spec fn in_i32(v: int) -> bool {
    i32::MIN <= v <= i32::MAX
}

/// A vector turned counter-clockwise by `degrees` (90, 180 or 270; any other
/// amount leaves it as it is).
pub open spec fn turn_left(v: (int, int), degrees: int) -> (int, int) {
    if degrees == 90 {
        (-v.1, v.0)
    } else if degrees == 180 {
        (-v.0, -v.1)
    } else if degrees == 270 {
        (v.1, -v.0)
    } else {
        v
    }
}

/// A vector turned clockwise by `degrees`.
pub open spec fn turn_right(v: (int, int), degrees: int) -> (int, int) {
    if degrees == 90 {
        (v.1, -v.0)
    } else if degrees == 180 {
        (-v.0, -v.1)
    } else if degrees == 270 {
        (-v.1, v.0)
    } else {
        v
    }
}

/// One action on a position and a direction vector. With `waypoint`, the compass
/// moves shift the direction vector instead of the position.
pub open spec fn step(pos: (int, int), dir: (int, int), a: Action, waypoint: bool) -> ((int, int), (int, int)) {
    match a {
        Action::North(n) => if waypoint {
            (pos, (dir.0, dir.1 + n))
        } else {
            ((pos.0, pos.1 + n), dir)
        },
        Action::South(n) => if waypoint {
            (pos, (dir.0, dir.1 - n))
        } else {
            ((pos.0, pos.1 - n), dir)
        },
        Action::East(n) => if waypoint {
            (pos, (dir.0 + n, dir.1))
        } else {
            ((pos.0 + n, pos.1), dir)
        },
        Action::West(n) => if waypoint {
            (pos, (dir.0 - n, dir.1))
        } else {
            ((pos.0 - n, pos.1), dir)
        },
        Action::Left(d) => (pos, turn_left(dir, d as int)),
        Action::Right(d) => (pos, turn_right(dir, d as int)),
        Action::Forward(n) => ((pos.0 + dir.0 * n, pos.1 + dir.1 * n), dir),
    }
}

/// The action can be carried out with every coordinate, and every product that
/// moving forwards forms, within 32 bits.
pub open spec fn step_fits(pos: (int, int), dir: (int, int), a: Action, waypoint: bool) -> bool {
    let (p, d) = step(pos, dir, a, waypoint);
    &&& in_i32(p.0) && in_i32(p.1) && in_i32(d.0) && in_i32(d.1)
    &&& a matches Action::Forward(n) ==> in_i32(dir.0 * n) && in_i32(dir.1 * n)
}

pub open spec fn manhattan(pos: (int, int)) -> int {
    (if pos.0 < 0 {
        -pos.0
    } else {
        pos.0
    }) + (if pos.1 < 0 {
        -pos.1
    } else {
        pos.1
    })
}

pub open spec fn as_ints(v: (i32, i32)) -> (int, int) {
    (v.0 as int, v.1 as int)
}

/// Carries out the actions in order from `pos` and `dir`.
pub open spec fn run_actions(pos: (int, int), dir: (int, int), actions: Seq<Action>, waypoint: bool) -> ((int, int), (int, int))
    decreases actions.len(),
{
    if actions.len() == 0 {
        (pos, dir)
    } else {
        let (p, d) = run_actions(pos, dir, actions.drop_last(), waypoint);
        step(p, d, actions.last(), waypoint)
    }
}

/// Every action along the way fits in 32 bits.
pub open spec fn run_fits(pos: (int, int), dir: (int, int), actions: Seq<Action>, waypoint: bool) -> bool
    decreases actions.len(),
{
    if actions.len() == 0 {
        true
    } else {
        let (p, d) = run_actions(pos, dir, actions.drop_last(), waypoint);
        run_fits(pos, dir, actions.drop_last(), waypoint) && step_fits(p, d, actions.last(), waypoint)
    }
}

/// The counter-clockwise angle equal to turning by `degrees` to the given side.
fn as_left(degrees: i32, left: bool) -> (r: i32)
    ensures
        forall|v: (int, int)|
            #[trigger] turn_left(v, r as int) == if left {
                turn_left(v, degrees as int)
            } else {
                turn_right(v, degrees as int)
            },
{
    if left {
        degrees
    } else if degrees == 90 {
        270
    } else if degrees == 270 {
        90
    } else {
        degrees
    }
}

fn turn(v: (i32, i32), degrees: i32, left: bool) -> (r: (i32, i32))
    requires
        in_i32(
            (if left {
                turn_left(as_ints(v), degrees as int)
            } else {
                turn_right(as_ints(v), degrees as int)
            }).0,
        ),
        in_i32(
            (if left {
                turn_left(as_ints(v), degrees as int)
            } else {
                turn_right(as_ints(v), degrees as int)
            }).1,
        ),
    ensures
        as_ints(r) == if left {
            turn_left(as_ints(v), degrees as int)
        } else {
            turn_right(as_ints(v), degrees as int)
        },
{
    let d = as_left(degrees, left);
    // instantiates the contract of `as_left` for this vector
    assert(turn_left(as_ints(v), d as int) == turn_left(as_ints(v), d as int));
    if d == 90 {
        (-v.1, v.0)
    } else if d == 180 {
        (-v.0, -v.1)
    } else if d == 270 {
        (v.1, -v.0)
    } else {
        v
    }
}

/// Whether `step` fits in 32 bits, tested without overflow.
fn fits(pos: (i32, i32), dir: (i32, i32), a: Action, waypoint: bool) -> (r: bool)
    ensures
        r == step_fits(as_ints(pos), as_ints(dir), a, waypoint),
{
    let p0 = pos.0 as i64;
    let p1 = pos.1 as i64;
    let d0 = dir.0 as i64;
    let d1 = dir.1 as i64;
    let lo = i32::MIN as i64;
    let hi = i32::MAX as i64;
    let ok = |v: i64| -> (b: bool)
        ensures
            b == (lo <= v <= hi),
        { lo <= v && v <= hi };
    match a {
        Action::North(n) => if waypoint {
            ok(d1 + n as i64)
        } else {
            ok(p1 + n as i64)
        },
        Action::South(n) => if waypoint {
            ok(d1 - n as i64)
        } else {
            ok(p1 - n as i64)
        },
        Action::East(n) => if waypoint {
            ok(d0 + n as i64)
        } else {
            ok(p0 + n as i64)
        },
        Action::West(n) => if waypoint {
            ok(d0 - n as i64)
        } else {
            ok(p0 - n as i64)
        },
        Action::Left(d) => {
            let e = as_left(d, true);
            // instantiates the contract of `as_left` for this vector
            assert(turn_left(as_ints(dir), e as int) == turn_left(as_ints(dir), e as int));
            if e == 90 {
                ok(-d1)
            } else if e == 180 {
                ok(-d0) && ok(-d1)
            } else if e == 270 {
                ok(-d0)
            } else {
                true
            }
        },
        Action::Right(d) => {
            let e = as_left(d, false);
            // instantiates the contract of `as_left` for this vector
            assert(turn_left(as_ints(dir), e as int) == turn_left(as_ints(dir), e as int));
            if e == 90 {
                ok(-d1)
            } else if e == 180 {
                ok(-d0) && ok(-d1)
            } else if e == 270 {
                ok(-d0)
            } else {
                true
            }
        },
        Action::Forward(n) => {
            let ni = n as i64;
            proof {
                assert(-0x8000_0000_0000_0000 <= d0 * ni <= 0x7fff_ffff_ffff_ffff) by (nonlinear_arith)
                    requires
                        i32::MIN <= d0 <= i32::MAX,
                        i32::MIN <= ni <= i32::MAX,
                ;
                assert(-0x8000_0000_0000_0000 <= d1 * ni <= 0x7fff_ffff_ffff_ffff) by (nonlinear_arith)
                    requires
                        i32::MIN <= d1 <= i32::MAX,
                        i32::MIN <= ni <= i32::MAX,
                ;
            }
            let x = d0 * ni;
            let y = d1 * ni;
            ok(x) && ok(y) && ok(p0 + x) && ok(p1 + y)
        },
    }
}

/// A ship that moves along its heading.
pub struct Ship {
    pub position: (i32, i32),
    pub heading: (i32, i32),
}

impl Ship {
    /// At the origin, facing east.
    pub fn new() -> (r: Self)
        ensures
            r.position == (0i32, 0i32),
            r.heading == (1i32, 0i32),
    {
        Ship { position: (0, 0), heading: (1, 0) }
    }

    pub fn act(&mut self, action: Action)
        requires
            step_fits(as_ints(old(self).position), as_ints(old(self).heading), action, false),
        ensures
            (as_ints(final(self).position), as_ints(final(self).heading)) == step(
                as_ints(old(self).position),
                as_ints(old(self).heading),
                action,
                false,
            ),
    {
        match action {
            Action::North(amount) => {
                self.position = (self.position.0, self.position.1 + amount);
            },
            Action::South(amount) => {
                self.position = (self.position.0, self.position.1 - amount);
            },
            Action::East(amount) => {
                self.position = (self.position.0 + amount, self.position.1);
            },
            Action::West(amount) => {
                self.position = (self.position.0 - amount, self.position.1);
            },
            Action::Left(amount) => {
                self.heading = turn(self.heading, amount, true);
            },
            Action::Right(amount) => {
                self.heading = turn(self.heading, amount, false);
            },
            Action::Forward(amount) => {
                let dx = self.heading.0 * amount;
                let dy = self.heading.1 * amount;
                self.position = (self.position.0 + dx, self.position.1 + dy);
            },
        }
    }

    /// The Manhattan distance from the origin.
    pub fn distance(&self) -> (r: i32)
        requires
            manhattan(as_ints(self.position)) <= i32::MAX,
        ensures
            r == manhattan(as_ints(self.position)),
    {
        distance_of(self.position)
    }
}

fn distance_of(p: (i32, i32)) -> (r: i32)
    requires
        manhattan(as_ints(p)) <= i32::MAX,
    ensures
        r == manhattan(as_ints(p)),
{
    let x = if p.0 < 0 {
        -(p.0 as i64)
    } else {
        p.0 as i64
    };
    let y = if p.1 < 0 {
        -(p.1 as i64)
    } else {
        p.1 as i64
    };
    (x + y) as i32
}

/// A ship steered by a waypoint that moves with it.
pub struct ShipWaypoint {
    pub position: (i32, i32),
    pub waypoint: (i32, i32),
}

impl ShipWaypoint {
    /// At the origin, with the waypoint ten east and one north.
    pub fn new() -> (r: Self)
        ensures
            r.position == (0i32, 0i32),
            r.waypoint == (10i32, 1i32),
    {
        Self { position: (0, 0), waypoint: (10, 1) }
    }

    pub fn act(&mut self, action: Action)
        requires
            step_fits(as_ints(old(self).position), as_ints(old(self).waypoint), action, true),
        ensures
            (as_ints(final(self).position), as_ints(final(self).waypoint)) == step(
                as_ints(old(self).position),
                as_ints(old(self).waypoint),
                action,
                true,
            ),
    {
        match action {
            Action::North(amount) => {
                self.waypoint = (self.waypoint.0, self.waypoint.1 + amount);
            },
            Action::South(amount) => {
                self.waypoint = (self.waypoint.0, self.waypoint.1 - amount);
            },
            Action::East(amount) => {
                self.waypoint = (self.waypoint.0 + amount, self.waypoint.1);
            },
            Action::West(amount) => {
                self.waypoint = (self.waypoint.0 - amount, self.waypoint.1);
            },
            Action::Left(amount) => {
                self.waypoint = turn(self.waypoint, amount, true);
            },
            Action::Right(amount) => {
                self.waypoint = turn(self.waypoint, amount, false);
            },
            Action::Forward(amount) => {
                let dx = self.waypoint.0 * amount;
                let dy = self.waypoint.1 * amount;
                self.position = (self.position.0 + dx, self.position.1 + dy);
            },
        }
    }

    /// The Manhattan distance from the origin.
    pub fn distance(&self) -> (r: i32)
        requires
            manhattan(as_ints(self.position)) <= i32::MAX,
        ensures
            r == manhattan(as_ints(self.position)),
    {
        distance_of(self.position)
    }
}

/// The distance travelled when the actions steer the ship itself (`waypoint`
/// false) or its waypoint; `None` when a value leaves the 32-bit range.
fn navigate(input: &[Action], waypoint: bool) -> (r: Option<i32>)
    ensures
        r matches Some(d) ==> {
            let (p, _) = if waypoint {
                run_actions((0, 0), (10, 1), input@, true)
            } else {
                run_actions((0, 0), (1, 0), input@, false)
            };
            d == manhattan(p)
        },
        r is None ==> !(if waypoint {
            run_fits((0, 0), (10, 1), input@, true)
        } else {
            run_fits((0, 0), (1, 0), input@, false)
        }) || manhattan(
            (if waypoint {
                run_actions((0, 0), (10, 1), input@, true)
            } else {
                run_actions((0, 0), (1, 0), input@, false)
            }).0,
        ) > i32::MAX,
{
    let mut pos: (i32, i32) = (0, 0);
    let mut dir: (i32, i32) = if waypoint {
        (10, 1)
    } else {
        (1, 0)
    };
    let ghost start_dir: (int, int) = as_ints(dir);
    let mut i: usize = 0;
    assert(input@.subrange(0, 0) =~= Seq::<Action>::empty());
    while i < input.len()
        invariant
            i <= input@.len(),
            start_dir == (if waypoint {
                (10int, 1int)
            } else {
                (1int, 0int)
            }),
            (as_ints(pos), as_ints(dir)) == run_actions((0, 0), start_dir, input@.subrange(0, i as int), waypoint),
            run_fits((0, 0), start_dir, input@.subrange(0, i as int), waypoint),
        decreases input@.len() - i,
    {
        let a = input[i];
        let ghost pre = input@.subrange(0, i as int);
        let ghost next = input@.subrange(0, i + 1);
        assert(next.drop_last() =~= pre);
        if !fits(pos, dir, a, waypoint) {
            proof {
                lemma_fits_prefix((0, 0), start_dir, input@, waypoint, (i + 1) as nat);
                assert(input@.subrange(0, input@.len() as int) =~= input@);
            }
            return None;
        }
        if waypoint {
            let mut s = ShipWaypoint { position: pos, waypoint: dir };
            s.act(a);
            pos = s.position;
            dir = s.waypoint;
        } else {
            let mut s = Ship { position: pos, heading: dir };
            s.act(a);
            pos = s.position;
            dir = s.heading;
        }
        i += 1;
    }
    assert(input@.subrange(0, input@.len() as int) =~= input@);
    let x = if pos.0 < 0 {
        -(pos.0 as i64)
    } else {
        pos.0 as i64
    };
    let y = if pos.1 < 0 {
        -(pos.1 as i64)
    } else {
        pos.1 as i64
    };
    if x + y > i32::MAX as i64 {
        return None;
    }
    Some(distance_of(pos))
}

/// A run fits only if each of its prefixes does.
proof fn lemma_fits_prefix(pos: (int, int), dir: (int, int), actions: Seq<Action>, waypoint: bool, k: nat)
    requires
        k <= actions.len(),
        !run_fits(pos, dir, actions.subrange(0, k as int), waypoint),
    ensures
        !run_fits(pos, dir, actions, waypoint),
    decreases actions.len(),
{
    if k < actions.len() {
        assert(actions.drop_last().subrange(0, k as int) =~= actions.subrange(0, k as int));
        lemma_fits_prefix(pos, dir, actions.drop_last(), waypoint, k);
    } else {
        assert(actions.subrange(0, k as int) =~= actions);
    }
}

/// The ship's distance from the origin after steering itself.
pub fn solve_part1(input: &[Action]) -> (r: Option<i32>)
    ensures
        r matches Some(d) ==> d == manhattan(run_actions((0, 0), (1, 0), input@, false).0),
        r is None ==> !run_fits((0, 0), (1, 0), input@, false) || manhattan(
            run_actions((0, 0), (1, 0), input@, false).0,
        ) > i32::MAX,
{
    navigate(input, false)
}

/// The ship's distance from the origin after steering by the waypoint.
pub fn solve_part2(input: &[Action]) -> (r: Option<i32>)
    ensures
        r matches Some(d) ==> d == manhattan(run_actions((0, 0), (10, 1), input@, true).0),
        r is None ==> !run_fits((0, 0), (10, 1), input@, true) || manhattan(
            run_actions((0, 0), (10, 1), input@, true).0,
        ) > i32::MAX,
{
    navigate(input, true)
}

/// A letter among `NSEWLRF` followed by a number.
pub open spec fn action_of(line: Seq<u8>) -> Option<Action> {
    if line.len() < 2 {
        None
    } else {
        match number_of(line.drop_first()) {
            None => None,
            Some(v) => if v > i32::MAX {
                None
            } else {
                let n = v as i32;
                let c = line[0];
                if c == 78 {
                    Some(Action::North(n))
                } else if c == 83 {
                    Some(Action::South(n))
                } else if c == 69 {
                    Some(Action::East(n))
                } else if c == 87 {
                    Some(Action::West(n))
                } else if c == 76 {
                    Some(Action::Left(n))
                } else if c == 82 {
                    Some(Action::Right(n))
                } else if c == 70 {
                    Some(Action::Forward(n))
                } else {
                    None
                }
            },
        }
    }
}

pub fn parse_action(line: &Vec<u8>) -> (r: Option<Action>)
    ensures
        r == action_of(line@),
{
    let len = line.len();
    if len < 2 {
        return None;
    }
    assert(line@.drop_first() =~= line@.subrange(1, len as int));
    let v = match parse_u64(line.as_slice(), 1, len) {
        Some(v) => v,
        None => {
            return None;
        },
    };
    if v > 2147483647 {
        return None;
    }
    let n = v as i32;
    let c = line[0];
    if c == 78 {
        Some(Action::North(n))
    } else if c == 83 {
        Some(Action::South(n))
    } else if c == 69 {
        Some(Action::East(n))
    } else if c == 87 {
        Some(Action::West(n))
    } else if c == 76 {
        Some(Action::Left(n))
    } else if c == 82 {
        Some(Action::Right(n))
    } else if c == 70 {
        Some(Action::Forward(n))
    } else {
        None
    }
}

pub open spec fn actions_of(lines: Seq<Seq<u8>>) -> Option<Seq<Action>> {
    parse_lines(lines, |l: Seq<u8>| action_of(l))
}

/// One action per non-empty line.
pub fn parser(input: &str) -> (r: Option<Vec<Action>>)
    ensures
        r matches Some(v) ==> actions_of(lines_spec(input.spec_bytes())) == Some(v@),
        r is None <==> actions_of(lines_spec(input.spec_bytes())) is None,
{
    let lines = split_lines(input.as_bytes());
    let ghost lv = lines_spec(input.spec_bytes());
    let ghost f = |l: Seq<u8>| action_of(l);
    let mut out: Vec<Action> = Vec::new();
    let mut i: usize = 0;
    assert(lv.subrange(0, 0) =~= Seq::<Seq<u8>>::empty());
    while i < lines.len()
        invariant
            lv == Seq::new(lines@.len(), |k: int| lines@[k]@),
            lv == lines_spec(input.spec_bytes()),
            f == (|l: Seq<u8>| action_of(l)),
            i <= lines@.len(),
            parse_lines(lv.subrange(0, i as int), f) == Some(out@),
        decreases lines@.len() - i,
    {
        proof {
            lemma_parse_lines_step(lv, f, i as int);
        }
        assert(lv[i as int] == lines@[i as int]@);
        if lines[i].len() > 0 {
            match parse_action(&lines[i]) {
                Some(v) => out.push(v),
                None => {
                    proof {
                        lemma_parse_lines_prefix(lv, f, i + 1);
                    }
                    return None;
                },
            }
        }
        i += 1;
    }
    assert(lv.subrange(0, i as int) =~= lv);
    Some(out)
}

} // verus!
