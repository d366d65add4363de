//! The elves' memory game: each number spoken is the age of the last one.

use crate::text::{number_of, parse_u64};
use std::collections::HashMap;
use vstd::prelude::*;
use vstd::string::StringSliceAdditionalSpecFns;

verus! {

broadcast use vstd::std_specs::hash::group_hash_axioms;

/// The game after `round` numbers: the last one spoken, and for each number
/// spoken before it, the latest round in which it was spoken.
pub struct Game {
    pub last: u32,
    pub round: u32,
    pub used: HashMap<u32, u32>,
}

/// The state as plain values.
pub struct State {
    pub last: u32,
    pub round: u32,
    pub used: Map<u32, u32>,
}

pub open spec fn add_spec(s: State, num: u32) -> State {
    State { last: num, round: (s.round + 1) as u32, used: s.used.insert(s.last, s.round) }
}

/// The number spoken next: how many rounds ago the last number was spoken
/// before, or zero when it is new.
pub open spec fn next_number(s: State) -> u32 {
    if s.used.contains_key(s.last) {
        (s.round - s.used[s.last]) as u32
    } else {
        0
    }
}

/// The state after `k` more rounds.
pub open spec fn play(s: State, k: nat) -> State
    decreases k,
{
    if k == 0 {
        s
    } else {
        play(add_spec(s, next_number(s)), (k - 1) as nat)
    }
}

/// The state after the starting numbers: the first spoken in round one, each
/// further one added in turn.
pub open spec fn start_state(nums: Seq<u32>) -> State
    decreases nums.len(),
{
    if nums.len() <= 1 {
        State { last: if nums.len() == 0 {
            0
        } else {
            nums[0]
        }, round: 1, used: Map::empty() }
    } else {
        add_spec(start_state(nums.drop_last()), nums.last())
    }
}

pub open spec fn state_ok(s: State) -> bool {
    forall|k: u32| #[trigger] s.used.contains_key(k) ==> s.used[k] < s.round
}

impl Game {
    pub open spec fn state(&self) -> State {
        State { last: self.last, round: self.round, used: self.used@ }
    }

    pub open spec fn wf(&self) -> bool {
        state_ok(self.state())
    }

    /// Starts a game from the numbers in `nums`; `None` when there are none.
    pub fn from_numbers(nums: &Vec<u32>) -> (r: Option<Self>)
        requires
            nums@.len() < u32::MAX,
        ensures
            nums@.len() == 0 <==> r is None,
            r matches Some(g) ==> g.wf() && g.state() == start_state(nums@),
    {
        if nums.len() == 0 {
            return None;
        }
        let mut game = Game { last: nums[0], round: 1, used: HashMap::new() };
        assert(game.state().used =~= Map::empty());
        assert(nums@.subrange(0, 1).len() == 1);
        assert(game.state() == start_state(nums@.subrange(0, 1)));
        let mut i: usize = 1;
        while i < nums.len()
            invariant
                nums@.len() < u32::MAX,
                1 <= i <= nums@.len(),
                game.round == i,
                game.wf(),
                game.state() == start_state(nums@.subrange(0, i as int)),
            decreases nums@.len() - i,
        {
            assert(nums@.subrange(0, i + 1).drop_last() =~= nums@.subrange(0, i as int));
            game.add(nums[i]);
            i += 1;
        }
        assert(nums@.subrange(0, i as int) =~= nums@);
        Some(game)
    }

    /// Starts a game from comma-separated numbers.
    pub fn new(input: &str) -> (r: Option<Self>)
        ensures
            r is Some <==> (numbers_from(input.spec_bytes(), 0) matches Some(nums) && nums.len()
                < u32::MAX),
            r matches Some(g) ==> (g.wf() && (numbers_from(input.spec_bytes(), 0) matches Some(nums)
                && g.state() == start_state(nums))),
    {
        let bytes = input.as_bytes();
        let ghost b = bytes@;
        let mut nums: Vec<u32> = Vec::new();
        let mut start: usize = 0;
        let n = bytes.len();
        assert(nums@ + Seq::<u32>::empty() =~= nums@);
        loop
            invariant_except_break
                numbers_from(b, 0) == prepend_all(nums@, numbers_from(b, start as int)),
            invariant
                n == b.len(),
                b == bytes@,
                b == input.spec_bytes(),
                start <= n,
            ensures
                numbers_from(b, 0) == Some(nums@),
            decreases n - start,
        {
            let mut i = start;
            while i < n && bytes[i] != 44
                invariant
                    start <= i <= n,
                    n == b.len(),
                    b == bytes@,
                    comma_at(b, start as int) == comma_at(b, i as int),
                decreases n - i,
            {
                i += 1;
            }
            assert(comma_at(b, i as int) == i);
            let mut end = i;
            while end > start && (bytes[end - 1] == 10 || bytes[end - 1] == 13)
                invariant
                    start <= end <= i <= n,
                    n == b.len(),
                    b == bytes@,
                    trim_end(b.subrange(start as int, end as int)) == trim_end(b.subrange(start as int, i as int)),
                decreases end,
            {
                assert(b.subrange(start as int, end as int).drop_last() =~= b.subrange(start as int, end - 1));
                end -= 1;
            }
            assert(trim_end(b.subrange(start as int, end as int)) == b.subrange(start as int, end as int));
            let v = match parse_u64(bytes, start, end) {
                Some(v) => if v <= 4294967295 {
                    v as u32
                } else {
                    return None;
                },
                None => {
                    return None;
                },
            };
            let ghost before = nums@;
            nums.push(v);
            proof {
                match numbers_from(b, i + 1) {
                    Some(rest) => {
                        assert(before + (seq![v] + rest) =~= before.push(v) + rest);
                    },
                    None => {},
                }
                assert(before.push(v) =~= before + seq![v]);
            }
            if i == n {
                assert(numbers_from(b, start as int) == Some(seq![v]));
                break;
            }
            start = i + 1;
        }
        if nums.len() >= 4294967295 {
            return None;
        }
        Game::from_numbers(&nums)
    }

    /// Speaks `num`: the last number is recorded with its round.
    pub fn add(&mut self, num: u32)
        requires
            old(self).wf(),
            old(self).round < u32::MAX,
        ensures
            final(self).wf(),
            final(self).state() == add_spec(old(self).state(), num),
    {
        let ghost s0 = self.state();
        self.used.insert(self.last, self.round);
        assert(self.used@ == s0.used.insert(s0.last, s0.round));
        self.last = num;
        self.round += 1;
        assert forall|k: u32| #[trigger] self.used@.contains_key(k) implies self.used@[k] < self.round by {
            if k != s0.last {
                assert(s0.used.contains_key(k));
            }
        }
    }

    /// One round: speaks the age of the last number.
    pub fn step(&mut self)
        requires
            old(self).wf(),
            old(self).round < u32::MAX,
        ensures
            final(self).wf(),
            final(self).state() == add_spec(old(self).state(), next_number(old(self).state())),
    {
        let next = match self.used.get(&self.last) {
            Some(prev) => {
                assert(self.used@.contains_key(self.last) && self.used@[self.last] == *prev);
                assert(self.state().used.contains_key(self.last));
                assert(self.state().used[self.last] < self.round);
                self.round - *prev
            },
            None => 0,
        };
        self.add(next);
    }
}

/// The number spoken in round `target`, starting from `game`.
pub fn play_until(game: &mut Game, target: u32) -> (r: u32)
    requires
        old(game).wf(),
        old(game).round <= target,
    ensures
        r == play(old(game).state(), (target - old(game).round) as nat).last,
{
    let ghost s0 = game.state();
    while game.round < target
        invariant
            game.wf(),
            game.round <= target,
            s0.round <= game.round,
            play(s0, (target - s0.round) as nat) == play(game.state(), (target - game.round) as nat),
        decreases target - game.round,
    {
        game.step();
    }
    game.last
}

/// The number spoken in round `target`, for the starting numbers in the text.
pub open spec fn spoken_in(input: &str, target: u32, v: u32) -> bool {
    numbers_from(input.spec_bytes(), 0) matches Some(nums) && start_state(nums).round <= target && v
        == play(start_state(nums), (target - start_state(nums).round) as nat).last
}

/// The text lists fewer starting numbers than rounds to play.
pub open spec fn playable(input: &str, target: u32) -> bool {
    numbers_from(input.spec_bytes(), 0) matches Some(nums) && nums.len() < u32::MAX
        && start_state(nums).round <= target
}

fn speak_until(input: &str, target: u32) -> (r: Option<u32>)
    ensures
        r is Some <==> playable(input, target),
        r matches Some(v) ==> spoken_in(input, target, v),
{
    let mut game = match Game::new(input) {
        Some(g) => g,
        None => {
            return None;
        },
    };
    if game.round > target {
        return None;
    }
    let v = play_until(&mut game, target);
    Some(v)
}

/// The number spoken in round 2020.
pub fn solve_part1(input: &str) -> (r: Option<u32>)
    ensures
        r is Some <==> playable(input, 2020),
        r matches Some(v) ==> spoken_in(input, 2020, v),
{
    speak_until(input, 2020)
}

/// The number spoken in round 30000000.
pub fn solve_part2(input: &str) -> (r: Option<u32>)
    ensures
        r is Some <==> playable(input, 30000000),
        r matches Some(v) ==> spoken_in(input, 30000000, v),
{
    speak_until(input, 30000000)
}

/// The text with its trailing line breaks removed.
pub open spec fn trim_end(f: Seq<u8>) -> Seq<u8>
    decreases f.len(),
{
    if f.len() > 0 && (f.last() == 10 || f.last() == 13) {
        trim_end(f.drop_last())
    } else {
        f
    }
}

/// The first comma at or after `i`, or the end of the text.
pub open spec fn comma_at(b: Seq<u8>, i: int) -> int
    decreases b.len() - i,
{
    if i >= b.len() || b[i] == 44 {
        i
    } else {
        comma_at(b, i + 1)
    }
}

proof fn lemma_comma_at(b: Seq<u8>, i: int)
    requires
        0 <= i <= b.len(),
    ensures
        i <= comma_at(b, i) <= b.len(),
    decreases b.len() - i,
{
    if !(i >= b.len() || b[i] == 44) {
        lemma_comma_at(b, i + 1);
    }
}

/// A field's number: its digits once trailing line breaks are removed.
pub open spec fn field_value(f: Seq<u8>) -> Option<u32> {
    match number_of(trim_end(f)) {
        Some(v) => if v <= u32::MAX {
            Some(v as u32)
        } else {
            None
        },
        None => None,
    }
}

/// The numbers of the comma-separated fields from byte `i` on; `None` when a
/// field is not a 32-bit number.
pub open spec fn numbers_from(b: Seq<u8>, i: int) -> Option<Seq<u32>>
    decreases b.len() - i via numbers_from_decreases
{
    if i < 0 || i > b.len() {
        None
    } else {
        let c = comma_at(b, i);
        match field_value(b.subrange(i, c)) {
            None => None,
            Some(v) => if c >= b.len() {
                Some(seq![v])
            } else {
                match numbers_from(b, c + 1) {
                    None => None,
                    Some(rest) => Some(seq![v] + rest),
                }
            },
        }
    }
}

#[via_fn]
proof fn numbers_from_decreases(b: Seq<u8>, i: int) {
    if 0 <= i <= b.len() {
        lemma_comma_at(b, i);
    }
}

pub open spec fn prepend_all(done: Seq<u32>, rest: Option<Seq<u32>>) -> Option<Seq<u32>> {
    match rest {
        None => None,
        Some(r) => Some(done + r),
    }
}

} // verus!
