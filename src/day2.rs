//! Password policies: a letter must occur a bounded number of times, or at
//! exactly one of two positions.

use crate::text::{number_of, parse_u64, split_lines};
use vstd::prelude::*;

verus! {

/// A policy and a password: `lower-upper letter: pass`.
pub struct Password {
    pub lower: u32,
    pub upper: u32,
    pub letter: u8,
    pub pass: Vec<u8>,
}

/// How often `c` occurs in `s`.
pub open spec fn occurrences(s: Seq<u8>, c: u8) -> nat
    decreases s.len(),
{
    if s.len() == 0 {
        0
    } else {
        occurrences(s.drop_last(), c) + if s.last() == c {
            1nat
        } else {
            0nat
        }
    }
}

pub open spec fn valid_by_count(p: Password) -> bool {
    p.lower <= occurrences(p.pass@, p.letter) <= p.upper
}

/// The letter stands at exactly one of the two (one-based) positions.
pub open spec fn valid_by_position(p: Password) -> bool {
    (p.pass@[p.lower - 1] == p.letter) != (p.pass@[p.upper - 1] == p.letter)
}

/// Both positions lie within the password.
pub open spec fn positions_ok(p: Password) -> bool {
    1 <= p.lower <= p.pass@.len() && 1 <= p.upper <= p.pass@.len()
}

/// How many of the first `k` entries satisfy the policy.
pub open spec fn count_valid(ps: Seq<Password>, k: int, by_position: bool) -> nat
    decreases k,
{
    if k <= 0 {
        0
    } else {
        count_valid(ps, k - 1, by_position) + if (if by_position {
            valid_by_position(ps[k - 1])
        } else {
            valid_by_count(ps[k - 1])
        }) {
            1nat
        } else {
            0nat
        }
    }
}

proof fn lemma_count_valid_bound(ps: Seq<Password>, k: int, by_position: bool)
    requires
        k >= 0,
    ensures
        count_valid(ps, k, by_position) <= k,
    decreases k,
{
    if k > 0 {
        lemma_count_valid_bound(ps, k - 1, by_position);
    }
}

fn count_letter(s: &Vec<u8>, c: u8) -> (r: usize)
    ensures
        r == occurrences(s@, c),
{
    let mut n: usize = 0;
    let mut i: usize = 0;
    while i < s.len()
        invariant
            i <= s@.len(),
            n == occurrences(s@.subrange(0, i as int), c),
            n <= i,
        decreases s@.len() - i,
    {
        assert(s@.subrange(0, i + 1).drop_last() =~= s@.subrange(0, i as int));
        if s[i] == c {
            n += 1;
        }
        i += 1;
    }
    assert(s@.subrange(0, i as int) =~= s@);
    n
}

/// How many passwords hold their letter between `lower` and `upper` times.
pub fn solve_part1(input: &[Password]) -> (r: u32)
    requires
        input@.len() <= u32::MAX,
    ensures
        r == count_valid(input@, input@.len() as int, false),
{
    let mut valid_count: u32 = 0;
    let mut i: usize = 0;
    while i < input.len()
        invariant
            input@.len() <= u32::MAX,
            i <= input@.len(),
            valid_count == count_valid(input@, i as int, false),
        decreases input@.len() - i,
    {
        proof {
            lemma_count_valid_bound(input@, i as int, false);
        }
        let p = &input[i];
        let chr_count = count_letter(&p.pass, p.letter);
        if p.lower as usize <= chr_count && chr_count <= p.upper as usize {
            valid_count += 1;
        }
        i += 1;
    }
    valid_count
}

/// How many passwords hold their letter at exactly one of the two positions.
pub fn solve_part2(input: &[Password]) -> (r: u32)
    requires
        input@.len() <= u32::MAX,
        forall|i: int| 0 <= i < input@.len() ==> positions_ok(#[trigger] input@[i]),
    ensures
        r == count_valid(input@, input@.len() as int, true),
{
    let mut valid_count: u32 = 0;
    let mut i: usize = 0;
    while i < input.len()
        invariant
            input@.len() <= u32::MAX,
            forall|i: int| 0 <= i < input@.len() ==> positions_ok(#[trigger] input@[i]),
            i <= input@.len(),
            valid_count == count_valid(input@, i as int, true),
        decreases input@.len() - i,
    {
        proof {
            lemma_count_valid_bound(input@, i as int, true);
        }
        let p = &input[i];
        assert(positions_ok(input@[i as int]));
        let first_chr = p.pass[p.lower as usize - 1];
        let second_chr = p.pass[p.upper as usize - 1];
        if (first_chr == p.letter) != (second_chr == p.letter) {
            valid_count += 1;
        }
        i += 1;
    }
    valid_count
}

/// The text of an entry: `lower-upper letter: pass`.
pub open spec fn entry_text(lo: Seq<u8>, hi: Seq<u8>, letter: u8, pass: Seq<u8>) -> Seq<u8> {
    lo + seq![45u8] + hi + seq![32u8, letter, 58u8, 32u8] + pass
}

pub open spec fn describes(line: Seq<u8>, p: Password) -> bool {
    exists|lo: Seq<u8>, hi: Seq<u8>|
        #![trigger entry_text(lo, hi, p.letter, p.pass@)]
        number_of(lo) == Some(p.lower as u64) && number_of(hi) == Some(p.upper as u64) && line
            == entry_text(lo, hi, p.letter, p.pass@)
}

/// The first index at or after `from` holding `b`, or the length.
fn find_byte(s: &Vec<u8>, from: usize, b: u8) -> (r: usize)
    requires
        from <= s@.len(),
    ensures
        from <= r <= s@.len(),
        r < s@.len() ==> s@[r as int] == b,
        forall|k: int| from <= k < r ==> s@[k] != b,
{
    let mut i = from;
    while i < s.len()
        invariant
            from <= i <= s@.len(),
            forall|k: int| from <= k < i ==> s@[k] != b,
        decreases s@.len() - i,
    {
        if s[i] == b {
            return i;
        }
        i += 1;
    }
    i
}

/// Reads one entry.
pub fn parse_password(line: &Vec<u8>) -> (r: Option<Password>)
    ensures
        r matches Some(p) ==> describes(line@, p),
{
    let n = line.len();
    let dash = find_byte(line, 0, 45);
    if dash >= n {
        return None;
    }
    let space = find_byte(line, dash + 1, 32);
    if n - space < 4 || line[space + 2] != 58 || line[space + 3] != 32 {
        return None;
    }
    let lower = match parse_u64(line.as_slice(), 0, dash) {
        Some(v) => v,
        None => {
            return None;
        },
    };
    let upper = match parse_u64(line.as_slice(), dash + 1, space) {
        Some(v) => v,
        None => {
            return None;
        },
    };
    if lower > 4294967295 || upper > 4294967295 {
        return None;
    }
    let letter = line[space + 1];
    let mut pass: Vec<u8> = Vec::new();
    let mut i = space + 4;
    while i < n
        invariant
            space + 4 <= i <= n,
            n == line@.len(),
            pass@ == line@.subrange(space + 4, i as int),
        decreases n - i,
    {
        pass.push(line[i]);
        i += 1;
        assert(pass@ =~= line@.subrange(space + 4, i as int));
    }
    let p = Password { lower: lower as u32, upper: upper as u32, letter, pass };
    proof {
        let lo = line@.subrange(0, dash as int);
        let hi = line@.subrange(dash + 1, space as int);
        assert(line@ =~= entry_text(lo, hi, letter, p.pass@));
        assert(number_of(lo) == Some(p.lower as u64));
        assert(number_of(hi) == Some(p.upper as u64));
        assert(line@ == entry_text(lo, hi, p.letter, p.pass@));
        assert(describes(line@, p));
    }
    Some(p)
}

/// One entry per non-empty line.
pub fn parser(input: &str) -> (r: Option<Vec<Password>>)
{
    let lines = split_lines(input.as_bytes());
    let mut out: Vec<Password> = Vec::new();
    let mut i: usize = 0;
    while i < lines.len()
        invariant
            i <= lines@.len(),
        decreases lines@.len() - i,
    {
        if lines[i].len() > 0 {
            match parse_password(&lines[i]) {
                Some(p) => out.push(p),
                None => {
                    return None;
                },
            }
        }
        i += 1;
    }
    Some(out)
}

} // verus!
