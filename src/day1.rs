//! Expense report: the entries that sum to 2020, two or three of them.

use crate::text::{
    lemma_parse_lines_prefix, lemma_parse_lines_step, lines_spec, number_of, parse_lines, parse_u64,
    split_lines,
};
use vstd::prelude::*;
use vstd::string::StringSliceAdditionalSpecFns;

verus! {

pub open spec fn entry_of(line: Seq<u8>) -> Option<u32> {
    match number_of(line) {
        Some(v) => if v <= u32::MAX {
            Some(v as u32)
        } else {
            None
        },
        None => None,
    }
}

pub open spec fn entries_of(lines: Seq<Seq<u8>>) -> Option<Seq<u32>> {
    parse_lines(lines, |l: Seq<u8>| entry_of(l))
}

/// One entry per non-empty line.
pub fn parser(input: &str) -> (r: Option<Vec<u32>>)
    ensures
        r matches Some(v) ==> entries_of(lines_spec(input.spec_bytes())) == Some(v@),
        r is None <==> entries_of(lines_spec(input.spec_bytes())) is None,
{
    let lines = split_lines(input.as_bytes());
    let ghost lv = lines_spec(input.spec_bytes());
    let ghost f = |l: Seq<u8>| entry_of(l);
    let mut out: Vec<u32> = Vec::new();
    let mut i: usize = 0;
    assert(lv.subrange(0, 0) =~= Seq::<Seq<u8>>::empty());
    while i < lines.len()
        invariant
            lv == Seq::new(lines@.len(), |k: int| lines@[k]@),
            lv == lines_spec(input.spec_bytes()),
            f == (|l: Seq<u8>| entry_of(l)),
            i <= lines@.len(),
            parse_lines(lv.subrange(0, i as int), f) == Some(out@),
        decreases lines@.len() - i,
    {
        proof {
            lemma_parse_lines_step(lv, f, i as int);
        }
        assert(lv[i as int] == lines@[i as int]@);
        assert(lines@[i as int]@.subrange(0, lines@[i as int]@.len() as int) =~= lines@[i as int]@);
        if lines[i].len() > 0 {
            let parsed = match parse_u64(lines[i].as_slice(), 0, lines[i].len()) {
                Some(v) => if v <= 4294967295 {
                    Some(v as u32)
                } else {
                    None
                },
                None => None,
            };
            match parsed {
                Some(v) => out.push(v),
                None => {
                    proof {
                        lemma_parse_lines_prefix(lv, f, i + 1);
                    }
                    return None;
                },
            }
        }
        i += 1;
    }
    assert(lv.subrange(0, i as int) =~= lv);
    Some(out)
}

/// Entry `j` has an earlier entry that it sums to 2020 with.
pub open spec fn pairs_back(input: Seq<u32>, j: int) -> bool {
    exists|i: int| 0 <= i < j && input[i] + input[j] == 2020
}

fn index_of(v: &Vec<u32>, x: u32) -> (r: Option<usize>)
    ensures
        r matches Some(i) ==> i < v@.len() && v@[i as int] == x,
        r is None ==> !v@.contains(x),
{
    let mut i: usize = 0;
    while i < v.len()
        invariant
            i <= v@.len(),
            forall|k: int| 0 <= k < i ==> v@[k] != x,
        decreases v@.len() - i,
    {
        if v[i] == x {
            return Some(i);
        }
        i += 1;
    }
    None
}

/// The product of the first pair of entries summing to 2020: the first entry
/// that pairs with an earlier one, times that earlier one.
pub fn solve_part1(input: &[u32]) -> (r: Option<u32>)
    ensures
        r matches Some(p) ==> exists|i: int, j: int|
            0 <= i < j < input@.len() && input@[i] + input@[j] == 2020 && p == input@[i] * input@[j]
                && forall|k: int| 0 <= k < j ==> !#[trigger] pairs_back(input@, k),
        r is None ==> forall|k: int| 0 <= k < input@.len() ==> !#[trigger] pairs_back(input@, k),
{
    let mut seen: Vec<u32> = Vec::new();
    let mut j: usize = 0;
    while j < input.len()
        invariant
            j <= input@.len(),
            seen@ == input@.subrange(0, j as int),
            forall|k: int| 0 <= k < j ==> !#[trigger] pairs_back(input@, k),
        decreases input@.len() - j,
    {
        let num = input[j];
        if num <= 2020 {
            let complement = 2020 - num;
            match index_of(&seen, complement) {
                Some(i) => {
                    assert(input@[i as int] == complement);
                    assert(complement * num <= 2020 * 2020) by (nonlinear_arith)
                        requires
                            complement <= 2020,
                            num <= 2020,
                    ;
                    return Some(complement * num);
                },
                None => {
                    assert(!pairs_back(input@, j as int)) by {
                        if pairs_back(input@, j as int) {
                            let i = choose|i: int| 0 <= i < j && input@[i] + input@[j as int] == 2020;
                            assert(seen@[i] == complement);
                        }
                    }
                },
            }
        }
        seen.push(num);
        assert(seen@ =~= input@.subrange(0, j + 1));
        j += 1;
    }
    None
}

/// Entry `j` completes a triple summing to 2020 with two earlier entries, the
/// first of them not zero (an earlier entry may be used twice).
pub open spec fn triple_back(input: Seq<u32>, j: int) -> bool {
    exists|a: int, b: int|
        0 <= a < j && 0 <= b < j && input[a] > 0 && input[a] + input[b] + input[j] == 2020
}

/// The product of the first triple of entries summing to 2020, found when its
/// last entry is reached.
pub fn solve_part2(input: &[u32]) -> (r: Option<u64>)
    ensures
        r matches Some(p) ==> exists|a: int, b: int, j: int|
            0 <= a < j && 0 <= b < j && j < input@.len() && input@[a] > 0 && input@[a] + input@[b]
                + input@[j] == 2020 && p == input@[a] * input@[b] * input@[j]
                && forall|k: int| 0 <= k < j ==> !#[trigger] triple_back(input@, k),
        r is None ==> forall|k: int| 0 <= k < input@.len() ==> !#[trigger] triple_back(input@, k),
{
    let mut seen: Vec<u32> = Vec::new();
    let mut j: usize = 0;
    while j < input.len()
        invariant
            j <= input@.len(),
            seen@ == input@.subrange(0, j as int),
            forall|k: int| 0 <= k < j ==> !#[trigger] triple_back(input@, k),
        decreases input@.len() - j,
    {
        let num = input[j];
        let mut b: usize = 0;
        while b < seen.len()
            invariant
                j < input@.len(),
                num == input@[j as int],
                forall|k: int| 0 <= k < j ==> !#[trigger] triple_back(input@, k),
                seen@ == input@.subrange(0, j as int),
                b <= seen@.len(),
                forall|bb: int, a: int|
                    0 <= bb < b && 0 <= a < j && input@[a] > 0 ==> input@[a] + input@[bb] + input@[j as int] != 2020,
            decreases seen@.len() - b,
        {
            let other = seen[b];
            if (num as u64) + (other as u64) < 2020 {
                let complement = (2020 - (num as u64 + other as u64)) as u32;
                match index_of(&seen, complement) {
                    Some(a) => {
                        assert(input@[a as int] == complement);
                        let (c64, n64, o64) = (complement as u64, num as u64, other as u64);
                        assert(c64 * n64 <= 2020 * 2020) by (nonlinear_arith)
                            requires
                                c64 <= 2020,
                                n64 <= 2020,
                        ;
                        assert(c64 * n64 * o64 <= 2020 * 2020 * 2020) by (nonlinear_arith)
                            requires
                                c64 * n64 <= 2020 * 2020,
                                o64 <= 2020,
                        ;
                        let p = c64 * n64 * o64;
                        assert(p == input@[a as int] * input@[b as int] * input@[j as int]) by (nonlinear_arith)
                            requires
                                p == complement as u64 * num as u64 * other as u64,
                                input@[a as int] == complement,
                                input@[b as int] == other,
                                input@[j as int] == num,
                                complement <= 2020,
                                num <= 2020,
                                other <= 2020,
                        ;
                        return Some(p);
                    },
                    None => {
                        assert forall|a: int| 0 <= a < j && input@[a] > 0 implies input@[a] + input@[b as int] + input@[j as int] != 2020 by {
                            if input@[a] + input@[b as int] + input@[j as int] == 2020 {
                                assert(seen@[a] == complement);
                            }
                        }
                    },
                }
            }
            b += 1;
        }
        assert(!triple_back(input@, j as int));
        seen.push(num);
        assert(seen@ =~= input@.subrange(0, j + 1));
        j += 1;
    }
    None
}

} // verus!
