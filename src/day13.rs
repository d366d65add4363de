//! Shuttle buses: the earliest bus after a timestamp, and the earliest timestamp
//! at which the buses leave at their offsets.

use crate::text::{lines_spec, number_of, parse_u64, split_lines};
use vstd::arithmetic::div_mod::{lemma_fundamental_div_mod, lemma_mod_multiples_basic};
use vstd::prelude::*;
use vstd::string::StringSliceAdditionalSpecFns;

verus! {

/// The wait from `timestamp` for a bus with period `id`.
pub open spec fn wait(timestamp: int, id: int) -> int {
    id - timestamp % id
}

/// Splits `line` at commas into its fields.
pub fn split_fields(line: &Vec<u8>) -> (r: Vec<Vec<u8>>)
    ensures
        r@.len() >= 1,
        forall|i: int, j: int| 0 <= i < r@.len() && 0 <= j < r@[i]@.len() ==> #[trigger] r@[i]@[j] != 44,
{
    let mut out: Vec<Vec<u8>> = Vec::new();
    let mut cur: Vec<u8> = Vec::new();
    let mut i: usize = 0;
    while i < line.len()
        invariant
            i <= line@.len(),
            forall|k: int, j: int| 0 <= k < out@.len() && 0 <= j < out@[k]@.len() ==> #[trigger] out@[k]@[j] != 44,
            forall|j: int| 0 <= j < cur@.len() ==> #[trigger] cur@[j] != 44,
        decreases line@.len() - i,
    {
        if line[i] == 44 {
            out.push(cur);
            cur = Vec::new();
        } else {
            cur.push(line[i]);
        }
        i += 1;
    }
    out.push(cur);
    out
}

/// The timestamp on the first line and the bus periods of the second, fields that
/// are not numbers (`x`) skipped.
pub fn parser(input: &str) -> (r: Option<(u32, Vec<u32>)>)
    ensures
        r matches Some((t, _)) ==> lines_spec(input.spec_bytes()).len() >= 2 && number_of(
            lines_spec(input.spec_bytes())[0],
        ) == Some(t as u64),
{
    let lines = split_lines(input.as_bytes());
    let ghost lv = lines_spec(input.spec_bytes());
    if lines.len() < 2 {
        return None;
    }
    assert(lv[0] == lines@[0]@);
    assert(lines@[0]@.subrange(0, lines@[0]@.len() as int) =~= lines@[0]@);
    let timestamp = match parse_u64(lines[0].as_slice(), 0, lines[0].len()) {
        Some(v) => if v <= 4294967295 {
            v as u32
        } else {
            return None;
        },
        None => {
            return None;
        },
    };
    let fields = split_fields(&lines[1]);
    let mut busses: Vec<u32> = Vec::new();
    let mut i: usize = 0;
    while i < fields.len()
        invariant
            i <= fields@.len(),
        decreases fields@.len() - i,
    {
        match parse_u64(fields[i].as_slice(), 0, fields[i].len()) {
            Some(v) => if v <= 4294967295 {
                busses.push(v as u32);
            },
            None => {},
        }
        i += 1;
    }
    Some((timestamp, busses))
}

/// The bus with the shortest wait (the first of equal ones), its identifier
/// times the wait; zero with no bus.
pub fn solve_part1(input: &(u32, Vec<u32>)) -> (r: Option<u32>)
    requires
        forall|k: int| 0 <= k < input.1@.len() ==> #[trigger] input.1@[k] > 0,
    ensures
        input.1@.len() == 0 ==> r == Some(0u32),
        r matches Some(p) ==> input.1@.len() > 0 ==> exists|k: int|
            0 <= k < input.1@.len() && p == input.1@[k] * wait(input.0 as int, input.1@[k] as int) && (
            forall|m: int| 0 <= m < input.1@.len() ==> #[trigger] wait(input.0 as int, input.1@[m] as int)
                >= wait(input.0 as int, input.1@[k] as int)),
{
    let timestamp = input.0;
    let buses = &input.1;
    if buses.len() == 0 {
        return Some(0);
    }
    let mut best: usize = 0;
    let mut min: u32 = buses[0] - timestamp % buses[0];
    let mut k: usize = 1;
    while k < buses.len()
        invariant
            forall|k: int| 0 <= k < buses@.len() ==> #[trigger] buses@[k] > 0,
            1 <= k <= buses@.len(),
            best < k,
            min == wait(timestamp as int, buses@[best as int] as int),
            forall|m: int| 0 <= m < k ==> #[trigger] wait(timestamp as int, buses@[m] as int) >= min,
        decreases buses@.len() - k,
    {
        let value = buses[k];
        let w = value - timestamp % value;
        if w < min {
            min = w;
            best = k;
        }
        k += 1;
    }
    assert(min as int * buses@[best as int] as int <= u32::MAX as int * u32::MAX as int) by (nonlinear_arith)
        requires
            min <= u32::MAX,
            buses@[best as int] <= u32::MAX,
    ;
    let p = min as u64 * buses[best] as u64;
    assert(p == buses@[best as int] * wait(timestamp as int, buses@[best as int] as int)) by (nonlinear_arith)
        requires
            p == min as u64 * buses[best as int] as u64,
            min == wait(timestamp as int, buses@[best as int] as int),
    ;
    if p > 4294967295 {
        return None;
    }
    Some(p as u32)
}

/// The second line's fields: a bus period, or `None` for anything else.
pub fn parser_part2(input: &str) -> (r: Option<Vec<Option<u64>>>)
{
    let lines = split_lines(input.as_bytes());
    if lines.len() < 2 {
        return None;
    }
    let fields = split_fields(&lines[1]);
    let mut out: Vec<Option<u64>> = Vec::new();
    let mut i: usize = 0;
    while i < fields.len()
        invariant
            i <= fields@.len(),
        decreases fields@.len() - i,
    {
        out.push(parse_u64(fields[i].as_slice(), 0, fields[i].len()));
        i += 1;
    }
    Some(out)
}

/// Every bus `id` at position `i` leaves at `t + i`.
pub open spec fn all_aligned(input: Seq<Option<u64>>, t: int, upto: int) -> bool {
    forall|i: int| 0 <= i < upto ==> (#[trigger] input[i] matches Some(id) ==> (t + i) % (id as int) == 0)
}

/// The sieve over the buses in order: from the first bus's period, the timestamp
/// grows by the product of the periods seen until the next bus leaves at its
/// offset. `None` when a bus is never aligned within its own period of tries, or
/// a value leaves the 64-bit range.
pub fn solve_part2(input: &[Option<u64>]) -> (r: Option<u64>)
    requires
        input@.len() > 0,
        input@[0] is Some,
        forall|i: int| 0 <= i < input@.len() ==> (#[trigger] input@[i] matches Some(id) ==> id > 0),
    ensures
        r matches Some(t) ==> all_aligned(input@, t as int, input@.len() as int),
{
    let first = match input[0] {
        Some(v) => v,
        None => {
            return None;
        },
    };
    let mut timestamp: u64 = first;
    let mut multiple: u64 = first;
    let mut index: usize = 1;
    proof {
        assert((first as int + 0) % (first as int) == 0) by (nonlinear_arith)
            requires
                first > 0,
        ;
    }
    while index < input.len()
        invariant
            1 <= index <= input@.len(),
            forall|i: int| 0 <= i < input@.len() ==> (#[trigger] input@[i] matches Some(id) ==> id > 0),
            multiple > 0,
            all_aligned(input@, timestamp as int, index as int),
            forall|i: int|
                0 <= i < index ==> (#[trigger] input@[i] matches Some(id) ==> (multiple as int) % (id as int) == 0),
        decreases input@.len() - index,
    {
        if let Some(id) = input[index] {
            let mut tries: u64 = 0;
            while (timestamp as u128 + index as u128) % (id as u128) != 0
                invariant
                    1 <= index < input@.len(),
                    input@[index as int] == Some(id),
                    id > 0,
                    multiple > 0,
                    all_aligned(input@, timestamp as int, index as int),
                    forall|i: int|
                        0 <= i < index ==> (#[trigger] input@[i] matches Some(q) ==> (multiple as int) % (q as int) == 0),
                    forall|i: int| 0 <= i < input@.len() ==> (#[trigger] input@[i] matches Some(q) ==> q > 0),
                    tries <= id,
                decreases id - tries,
            {
                if tries == id {
                    return None;
                }
                timestamp = match timestamp.checked_add(multiple) {
                    Some(t) => t,
                    None => {
                        return None;
                    },
                };
                proof {
                    assert forall|i: int| 0 <= i < index implies (#[trigger] input@[i] matches Some(q) ==> (
                    timestamp as int + i) % (q as int) == 0) by {
                        if let Some(q) = input@[i] {
                            lemma_add_multiple((timestamp - multiple) as int, multiple as int, i, q as int);
                        }
                    }
                }
                tries += 1;
            }
            let ghost old_multiple = multiple;
            multiple = match multiple.checked_mul(id) {
                Some(m) => m,
                None => {
                    return None;
                },
            };
            proof {
                assert(multiple > 0) by (nonlinear_arith)
                    requires
                        multiple == old_multiple * id,
                        old_multiple > 0,
                        id > 0,
                ;
                assert forall|i: int| 0 <= i < index + 1 implies (#[trigger] input@[i] matches Some(q) ==> (
                multiple as int) % (q as int) == 0) by {
                    if let Some(q) = input@[i] {
                        if i < index {
                            lemma_multiple_of_product(old_multiple as int, id as int, q as int);
                        } else {
                            lemma_mod_multiples_basic(old_multiple as int, id as int);
                        }
                    }
                }
            }
        }
        index += 1;
    }
    Some(timestamp)
}

proof fn lemma_add_multiple(t: int, m: int, i: int, q: int)
    requires
        q > 0,
        (t + i) % q == 0,
        m % q == 0,
    ensures
        (t + m + i) % q == 0,
{
    lemma_fundamental_div_mod(t + i, q);
    lemma_fundamental_div_mod(m, q);
    let k = (t + i) / q + m / q;
    assert(t + m + i == k * q) by (nonlinear_arith)
        requires
            t + i == q * ((t + i) / q),
            m == q * (m / q),
            k == (t + i) / q + m / q,
    ;
    lemma_mod_multiples_basic(k, q);
}

proof fn lemma_multiple_of_product(a: int, b: int, q: int)
    requires
        q > 0,
        a % q == 0,
    ensures
        (a * b) % q == 0,
{
    lemma_fundamental_div_mod(a, q);
    let k = (a / q) * b;
    assert(a * b == k * q) by (nonlinear_arith)
        requires
            a == q * (a / q),
            k == (a / q) * b,
    ;
    lemma_mod_multiples_basic(k, q);
}

} // verus!
