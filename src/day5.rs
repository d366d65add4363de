//! Boarding passes: binary space partitioning of seat rows and columns.

use crate::text::{lemma_parse_lines_prefix, lemma_parse_lines_step, lines_spec, parse_lines, split_lines};
use vstd::prelude::*;
use vstd::string::StringSliceAdditionalSpecFns;

verus! {

/// A seat, by row (0 to 127) and column (0 to 7).
pub struct Seat {
    pub row: u8,
    pub column: u8,
}

/// Whether a partition letter selects the upper half (`B` or `R`).
pub open spec fn upper(b: u8) -> bool {
    b == 66 || b == 82
}

/// Whether the byte is a partition letter: `F`, `B`, `L` or `R`.
pub open spec fn is_letter(b: u8) -> bool {
    b == 70 || b == 66 || b == 76 || b == 82
}

/// The letters read as a binary number, upper halves as ones.
pub open spec fn decode(s: Seq<u8>) -> nat
    decreases s.len(),
{
    if s.len() == 0 {
        0
    } else {
        2 * decode(s.drop_last()) + if upper(s.last()) {
            1nat
        } else {
            0nat
        }
    }
}

pub open spec fn p2(k: nat) -> nat
    decreases k,
{
    if k == 0 {
        1
    } else {
        2 * p2((k - 1) as nat)
    }
}

pub open spec fn seat_id_of(row: int, column: int) -> int {
    row * 8 + column
}

/// A well-formed boarding pass: seven row letters then three column letters.
pub open spec fn valid_pass(s: Seq<u8>) -> bool {
    &&& s.len() == 10
    &&& forall|i: int| 0 <= i < 7 ==> (#[trigger] s[i] == 70 || s[i] == 66)
    &&& forall|i: int| 7 <= i < 10 ==> (#[trigger] s[i] == 76 || s[i] == 82)
}

impl Seat {
    pub fn seat_id(&self) -> (r: u32)
        ensures
            r == seat_id_of(self.row as int, self.column as int),
    {
        (self.row as u32) * 8 + (self.column as u32)
    }

    /// Decodes a boarding pass.
    pub fn from_bytes(specifier: &[u8]) -> (r: Seat)
        requires
            valid_pass(specifier@),
        ensures
            r.row == decode(specifier@.subrange(0, 7)),
            r.column == decode(specifier@.subrange(7, 10)),
    {
        proof {
            reveal_with_fuel(p2, 8);
        }
        let row = fold_range(specifier, 0, 7, 127);
        let column = fold_range(specifier, 7, 3, 7);
        Seat { row: row.0, column: column.0 }
    }
}

/// Narrows the range `acc` to its lower half for `F` or `L`, to its upper half for
/// `B` or `R`.
pub fn binary_fold(acc: (u8, u8), value: &u8) -> (r: (u8, u8))
    requires
        acc.0 < acc.1,
        is_letter(*value),
    ensures
        upper(*value) ==> r == (((acc.0 + (acc.1 - acc.0) / 2 + 1) as u8, acc.1)),
        !upper(*value) ==> r == ((acc.0, (acc.0 + (acc.1 - acc.0) / 2) as u8)),
{
    let midpoint = acc.0 + ((acc.1 - acc.0) / 2);
    if *value == 66 || *value == 82 {
        (midpoint + 1, acc.1)
    } else {
        (acc.0, midpoint)
    }
}

/// Folds `binary_fold` over `s[start..start + len]`, from `(0, hi)` with
/// `hi + 1 == 2^len`.
fn fold_range(s: &[u8], start: usize, len: usize, hi: u8) -> (r: (u8, u8))
    requires
        start + len <= s@.len(),
        len <= 7,
        hi as int + 1 == p2(len as nat),
        forall|i: int| start <= i < start + len ==> is_letter(#[trigger] s@[i]),
    ensures
        r.0 == decode(s@.subrange(start as int, start + len)),
{
    let n = s.len();
    let mut acc: (u8, u8) = (0, hi);
    let mut i: usize = 0;
    assert(s@.subrange(start as int, start as int) =~= Seq::<u8>::empty());
    assert(decode(s@.subrange(start as int, start as int)) == 0);
    assert(0 * p2(len as nat) == 0);
    assert(p2(0) == 1);
    while i < len
        invariant
            n == s@.len(),
            start + len <= s@.len(),
            len <= 7,
            hi as int + 1 == p2(len as nat),
            forall|i: int| start <= i < start + len ==> is_letter(#[trigger] s@[i]),
            i <= len,
            acc.0 == decode(s@.subrange(start as int, start + i)) * p2((len - i) as nat),
            acc.1 + 1 == acc.0 + p2((len - i) as nat),
        decreases len - i,
    {
        let b = s[start + i];
        let ghost k = (len - i - 1) as nat;
        proof {
            lemma_p2_bound(k);
            assert(p2((len - i) as nat) == 2 * p2(k));
            let pre = s@.subrange(start as int, start + i);
            let next = s@.subrange(start as int, start + i + 1);
            assert(next.drop_last() =~= pre);
            assert(next.last() == b);
            assert(decode(pre) * (2 * p2(k)) == (2 * decode(pre)) * p2(k)) by (nonlinear_arith);
            assert((2 * decode(pre) + 1) * p2(k) == 2 * decode(pre) * p2(k) + p2(k)) by (nonlinear_arith);
        }
        acc = binary_fold(acc, &b);
        i += 1;
    }
    assert(p2(0) == 1);
    assert(decode(s@.subrange(start as int, start + len)) * 1 == decode(s@.subrange(start as int, start + len)));
    acc
}

proof fn lemma_p2_bound(k: nat)
    requires
        k <= 6,
    ensures
        1 <= p2(k) <= 64,
{
    reveal_with_fuel(p2, 7);
}

/// The seat a boarding pass names.
pub open spec fn seat_of(line: Seq<u8>) -> Option<Seat> {
    if valid_pass(line) {
        Some(Seat { row: decode(line.subrange(0, 7)) as u8, column: decode(line.subrange(7, 10)) as u8 })
    } else {
        None
    }
}

pub open spec fn seats_of(lines: Seq<Seq<u8>>) -> Option<Seq<Seat>> {
    parse_lines(lines, |l: Seq<u8>| seat_of(l))
}

/// One boarding pass per non-empty line.
pub fn parser(input: &str) -> (r: Option<Vec<Seat>>)
    ensures
        r matches Some(v) ==> seats_of(lines_spec(input.spec_bytes())) == Some(v@),
        r is None <==> seats_of(lines_spec(input.spec_bytes())) is None,
        r matches Some(v) ==> forall|i: int| 0 <= i < v@.len() ==> (#[trigger] v@[i]).row < 128 && v@[i].column < 8,
{
    let lines = split_lines(input.as_bytes());
    let ghost lv = lines_spec(input.spec_bytes());
    let ghost f = |l: Seq<u8>| seat_of(l);
    let mut seats: Vec<Seat> = Vec::new();
    let mut i: usize = 0;
    assert(lv.subrange(0, 0) =~= Seq::<Seq<u8>>::empty());
    while i < lines.len()
        invariant
            lv == Seq::new(lines@.len(), |k: int| lines@[k]@),
            lv == lines_spec(input.spec_bytes()),
            f == (|l: Seq<u8>| seat_of(l)),
            i <= lines@.len(),
            parse_lines(lv.subrange(0, i as int), f) == Some(seats@),
            forall|k: int| 0 <= k < seats@.len() ==> (#[trigger] seats@[k]).row < 128 && seats@[k].column < 8,
        decreases lines@.len() - i,
    {
        proof {
            lemma_parse_lines_step(lv, f, i as int);
        }
        let line = &lines[i];
        assert(lv[i as int] == line@);
        if line.len() > 0 {
            if !is_pass(line) {
                proof {
                    lemma_parse_lines_prefix(lv, f, i + 1);
                }
                return None;
            }
            let seat = Seat::from_bytes(line.as_slice());
            proof {
                lemma_decode_bound(line@.subrange(0, 7));
                lemma_decode_bound(line@.subrange(7, 10));
                reveal_with_fuel(p2, 8);
            }
            seats.push(seat);
        }
        i += 1;
    }
    assert(lv.subrange(0, i as int) =~= lv);
    Some(seats)
}

proof fn lemma_decode_bound(s: Seq<u8>)
    ensures
        decode(s) < p2(s.len()),
    decreases s.len(),
{
    if s.len() > 0 {
        lemma_decode_bound(s.drop_last());
    }
}

fn is_pass(line: &Vec<u8>) -> (r: bool)
    ensures
        r == valid_pass(line@),
{
    if line.len() != 10 {
        return false;
    }
    let mut i: usize = 0;
    while i < 10
        invariant
            line@.len() == 10,
            i <= 10,
            forall|k: int| 0 <= k < i && k < 7 ==> (#[trigger] line@[k] == 70 || line@[k] == 66),
            forall|k: int| 7 <= k < i ==> (#[trigger] line@[k] == 76 || line@[k] == 82),
        decreases 10 - i,
    {
        let b = line[i];
        if i < 7 {
            if b != 70 && b != 66 {
                return false;
            }
        } else if b != 76 && b != 82 {
            return false;
        }
        i += 1;
    }
    true
}

/// The highest seat identifier.
pub fn solve_part1(input: &[Seat]) -> (r: u32)
    requires
        input@.len() > 0,
        forall|i: int| 0 <= i < input@.len() ==> (#[trigger] input@[i]).row < 128,
    ensures
        exists|i: int| 0 <= i < input@.len() && r == seat_id_of(input@[i].row as int, input@[i].column as int),
        forall|i: int| 0 <= i < input@.len() ==> r >= seat_id_of(#[trigger] input@[i].row as int, input@[i].column as int),
{
    let mut best = input[0].seat_id();
    let mut i: usize = 1;
    while i < input.len()
        invariant
            1 <= i <= input@.len(),
            exists|k: int| 0 <= k < i && best == seat_id_of(input@[k].row as int, input@[k].column as int),
            forall|k: int| 0 <= k < i ==> best >= seat_id_of(#[trigger] input@[k].row as int, input@[k].column as int),
        decreases input@.len() - i,
    {
        let id = input[i].seat_id();
        if id > best {
            best = id;
        }
        i += 1;
    }
    best
}

pub open spec fn taken(input: Seq<Seat>, id: int) -> bool {
    exists|i: int| 0 <= i < input.len() && seat_id_of(input[i].row as int, input[i].column as int) == id
}

/// Seat `id` is free and both its neighbours are taken.
pub open spec fn gap(input: Seq<Seat>, id: int) -> bool {
    !taken(input, id) && taken(input, id - 1) && taken(input, id + 1)
}

/// The lowest free seat identifier whose two neighbours are taken.
pub fn solve_part2(input: &[Seat]) -> (r: Option<u32>)
    requires
        forall|i: int| 0 <= i < input@.len() ==> (#[trigger] input@[i]).row < 128 && input@[i].column < 8,
    ensures
        r matches Some(id) ==> 1 <= id < 1023 && !taken(input@, id as int) && taken(input@, id - 1)
            && taken(input@, id + 1),
        r matches Some(id) ==> forall|k: int| 1 <= k < id ==> !#[trigger] gap(input@, k),
        r is None ==> forall|k: int| 1 <= k < 1023 ==> !#[trigger] gap(input@, k),
{
    let mut filled: Vec<bool> = Vec::new();
    let mut k: usize = 0;
    while k < 1024
        invariant
            k <= 1024,
            filled@.len() == k,
            forall|j: int| 0 <= j < k ==> !#[trigger] filled@[j],
        decreases 1024 - k,
    {
        filled.push(false);
        k += 1;
    }
    let mut i: usize = 0;
    while i < input.len()
        invariant
            forall|i: int| 0 <= i < input@.len() ==> (#[trigger] input@[i]).row < 128 && input@[i].column < 8,
            i <= input@.len(),
            filled@.len() == 1024,
            forall|j: int| 0 <= j < 1024 ==> (#[trigger] filled@[j] <==> exists|m: int| 0 <= m < i && seat_id_of(input@[m].row as int, input@[m].column as int) == j),
        decreases input@.len() - i,
    {
        let id = input[i].seat_id() as usize;
        filled.set(id, true);
        proof {
            assert forall|j: int| 0 <= j < 1024 implies (#[trigger] filled@[j] <==> exists|m: int| 0 <= m < i + 1 && seat_id_of(input@[m].row as int, input@[m].column as int) == j) by {
                if j == id {
                    assert(seat_id_of(input@[i as int].row as int, input@[i as int].column as int) == j);
                }
            }
        }
        i += 1;
    }
    let mut id: usize = 1;
    while id < 1023
        invariant
            1 <= id <= 1023,
            filled@.len() == 1024,
            forall|j: int| 0 <= j < 1024 ==> (#[trigger] filled@[j] <==> taken(input@, j)),
            forall|k: int| 1 <= k < id ==> !#[trigger] gap(input@, k),
        decreases 1023 - id,
    {
        if !filled[id] && filled[id - 1] && filled[id + 1] {
            return Some(id as u32);
        }
        id += 1;
    }
    None
}

} // verus!
