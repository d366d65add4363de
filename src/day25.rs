//! The door and card handshake: repeated modular multiplication of a subject
//! number, and finding how many rounds give a public key.

use crate::text::{lines_spec, number_of, parse_u64, split_lines};
use vstd::prelude::*;
use vstd::string::StringSliceAdditionalSpecFns;

verus! {

pub const DIVISOR: u64 = 20201227;

/// `subject` multiplied into 1 `count` times, modulo the divisor.
pub open spec fn transform_spec(subject: int, count: nat) -> int
    decreases count,
{
    if count == 0 {
        1
    } else {
        (transform_spec(subject, (count - 1) as nat) * subject) % (DIVISOR as int)
    }
}

pub struct Encrypter {
    pub subject: u64,
}

impl Encrypter {
    pub open spec fn wf(&self) -> bool {
        self.subject < DIVISOR
    }

    pub fn new(subject: u64) -> (r: Self)
        ensures
            r.subject == subject % DIVISOR,
            r.wf(),
    {
        let subject = subject % DIVISOR;
        Encrypter { subject }
    }

    /// The smallest number of rounds, from one up to the divisor, after which the
    /// value equals `target`.
    pub fn detect_count(&self, target: u64) -> (r: Option<u64>)
        requires
            self.wf(),
        ensures
            r matches Some(c) ==> 1 <= c <= DIVISOR && transform_spec(self.subject as int, c as nat)
                == target && forall|k: nat| 1 <= k < c ==> #[trigger] transform_spec(self.subject as int, k) != target,
            r is None ==> forall|k: nat| 1 <= k <= DIVISOR ==> #[trigger] transform_spec(self.subject as int, k) != target,
    {
        let mut value: u64 = 1;
        let mut count: u64 = 1;
        while count <= DIVISOR
            invariant
                self.wf(),
                1 <= count <= DIVISOR + 1,
                value == transform_spec(self.subject as int, (count - 1) as nat),
                value < DIVISOR,
                forall|k: nat| 1 <= k < count ==> #[trigger] transform_spec(self.subject as int, k) != target,
            decreases DIVISOR + 1 - count,
        {
            assert(value * self.subject < DIVISOR * DIVISOR) by (nonlinear_arith)
                requires
                    value < DIVISOR,
                    self.subject < DIVISOR,
            ;
            value = (value * self.subject) % DIVISOR;
            if value == target {
                return Some(count);
            }
            count += 1;
        }
        None
    }

    /// The value after `count` rounds.
    pub fn transform(&self, count: u64) -> (r: u64)
        requires
            self.wf(),
        ensures
            r == transform_spec(self.subject as int, count as nat),
    {
        let mut value: u64 = 1;
        let mut i: u64 = 0;
        while i < count
            invariant
                self.wf(),
                i <= count,
                value == transform_spec(self.subject as int, i as nat),
                value < DIVISOR,
            decreases count - i,
        {
            assert(value * self.subject < DIVISOR * DIVISOR) by (nonlinear_arith)
                requires
                    value < DIVISOR,
                    self.subject < DIVISOR,
            ;
            value = (value * self.subject) % DIVISOR;
            i += 1;
        }
        value
    }
}

/// The encryption key from the card's and the door's public keys: the card's key
/// transformed as many rounds as give the door's key from subject seven.
pub fn encryption_key(card_key: u64, door_key: u64) -> (r: Option<u64>)
    ensures
        r matches Some(v) ==> exists|c: nat|
            1 <= c <= DIVISOR && #[trigger] transform_spec(7, c) == door_key && (forall|k: nat|
                1 <= k < c ==> #[trigger] transform_spec(7, k) != door_key) && v == transform_spec(
                (card_key % DIVISOR) as int,
                c,
            ),
        r is None ==> forall|k: nat| 1 <= k <= DIVISOR ==> #[trigger] transform_spec(7, k) != door_key,
{
    let door_count = match Encrypter::new(7).detect_count(door_key) {
        Some(c) => c,
        None => {
            return None;
        },
    };
    let v = Encrypter::new(card_key).transform(door_count);
    assert(transform_spec(7, door_count as nat) == door_key);
    Some(v)
}

/// Reads the two public keys, one per line, and computes the encryption key.
pub fn solve_part1(input: &str) -> (r: Option<u64>)
    ensures
        r matches Some(v) ==> {
            let lines = lines_spec(input.spec_bytes());
            &&& lines.len() >= 2
            &&& number_of(lines[0]) matches Some(card)
            &&& number_of(lines[1]) matches Some(door)
            &&& exists|c: nat|
                1 <= c <= DIVISOR && #[trigger] transform_spec(7, c) == door && (forall|k: nat|
                    1 <= k < c ==> #[trigger] transform_spec(7, k) != door) && v == transform_spec(
                    (card % DIVISOR) as int,
                    c,
                )
        },
{
    let lines = split_lines(input.as_bytes());
    if lines.len() < 2 {
        return None;
    }
    let ghost lv = lines_spec(input.spec_bytes());
    assert(lv[0] == lines@[0]@ && lv[1] == lines@[1]@);
    assert(lines@[0]@.subrange(0, lines@[0]@.len() as int) =~= lines@[0]@);
    assert(lines@[1]@.subrange(0, lines@[1]@.len() as int) =~= lines@[1]@);
    let card_key = match parse_u64(lines[0].as_slice(), 0, lines[0].len()) {
        Some(v) => v,
        None => {
            return None;
        },
    };
    let door_key = match parse_u64(lines[1].as_slice(), 0, lines[1].len()) {
        Some(v) => v,
        None => {
            return None;
        },
    };
    encryption_key(card_key, door_key)
}

} // verus!
