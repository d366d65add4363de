//! Docking program: a bitmask overwrites bits of values written to memory.

use crate::text::{parse_u64, split_lines};
use vstd::prelude::*;

verus! {

/// `value & and_mask | or_mask`: bits cleared where `and_mask` is 0, set where
/// `or_mask` is 1.
pub struct BitMask {
    pub or_mask: u64,
    pub and_mask: u64,
}

/// The mask text read as a binary number, a bit set for each `1`, and for each
/// `X` when `x_counts` (bits shifted out at the top are lost).
pub open spec fn mask_value(s: Seq<u8>, x_counts: bool) -> u64
    decreases s.len(),
{
    if s.len() == 0 {
        0
    } else {
        let bit: u64 = if s.last() == 49 || (x_counts && s.last() == 88) {
            1
        } else {
            0
        };
        mask_value(s.drop_last(), x_counts).wrapping_mul(2).wrapping_add(bit)
    }
}

/// Every character is `X`, `1` or `0`.
pub open spec fn mask_text(s: Seq<u8>) -> bool {
    forall|i: int| 0 <= i < s.len() ==> (#[trigger] s[i] == 88 || s[i] == 49 || s[i] == 48)
}

impl BitMask {
    /// The mask that changes nothing.
    pub fn new() -> (r: Self)
        ensures
            r.or_mask == 0,
            r.and_mask == u64::MAX,
    {
        Self { or_mask: 0, and_mask: u64::MAX }
    }

    pub fn apply(&self, value: u64) -> (r: u64)
        ensures
            r == (value & self.and_mask) | self.or_mask,
    {
        (value & self.and_mask) | self.or_mask
    }

    /// Reads a mask: `X` keeps a bit, `1` sets it, `0` clears it.
    pub fn from_text(encoded: &Vec<u8>) -> (r: Option<Self>)
        ensures
            r is Some <==> mask_text(encoded@),
            r matches Some(m) ==> m.and_mask == mask_value(encoded@, true) && m.or_mask == mask_value(
                encoded@,
                false,
            ),
    {
        let mut or_mask: u64 = 0;
        let mut and_mask: u64 = 0;
        let mut i: usize = 0;
        assert(encoded@.subrange(0, 0) =~= Seq::<u8>::empty());
        while i < encoded.len()
            invariant
                i <= encoded@.len(),
                mask_text(encoded@.subrange(0, i as int)),
                and_mask == mask_value(encoded@.subrange(0, i as int), true),
                or_mask == mask_value(encoded@.subrange(0, i as int), false),
            decreases encoded@.len() - i,
        {
            let chr = encoded[i];
            let ghost pre = encoded@.subrange(0, i as int);
            let ghost next = encoded@.subrange(0, i + 1);
            assert(next.drop_last() =~= pre);
            if chr == 88 {
                and_mask = and_mask.wrapping_mul(2).wrapping_add(1);
                or_mask = or_mask.wrapping_mul(2).wrapping_add(0);
            } else if chr == 49 {
                and_mask = and_mask.wrapping_mul(2).wrapping_add(1);
                or_mask = or_mask.wrapping_mul(2).wrapping_add(1);
            } else if chr == 48 {
                and_mask = and_mask.wrapping_mul(2).wrapping_add(0);
                or_mask = or_mask.wrapping_mul(2).wrapping_add(0);
            } else {
                assert(!mask_text(encoded@)) by {
                    assert(encoded@[i as int] == chr);
                }
                return None;
            }
            assert(mask_text(next)) by {
                assert forall|k: int| 0 <= k < next.len() implies (#[trigger] next[k] == 88 || next[k] == 49
                    || next[k] == 48) by {
                    if k < i {
                        assert(next[k] == pre[k]);
                    }
                }
            }
            i += 1;
        }
        assert(encoded@.subrange(0, i as int) =~= encoded@);
        Some(BitMask { or_mask, and_mask })
    }
}

/// A memory cell written, or a new mask.
pub enum Command {
    Mask(Vec<u8>),
    Assign(u64, u64),
}

/// Memory as a list of (address, value) with each address once; writing
/// replaces the value of an address already present, or adds it at the end.
pub open spec fn write(mem: Seq<(u64, u64)>, addr: u64, value: u64) -> Seq<(u64, u64)> {
    if exists|i: int| 0 <= i < mem.len() && mem[i].0 == addr {
        let i = choose|i: int| 0 <= i < mem.len() && mem[i].0 == addr;
        mem.update(i, (addr, value))
    } else {
        mem.push((addr, value))
    }
}

pub open spec fn unique_addresses(mem: Seq<(u64, u64)>) -> bool {
    forall|i: int, j: int| 0 <= i < j < mem.len() ==> mem[i].0 != mem[j].0
}

pub open spec fn sum_values(mem: Seq<(u64, u64)>) -> int
    decreases mem.len(),
{
    if mem.len() == 0 {
        0
    } else {
        sum_values(mem.drop_last()) + mem.last().1
    }
}

fn write_memory(mem: &mut Vec<(u64, u64)>, addr: u64, value: u64)
    requires
        unique_addresses(old(mem)@),
    ensures
        unique_addresses(final(mem)@),
        final(mem)@ == write(old(mem)@, addr, value),
{
    let mut i: usize = 0;
    while i < mem.len()
        invariant
            mem@ == old(mem)@,
            unique_addresses(mem@),
            i <= mem@.len(),
            forall|k: int| 0 <= k < i ==> mem@[k].0 != addr,
        decreases mem@.len() - i,
    {
        if mem[i].0 == addr {
            let ghost before = mem@;
            mem.set(i, (addr, value));
            proof {
                let j = choose|j: int| 0 <= j < before.len() && before[j].0 == addr;
                assert(j == i);
            }
            return ;
        }
        i += 1;
    }
    mem.push((addr, value));
}

/// The sum of the values in memory; `None` when it does not fit in 64 bits.
pub fn sum_memory(mem: &Vec<(u64, u64)>) -> (r: Option<u64>)
    ensures
        r matches Some(v) ==> v == sum_values(mem@),
        r is None ==> sum_values(mem@) > u64::MAX,
{
    let mut total: u64 = 0;
    let mut i: usize = 0;
    assert(mem@.subrange(0, 0) =~= Seq::<(u64, u64)>::empty());
    while i < mem.len()
        invariant
            i <= mem@.len(),
            total == sum_values(mem@.subrange(0, i as int)),
        decreases mem@.len() - i,
    {
        assert(mem@.subrange(0, i + 1).drop_last() =~= mem@.subrange(0, i as int));
        total = match total.checked_add(mem[i].1) {
            Some(t) => t,
            None => {
                proof {
                    lemma_sum_prefix(mem@, i + 1);
                }
                return None;
            },
        };
        i += 1;
    }
    assert(mem@.subrange(0, i as int) =~= mem@);
    Some(total)
}

proof fn lemma_sum_prefix(mem: Seq<(u64, u64)>, k: int)
    requires
        0 <= k <= mem.len(),
    ensures
        sum_values(mem) >= sum_values(mem.subrange(0, k)),
    decreases mem.len(),
{
    if k < mem.len() {
        assert(mem.drop_last().subrange(0, k) =~= mem.subrange(0, k));
        lemma_sum_prefix(mem.drop_last(), k);
    } else {
        assert(mem.subrange(0, k) =~= mem);
    }
}

/// Reads `mask = <mask>` or `mem[<address>] = <value>`.
pub fn parse_command(line: &Vec<u8>) -> (r: Option<Command>)
{
    let n = line.len();
    if n >= 7 && line[0] == 109 && line[1] == 97 && line[2] == 115 && line[3] == 107 && line[4] == 32
        && line[5] == 61 && line[6] == 32 {
        let mut text: Vec<u8> = Vec::new();
        let mut i: usize = 7;
        while i < n
            invariant
                7 <= i <= n,
                n == line@.len(),
            decreases n - i,
        {
            text.push(line[i]);
            i += 1;
        }
        return Some(Command::Mask(text));
    }
    if n >= 4 && line[0] == 109 && line[1] == 101 && line[2] == 109 && line[3] == 91 {
        let mut close: usize = 4;
        while close < n && line[close] != 93
            invariant
                4 <= close <= n,
                n == line@.len(),
            decreases n - close,
        {
            close += 1;
        }
        if n - close < 4 || line[close + 1] != 32 || line[close + 2] != 61 || line[close + 3] != 32 {
            return None;
        }
        let addr = match parse_u64(line.as_slice(), 4, close) {
            Some(a) => a,
            None => {
                return None;
            },
        };
        let value = match parse_u64(line.as_slice(), close + 4, n) {
            Some(v) => v,
            None => {
                return None;
            },
        };
        return Some(Command::Assign(addr, value));
    }
    None
}

/// Runs the program, each write masked by the latest mask, and sums the memory;
/// `None` on a malformed line or a sum past 64 bits.
pub fn solve_part1(input: &str) -> (r: Option<u64>)
{
    let lines = split_lines(input.as_bytes());
    let mut mask = BitMask::new();
    let mut memory: Vec<(u64, u64)> = Vec::new();
    let mut i: usize = 0;
    while i < lines.len()
        invariant
            i <= lines@.len(),
            unique_addresses(memory@),
        decreases lines@.len() - i,
    {
        if lines[i].len() > 0 {
            match parse_command(&lines[i]) {
                Some(Command::Mask(text)) => {
                    mask = match BitMask::from_text(&text) {
                        Some(m) => m,
                        None => {
                            return None;
                        },
                    };
                },
                Some(Command::Assign(position, value)) => {
                    write_memory(&mut memory, position, mask.apply(value));
                },
                None => {
                    return None;
                },
            }
        }
        i += 1;
    }
    sum_memory(&memory)
}

/// The address masks of a version-2 mask text: per character, every mask is
/// shifted one bit; `0` keeps the address bit, `1` forces it to one, and `X`
/// doubles the list, the bit forced to zero in the first copy of each mask and
/// to one in the second.
pub open spec fn masks_spec(s: Seq<u8>) -> Seq<(u64, u64)>
    decreases s.len(),
{
    if s.len() == 0 {
        seq![(0u64, 0u64)]
    } else {
        let prev = masks_spec(s.drop_last());
        let c = s.last();
        if c == 88 {
            Seq::new(
                2 * prev.len(),
                |k: int|
                    {
                        let m = prev[k / 2];
                        let bit: u64 = if k % 2 == 0 {
                            0
                        } else {
                            1
                        };
                        (m.0.wrapping_mul(2).wrapping_add(bit), m.1.wrapping_mul(2).wrapping_add(bit))
                    },
            )
        } else {
            let (a, o): (u64, u64) = if c == 49 {
                (1, 1)
            } else {
                (1, 0)
            };
            Seq::new(
                prev.len(),
                |k: int| (prev[k].0.wrapping_mul(2).wrapping_add(a), prev[k].1.wrapping_mul(2).wrapping_add(o)),
            )
        }
    }
}

/// Address masks: each address written goes to `(address & and) | or` for every
/// (and, or) pair.
pub struct BitMask2 {
    pub masks: Vec<(u64, u64)>,
}

impl BitMask2 {
    /// No masks yet: a write reaches no address.
    pub fn new() -> (r: Self)
        ensures
            r.masks@.len() == 0,
    {
        Self { masks: Vec::new() }
    }

    /// The addresses a write to `value` reaches, one per mask.
    pub fn apply(&self, value: u64) -> (r: Vec<u64>)
        ensures
            r@.len() == self.masks@.len(),
            forall|k: int|
                0 <= k < r@.len() ==> #[trigger] r@[k] == (value & self.masks@[k].0) | self.masks@[k].1,
    {
        let mut out: Vec<u64> = Vec::new();
        let mut k: usize = 0;
        while k < self.masks.len()
            invariant
                k <= self.masks@.len(),
                out@.len() == k,
                forall|j: int| 0 <= j < k ==> #[trigger] out@[j] == (value & self.masks@[j].0) | self.masks@[j].1,
            decreases self.masks@.len() - k,
        {
            let (a, o) = self.masks[k];
            out.push((value & a) | o);
            k += 1;
        }
        out
    }

    /// Reads a version-2 mask; `None` on a character other than `X`, `1`, `0`,
    /// or when the list of masks would not fit in memory's index range.
    pub fn from_text(value: &Vec<u8>) -> (r: Option<Self>)
        ensures
            r matches Some(m) ==> m.masks@ == masks_spec(value@),
    {
        let mut masks: Vec<(u64, u64)> = Vec::new();
        masks.push((0, 0));
        let mut i: usize = 0;
        assert(value@.subrange(0, 0) =~= Seq::<u8>::empty());
        assert(masks@ =~= masks_spec(value@.subrange(0, 0)));
        while i < value.len()
            invariant
                i <= value@.len(),
                masks@ == masks_spec(value@.subrange(0, i as int)),
            decreases value@.len() - i,
        {
            let c = value[i];
            let ghost prev = masks@;
            assert(value@.subrange(0, i + 1).drop_last() =~= value@.subrange(0, i as int));
            if c == 88 {
                if masks.len() > usize::MAX / 2 {
                    return None;
                }
                let mut next: Vec<(u64, u64)> = Vec::new();
                let mut k: usize = 0;
                while k < masks.len()
                    invariant
                        masks@ == prev,
                        k <= prev.len(),
                        prev.len() <= usize::MAX / 2,
                        next@.len() == 2 * k,
                        forall|j: int|
                            0 <= j < 2 * k ==> #[trigger] next@[j] == ({
                                let m = prev[j / 2];
                                let bit: u64 = if j % 2 == 0 {
                                    0
                                } else {
                                    1
                                };
                                (m.0.wrapping_mul(2).wrapping_add(bit), m.1.wrapping_mul(2).wrapping_add(bit))
                            }),
                    decreases prev.len() - k,
                {
                    let (a, o) = masks[k];
                    next.push((a.wrapping_mul(2).wrapping_add(0), o.wrapping_mul(2).wrapping_add(0)));
                    next.push((a.wrapping_mul(2).wrapping_add(1), o.wrapping_mul(2).wrapping_add(1)));
                    proof {
                        assert((2 * k) / 2 == k && (2 * k) % 2 == 0) by (nonlinear_arith);
                        assert((2 * k + 1) / 2 == k && (2 * k + 1) % 2 == 1) by (nonlinear_arith);
                    }
                    k += 1;
                }
                assert(next@ =~= masks_spec(value@.subrange(0, i + 1)));
                masks = next;
            } else if c == 49 || c == 48 {
                let o: u64 = if c == 49 {
                    1
                } else {
                    0
                };
                let mut next: Vec<(u64, u64)> = Vec::new();
                let mut k: usize = 0;
                while k < masks.len()
                    invariant
                        masks@ == prev,
                        k <= prev.len(),
                        next@.len() == k,
                        forall|j: int|
                            0 <= j < k ==> #[trigger] next@[j] == (
                                prev[j].0.wrapping_mul(2).wrapping_add(1),
                                prev[j].1.wrapping_mul(2).wrapping_add(o),
                            ),
                    decreases prev.len() - k,
                {
                    let (a, b) = masks[k];
                    next.push((a.wrapping_mul(2).wrapping_add(1), b.wrapping_mul(2).wrapping_add(o)));
                    k += 1;
                }
                assert(next@ =~= masks_spec(value@.subrange(0, i + 1)));
                masks = next;
            } else {
                return None;
            }
            i += 1;
        }
        assert(value@.subrange(0, i as int) =~= value@);
        Some(BitMask2 { masks })
    }
}

/// Runs the program with version-2 masks, each write going to every address its
/// mask reaches, and sums the memory; `None` on a malformed line or a sum past
/// 64 bits.
pub fn solve_part2(input: &str) -> (r: Option<u64>)
{
    let lines = split_lines(input.as_bytes());
    let mut mask = BitMask2::new();
    let mut memory: Vec<(u64, u64)> = Vec::new();
    let mut i: usize = 0;
    while i < lines.len()
        invariant
            i <= lines@.len(),
            unique_addresses(memory@),
        decreases lines@.len() - i,
    {
        if lines[i].len() > 0 {
            match parse_command(&lines[i]) {
                Some(Command::Mask(text)) => {
                    mask = match BitMask2::from_text(&text) {
                        Some(m) => m,
                        None => {
                            return None;
                        },
                    };
                },
                Some(Command::Assign(location, value)) => {
                    let addresses = mask.apply(location);
                    let mut k: usize = 0;
                    while k < addresses.len()
                        invariant
                            k <= addresses@.len(),
                            unique_addresses(memory@),
                        decreases addresses@.len() - k,
                    {
                        write_memory(&mut memory, addresses[k], value);
                        k += 1;
                    }
                },
                None => {
                    return None;
                },
            }
        }
        i += 1;
    }
    sum_memory(&memory)
}

} // verus!
