//! Joltage adapters: the chain through all adapters in increasing order, and the
//! number of ways to reach the last one in steps of at most three.

use crate::text::{
    lemma_parse_lines_prefix, lemma_parse_lines_step, lines_spec, number_of, parse_lines, parse_u64,
    split_lines,
};
use vstd::prelude::*;
use vstd::seq_lib::to_multiset_update;
use vstd::string::StringSliceAdditionalSpecFns;

verus! {

pub open spec fn sorted(s: Seq<u32>) -> bool {
    forall|a: int, b: int| 0 <= a < b < s.len() ==> s[a] <= s[b]
}

/// Sorts in place, ascending.
pub fn sort_values(v: &mut Vec<u32>)
    ensures
        sorted(final(v)@),
        final(v)@.to_multiset() == old(v)@.to_multiset(),
        final(v)@.len() == old(v)@.len(),
{
    broadcast use to_multiset_update;

    let n = v.len();
    if n == 0 {
        return ;
    }
    let mut i: usize = 1;
    while i < n
        invariant
            n == v@.len(),
            1 <= i <= n,
            forall|a: int, b: int| 0 <= a < b < i ==> v@[a] <= v@[b],
            v@.to_multiset() == old(v)@.to_multiset(),
        decreases n - i,
    {
        let mut j = i;
        while j > 0 && v[j - 1] > v[j]
            invariant
                n == v@.len(),
                0 <= j <= i < n,
                forall|a: int, b: int| 0 <= a < b <= i && b != j ==> v@[a] <= v@[b],
                v@.to_multiset() == old(v)@.to_multiset(),
            decreases j,
        {
            let t = v[j - 1];
            let u = v[j];
            let ghost s0 = v@;
            v.set(j - 1, u);
            let ghost s1 = v@;
            v.set(j, t);
            proof {
                broadcast use vstd::seq_lib::group_to_multiset_ensures;

                to_multiset_update(s0, j - 1, u);
                to_multiset_update(s1, j as int, t);
                assert(s1[j as int] == u);
                assert(s0.contains(t) && s0.contains(u)) by {
                    assert(s0[j - 1] == t && s0[j as int] == u);
                }
                assert(s0.to_multiset().count(t) > 0);
                assert(s0.to_multiset().insert(u).remove(t).count(u) > 0);
                assert(v@.to_multiset() =~= s0.to_multiset());
            }
            j -= 1;
        }
        i += 1;
    }
}

pub open spec fn adapter_of(line: Seq<u8>) -> Option<u32> {
    match number_of(line) {
        Some(v) => if v <= u32::MAX {
            Some(v as u32)
        } else {
            None
        },
        None => None,
    }
}

pub open spec fn adapters_of(lines: Seq<Seq<u8>>) -> Option<Seq<u32>> {
    parse_lines(lines, |l: Seq<u8>| adapter_of(l))
}

/// The adapters, one per non-empty line, with the outlet's 0 added, in ascending
/// order.
pub fn parser(input: &str) -> (r: Option<Vec<u32>>)
    ensures
        r is None <==> adapters_of(lines_spec(input.spec_bytes())) is None,
        r matches Some(v) ==> (sorted(v@) && (adapters_of(lines_spec(input.spec_bytes())) matches Some(a)
            && v@.to_multiset() == a.push(0).to_multiset())),
{
    let lines = split_lines(input.as_bytes());
    let ghost lv = lines_spec(input.spec_bytes());
    let ghost f = |l: Seq<u8>| adapter_of(l);
    let mut out: Vec<u32> = Vec::new();
    let mut i: usize = 0;
    assert(lv.subrange(0, 0) =~= Seq::<Seq<u8>>::empty());
    while i < lines.len()
        invariant
            lv == Seq::new(lines@.len(), |k: int| lines@[k]@),
            lv == lines_spec(input.spec_bytes()),
            f == (|l: Seq<u8>| adapter_of(l)),
            i <= lines@.len(),
            parse_lines(lv.subrange(0, i as int), f) == Some(out@),
        decreases lines@.len() - i,
    {
        proof {
            lemma_parse_lines_step(lv, f, i as int);
        }
        assert(lv[i as int] == lines@[i as int]@);
        assert(lines@[i as int]@.subrange(0, lines@[i as int]@.len() as int) =~= lines@[i as int]@);
        if lines[i].len() > 0 {
            let parsed = match parse_u64(lines[i].as_slice(), 0, lines[i].len()) {
                Some(v) => if v <= 4294967295 {
                    Some(v as u32)
                } else {
                    None
                },
                None => None,
            };
            match parsed {
                Some(v) => out.push(v),
                None => {
                    proof {
                        lemma_parse_lines_prefix(lv, f, i + 1);
                    }
                    return None;
                },
            }
        }
        i += 1;
    }
    assert(lv.subrange(0, i as int) =~= lv);
    let ghost read = out@;
    out.push(0);
    assert(out@ == read.push(0));
    sort_values(&mut out);
    Some(out)
}

/// The value before position `k` in the chain: the outlet's 0 at the start.
pub open spec fn prev(s: Seq<u32>, k: int) -> int {
    if k == 0 {
        0
    } else {
        s[k - 1] as int
    }
}

/// How many steps among the first `k` of the chain have difference `d`.
pub open spec fn count_diffs(s: Seq<u32>, k: int, d: int) -> nat
    decreases k,
{
    if k <= 0 {
        0
    } else {
        count_diffs(s, k - 1, d) + if s[k - 1] - prev(s, k - 1) == d {
            1nat
        } else {
            0nat
        }
    }
}

proof fn lemma_count_diffs_bound(s: Seq<u32>, k: int, d: int)
    requires
        k >= 0,
    ensures
        count_diffs(s, k, d) <= k,
    decreases k,
{
    if k > 0 {
        lemma_count_diffs_bound(s, k - 1, d);
    }
}

/// The chain of adapters followed by the device, three above the last adapter.
pub open spec fn with_device(s: Seq<u32>) -> Seq<u32> {
    s.push((s.last() + 3) as u32)
}

/// The number of one-jolt steps times the number of three-jolt steps along the
/// chain from the outlet through the device; `None` when it does not fit.
pub fn solve_part1(input: &[u32]) -> (r: Option<u32>)
    requires
        input@.len() > 0,
        sorted(input@),
        input@.last() + 3 <= u32::MAX,
    ensures
        ({
            let c = with_device(input@);
            let p = count_diffs(c, c.len() as int, 1) * count_diffs(c, c.len() as int, 3);
            r == if p <= u32::MAX {
                Some(p as u32)
            } else {
                None::<u32>
            }
        }),
{
    let n = input.len();
    let device = input[n - 1] + 3;
    let ghost c = with_device(input@);
    let mut diff_1: u128 = 0;
    let mut diff_3: u128 = 0;
    let mut curr: u32 = 0;
    let mut k: usize = 0;
    while k < n
        invariant
            n == input@.len(),
            n > 0,
            c == with_device(input@),
            device == c[n as int],
            k <= n,
            curr == prev(c, k as int),
            diff_1 == count_diffs(c, k as int, 1),
            diff_3 == count_diffs(c, k as int, 3),
            diff_1 <= k,
            diff_3 <= k,
        decreases n - k,
    {
        let value = input[k];
        assert(value == c[k as int]);
        if value >= curr && value - curr == 1 {
            diff_1 += 1;
        } else if value >= curr && value - curr == 3 {
            diff_3 += 1;
        }
        curr = value;
        k += 1;
    }
    assert(device == c[n as int]);
    if device >= curr && device - curr == 1 {
        diff_1 += 1;
    } else if device >= curr && device - curr == 3 {
        diff_3 += 1;
    }
    assert(c.len() == n + 1);
    if diff_1 == 0 || diff_3 == 0 {
        assert(diff_1 * diff_3 == 0) by (nonlinear_arith)
            requires
                diff_1 == 0 || diff_3 == 0,
        ;
        return Some(0);
    }
    if diff_1 > 4294967295 || diff_3 > 4294967295 {
        assert(diff_1 * diff_3 > u32::MAX) by (nonlinear_arith)
            requires
                diff_1 >= 1,
                diff_3 >= 1,
                diff_1 > u32::MAX || diff_3 > u32::MAX,
        ;
        return None;
    }
    assert(diff_1 * diff_3 <= u32::MAX * u32::MAX) by (nonlinear_arith)
        requires
            diff_1 <= u32::MAX,
            diff_3 <= u32::MAX,
    ;
    let p = diff_1 * diff_3;
    if p > 4294967295 {
        None
    } else {
        Some(p as u32)
    }
}

/// The number of ways to go from adapter `i` to the last one, each step to a
/// later adapter at most three above.
pub open spec fn ways(s: Seq<u32>, i: int) -> int
    decreases s.len() - i, s.len() + 1,
{
    if i < 0 || i >= s.len() - 1 {
        1
    } else {
        ways_from(s, i, i + 1)
    }
}

/// The ways continuing through adapters `j`, `j + 1`, ... up to the first one
/// more than three above adapter `i`.
pub open spec fn ways_from(s: Seq<u32>, i: int, j: int) -> int
    decreases s.len() - i, s.len() - j,
{
    if i < 0 || j <= i || j >= s.len() || s[j] > s[i] + 3 {
        0
    } else {
        ways(s, j) + ways_from(s, i, j + 1)
    }
}

proof fn lemma_ways_nonneg(s: Seq<u32>, i: int)
    ensures
        ways(s, i) >= 0,
    decreases s.len() - i, s.len() + 1,
{
    if !(i < 0 || i >= s.len() - 1) {
        lemma_ways_from_nonneg(s, i, i + 1);
    }
}

proof fn lemma_ways_from_nonneg(s: Seq<u32>, i: int, j: int)
    ensures
        ways_from(s, i, j) >= 0,
    decreases s.len() - i, s.len() - j,
{
    if !(i < 0 || j <= i || j >= s.len() || s[j] > s[i] + 3) {
        lemma_ways_nonneg(s, j);
        lemma_ways_from_nonneg(s, i, j + 1);
    }
}

/// The number of ways from adapter `current` to the last one; `None` when one of
/// the counts along the way does not fit in 64 bits.
pub fn count_possibilities(adapters: &[u32], current: usize) -> (r: Option<u64>)
    requires
        current < adapters@.len(),
    ensures
        r matches Some(v) ==> v == ways(adapters@, current as int),
        r is None ==> exists|k: int| current <= k < adapters@.len() && #[trigger] ways(adapters@, k) > u64::MAX,
{
    let n = adapters.len();
    let ghost s = adapters@;
    let mut w: Vec<u64> = Vec::new();
    let mut k: usize = 0;
    while k < n
        invariant
            n == s.len(),
            k <= n,
            w@.len() == k,
        decreases n - k,
    {
        w.push(0);
        k += 1;
    }
    let mut i: usize = n;
    while i > current
        invariant
            n == s.len(),
            s == adapters@,
            current < n,
            current <= i <= n,
            w@.len() == n,
            forall|k: int| i <= k < n ==> #[trigger] w@[k] == ways(s, k),
        decreases i,
    {
        i -= 1;
        let value: u64 = if i == n - 1 {
            1
        } else {
            let mut total: u64 = 0;
            let mut j: usize = i + 1;
            proof {
                lemma_ways_from_nonneg(s, i as int, j as int);
            }
            while j < n && adapters[j] as u64 <= adapters[i] as u64 + 3
                invariant
                    n == s.len(),
                    s == adapters@,
                    i + 1 <= j <= n,
                    i < n - 1,
                    current <= i,
                    w@.len() == n,
                    forall|k: int| i < k < n ==> #[trigger] w@[k] == ways(s, k),
                    total + ways_from(s, i as int, j as int) == ways(s, i as int),
                    ways_from(s, i as int, j as int) >= 0,
                decreases n - j,
            {
                proof {
                    lemma_ways_from_nonneg(s, i as int, j + 1);
                }
                total = match total.checked_add(w[j]) {
                    Some(t) => t,
                    None => {
                        assert(ways(s, i as int) > u64::MAX);
                        return None;
                    },
                };
                j += 1;
            }
            total
        };
        w.set(i, value);
    }
    Some(w[current])
}

/// The number of arrangements of the adapters from the outlet to the last one.
pub fn solve_part2(input: &[u32]) -> (r: Option<u64>)
    requires
        input@.len() > 0,
    ensures
        r matches Some(v) ==> v == ways(input@, 0),
        r is None ==> exists|k: int| 0 <= k < input@.len() && #[trigger] ways(input@, k) > u64::MAX,
{
    count_possibilities(input, 0)
}

} // verus!
