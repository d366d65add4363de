//! Customs declarations: per group, the questions anyone answered and the
//! questions everyone answered.

use crate::text::{lines_spec, split_lines};
use vstd::prelude::*;
use vstd::string::StringSliceAdditionalSpecFns;

verus! {

/// The groups of lines: runs of non-empty lines, separated by empty lines.
pub open spec fn groups_spec(lines: Seq<Seq<u8>>) -> Seq<Seq<Seq<u8>>>
    decreases lines.len(),
{
    if lines.len() == 0 {
        seq![Seq::empty()]
    } else {
        let g = groups_spec(lines.drop_last());
        if lines.last().len() == 0 {
            g.push(Seq::empty())
        } else {
            g.update(g.len() - 1, g.last().push(lines.last()))
        }
    }
}

pub open spec fn is_alpha(b: u8) -> bool {
    (65 <= b <= 90) || (97 <= b <= 122)
}

/// How often `b` occurs in the first `k` lines of the group.
pub open spec fn occ(group: Seq<Seq<u8>>, b: u8, k: int) -> nat
    decreases k,
{
    if k <= 0 {
        0
    } else {
        occ(group, b, k - 1) + occ_line(group[k - 1], b, group[k - 1].len() as int)
    }
}

pub open spec fn occ_line(line: Seq<u8>, b: u8, k: int) -> nat
    decreases k,
{
    if k <= 0 {
        0
    } else {
        occ_line(line, b, k - 1) + if line[k - 1] == b {
            1nat
        } else {
            0nat
        }
    }
}

/// Byte `b` is counted: for `everyone`, it occurs as many times as the group
/// has lines (and at least once); otherwise it is a letter that occurs at all.
pub open spec fn counted(group: Seq<Seq<u8>>, b: u8, everyone: bool) -> bool {
    let n = occ(group, b, group.len() as int);
    if everyone {
        n > 0 && n == group.len()
    } else {
        is_alpha(b) && n > 0
    }
}

/// Counted bytes among the values below `k`.
pub open spec fn count_counted(group: Seq<Seq<u8>>, k: int, everyone: bool) -> nat
    decreases k,
{
    if k <= 0 {
        0
    } else {
        count_counted(group, k - 1, everyone) + if counted(group, (k - 1) as u8, everyone) {
            1nat
        } else {
            0nat
        }
    }
}

proof fn lemma_count_counted_bound(group: Seq<Seq<u8>>, k: int, everyone: bool)
    requires
        k >= 0,
    ensures
        count_counted(group, k, everyone) <= k,
    decreases k,
{
    if k > 0 {
        lemma_count_counted_bound(group, k - 1, everyone);
    }
}

/// The number of questions in a group answered by anyone (`everyone` false) or
/// by everyone; `None` when a byte occurs more often than a counter can hold.
pub fn group_count(group: &Vec<Vec<u8>>, everyone: bool) -> (r: Option<usize>)
    ensures
        r matches Some(n) ==> n == count_counted(Seq::new(group@.len(), |i: int| group@[i]@), 256, everyone),
{
    let ghost gv = Seq::new(group@.len(), |i: int| group@[i]@);
    let mut counts: Vec<u64> = Vec::new();
    let mut b: usize = 0;
    while b < 256
        invariant
            b <= 256,
            counts@.len() == b,
            forall|k: int| 0 <= k < b ==> counts@[k] == 0,
        decreases 256 - b,
    {
        counts.push(0);
        b += 1;
    }
    let mut i: usize = 0;
    while i < group.len()
        invariant
            gv == Seq::new(group@.len(), |i: int| group@[i]@),
            i <= group@.len(),
            counts@.len() == 256,
            forall|k: int| 0 <= k < 256 ==> #[trigger] counts@[k] == occ(gv, k as u8, i as int),
        decreases group@.len() - i,
    {
        let line = &group[i];
        assert(gv[i as int] == line@);
        let mut j: usize = 0;
        while j < line.len()
            invariant
                gv == Seq::new(group@.len(), |i: int| group@[i]@),
                i < group@.len(),
                gv[i as int] == line@,
                j <= line@.len(),
                counts@.len() == 256,
                forall|k: int|
                    0 <= k < 256 ==> #[trigger] counts@[k] == occ(gv, k as u8, i as int) + occ_line(
                        line@,
                        k as u8,
                        j as int,
                    ),
            decreases line@.len() - j,
        {
            let c = line[j] as usize;
            let v = match counts[c].checked_add(1) {
                Some(v) => v,
                None => {
                    return None;
                },
            };
            counts.set(c, v);
            proof {
                assert forall|k: int| 0 <= k < 256 implies #[trigger] counts@[k] == occ(gv, k as u8, i as int)
                    + occ_line(line@, k as u8, j + 1) by {
                    assert((k as u8 == line@[j as int]) == (k == c));
                }
            }
            j += 1;
        }
        i += 1;
    }
    let n_lines = group.len() as u64;
    let mut total: usize = 0;
    let mut b: usize = 0;
    while b < 256
        invariant
            gv == Seq::new(group@.len(), |i: int| group@[i]@),
            n_lines == gv.len(),
            counts@.len() == 256,
            forall|k: int| 0 <= k < 256 ==> #[trigger] counts@[k] == occ(gv, k as u8, gv.len() as int),
            b <= 256,
            total == count_counted(gv, b as int, everyone),
            total <= b,
        decreases 256 - b,
    {
        let n = counts[b];
        let bb = b as u8;
        let ok = if everyone {
            n > 0 && n == n_lines
        } else {
            ((65 <= bb && bb <= 90) || (97 <= bb && bb <= 122)) && n > 0
        };
        assert(ok == counted(gv, b as u8, everyone));
        if ok {
            total += 1;
        }
        b += 1;
    }
    Some(total)
}

/// The groups of the input, each as its lines.
pub fn groups(input: &str) -> (r: Vec<Vec<Vec<u8>>>)
    ensures
        Seq::new(r@.len(), |i: int| Seq::new(r@[i]@.len(), |j: int| r@[i]@[j]@)) == groups_spec(
            lines_spec(input.spec_bytes()),
        ),
{
    let lines = split_lines(input.as_bytes());
    let ghost lv = lines_spec(input.spec_bytes());
    let mut out: Vec<Vec<Vec<u8>>> = Vec::new();
    let mut cur: Vec<Vec<u8>> = Vec::new();
    let mut i: usize = 0;
    assert(lv.subrange(0, 0) =~= Seq::<Seq<u8>>::empty());
    assert(Seq::new(out@.len(), |i: int| Seq::new(out@[i]@.len(), |j: int| out@[i]@[j]@)).push(
        Seq::new(cur@.len(), |j: int| cur@[j]@),
    ) =~~= groups_spec(lv.subrange(0, 0)));
    while i < lines.len()
        invariant
            lv == Seq::new(lines@.len(), |k: int| lines@[k]@),
            lv == lines_spec(input.spec_bytes()),
            i <= lines@.len(),
            Seq::new(out@.len(), |i: int| Seq::new(out@[i]@.len(), |j: int| out@[i]@[j]@)).push(
                Seq::new(cur@.len(), |j: int| cur@[j]@),
            ) == groups_spec(lv.subrange(0, i as int)),
        decreases lines@.len() - i,
    {
        let ghost before = Seq::new(out@.len(), |i: int| Seq::new(out@[i]@.len(), |j: int| out@[i]@[j]@));
        let ghost cur_v = Seq::new(cur@.len(), |j: int| cur@[j]@);
        assert(lv.subrange(0, i + 1).drop_last() =~= lv.subrange(0, i as int));
        assert(lv[i as int] == lines@[i as int]@);
        if lines[i].len() == 0 {
            out.push(cur);
            cur = Vec::new();
            assert(Seq::new(out@.len(), |i: int| Seq::new(out@[i]@.len(), |j: int| out@[i]@[j]@)) =~= before.push(cur_v));
            assert(Seq::new(out@.len(), |i: int| Seq::new(out@[i]@.len(), |j: int| out@[i]@[j]@)).push(
                Seq::new(cur@.len(), |j: int| cur@[j]@),
            ) =~~= before.push(cur_v).push(Seq::empty()));
        } else {
            cur.push(lines[i].clone());
            assert(Seq::new(cur@.len(), |j: int| cur@[j]@) =~= cur_v.push(lv[i as int]));
            assert(Seq::new(out@.len(), |i: int| Seq::new(out@[i]@.len(), |j: int| out@[i]@[j]@)) =~= before);
            assert(before.push(cur_v.push(lv[i as int])) =~= before.push(cur_v).update(
                before.len() as int,
                cur_v.push(lv[i as int]),
            ));
        }
        i += 1;
    }
    let ghost before = Seq::new(out@.len(), |i: int| Seq::new(out@[i]@.len(), |j: int| out@[i]@[j]@));
    let ghost cur_v = Seq::new(cur@.len(), |j: int| cur@[j]@);
    out.push(cur);
    assert(Seq::new(out@.len(), |i: int| Seq::new(out@[i]@.len(), |j: int| out@[i]@[j]@)) =~= before.push(cur_v));
    assert(lv.subrange(0, i as int) =~= lv);
    out
}

/// The sum over the groups of `group_count`; `None` when a count or the sum does
/// not fit.
fn total(input: &str, everyone: bool) -> (r: Option<usize>)
    ensures
        r matches Some(n) ==> {
            let gs = groups_spec(lines_spec(input.spec_bytes()));
            n == sum_counts(gs, gs.len() as int, everyone)
        },
{
    let gs = groups(input);
    let ghost gv = Seq::new(gs@.len(), |i: int| Seq::new(gs@[i]@.len(), |j: int| gs@[i]@[j]@));
    let mut sum: usize = 0;
    let mut i: usize = 0;
    while i < gs.len()
        invariant
            gv == Seq::new(gs@.len(), |i: int| Seq::new(gs@[i]@.len(), |j: int| gs@[i]@[j]@)),
            i <= gs@.len(),
            sum == sum_counts(gv, i as int, everyone),
        decreases gs@.len() - i,
    {
        let c = match group_count(&gs[i], everyone) {
            Some(c) => c,
            None => {
                return None;
            },
        };
        assert(gv[i as int] == Seq::new(gs@[i as int]@.len(), |j: int| gs@[i as int]@[j]@));
        sum = match sum.checked_add(c) {
            Some(s) => s,
            None => {
                return None;
            },
        };
        i += 1;
    }
    Some(sum)
}

pub open spec fn sum_counts(gs: Seq<Seq<Seq<u8>>>, k: int, everyone: bool) -> int
    decreases k,
{
    if k <= 0 {
        0
    } else {
        sum_counts(gs, k - 1, everyone) + count_counted(gs[k - 1], 256, everyone)
    }
}

/// Over the groups, the number of questions anyone in the group answered.
pub fn solve_part1(input: &str) -> (r: Option<usize>)
    ensures
        r matches Some(n) ==> {
            let gs = groups_spec(lines_spec(input.spec_bytes()));
            n == sum_counts(gs, gs.len() as int, false)
        },
{
    total(input, false)
}

/// Over the groups, the number of questions everyone in the group answered.
pub fn solve_part2(input: &str) -> (r: Option<usize>)
    ensures
        r matches Some(n) ==> {
            let gs = groups_spec(lines_spec(input.spec_bytes()));
            n == sum_counts(gs, gs.len() as int, true)
        },
{
    total(input, true)
}

} // verus!
