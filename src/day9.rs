//! The transmission cipher: find the first number that is not a sum of two
//! numbers among the previous ones, then a contiguous run summing to it.

use crate::text::{
    lemma_parse_lines_prefix, lemma_parse_lines_step, lines_spec, number_of, parse_lines, parse_u64,
    split_lines,
};
use vstd::prelude::*;
use vstd::string::StringSliceAdditionalSpecFns;

verus! {

/// The last `size` numbers seen, and the set of their distinct values.
pub struct SlidingWindow {
    pub size: usize,
    pub numbers: Vec<u64>,
    pub cache: Vec<u64>,
}

impl SlidingWindow {
    pub open spec fn wf(&self) -> bool {
        &&& self.size > 0
        &&& self.numbers@.len() <= self.size
        &&& self.cache@.no_duplicates()
    }

    pub fn new(size: usize) -> (r: Self)
        requires
            size > 0,
        ensures
            r.wf(),
            r.size == size,
            r.numbers@.len() == 0,
            r.cache@.len() == 0,
    {
        Self { size, numbers: Vec::new(), cache: Vec::new() }
    }

    /// Appends `value`; when the window is full its oldest number leaves, and that
    /// value leaves the set.
    pub fn add(&mut self, value: u64)
        requires
            old(self).wf(),
        ensures
            final(self).wf(),
            final(self).size == old(self).size,
            final(self).numbers@ == (if old(self).numbers@.len() == old(self).size {
                old(self).numbers@.drop_first()
            } else {
                old(self).numbers@
            }).push(value),
            forall|x: u64|
                #[trigger] final(self).cache@.contains(x) == (x == value || (old(self).cache@.contains(x)
                    && !(old(self).numbers@.len() == old(self).size && x == old(self).numbers@[0]))),
    {
        if self.is_full() {
            let removed = self.numbers.remove(0);
            assert(old(self).numbers@.remove(0) =~= old(self).numbers@.drop_first());
            self.numbers.push(value);
            remove_value(&mut self.cache, removed);
            insert_value(&mut self.cache, value);
        } else {
            self.numbers.push(value);
            insert_value(&mut self.cache, value);
        }
    }

    pub fn is_full(&self) -> (r: bool)
        ensures
            r == (self.numbers@.len() == self.size),
    {
        self.numbers.len() == self.size
    }

    /// Whether `value` is the sum of a number in the set and another number in
    /// the set (the same one counts twice).
    pub fn is_two_sum(&self, value: u64) -> (r: bool)
        ensures
            r == exists|a: u64|
                #[trigger] self.cache@.contains(a) && a < value && self.cache@.contains((value - a) as u64),
    {
        let n = self.cache.len();
        let mut i: usize = 0;
        while i < n
            invariant
                n == self.cache@.len(),
                i <= n,
                forall|k: int|
                    0 <= k < i ==> !(self.cache@[k] < value && self.cache@.contains(
                        (value - #[trigger] self.cache@[k]) as u64,
                    )),
            decreases n - i,
        {
            let a = self.cache[i];
            if a < value && contains(&self.cache, value - a) {
                assert(self.cache@.contains(a));
                return true;
            }
            i += 1;
        }
        proof {
            assert forall|a: u64| #[trigger] self.cache@.contains(a) implies !(a < value
                && self.cache@.contains((value - a) as u64)) by {
                let k = choose|k: int| 0 <= k < n && self.cache@[k] == a;
            }
        }
        false
    }
}

fn contains(v: &Vec<u64>, x: u64) -> (r: bool)
    ensures
        r == v@.contains(x),
{
    let mut i: usize = 0;
    while i < v.len()
        invariant
            i <= v@.len(),
            forall|k: int| 0 <= k < i ==> v@[k] != x,
        decreases v@.len() - i,
    {
        if v[i] == x {
            return true;
        }
        i += 1;
    }
    false
}

/// Adds `x` to a set held as a vector without duplicates.
fn insert_value(v: &mut Vec<u64>, x: u64)
    requires
        old(v)@.no_duplicates(),
    ensures
        final(v)@.no_duplicates(),
        forall|y: u64| #[trigger] final(v)@.contains(y) == (y == x || old(v)@.contains(y)),
{
    if !contains(v, x) {
        v.push(x);
        assert(v@[v@.len() - 1] == x);
        assert forall|y: u64| #[trigger] v@.contains(y) <==> (y == x || old(v)@.contains(y)) by {
            if v@.contains(y) && y != x {
                let k = choose|k: int| 0 <= k < v@.len() && v@[k] == y;
                assert(old(v)@[k] == y);
            }
            if old(v)@.contains(y) {
                let k = choose|k: int| 0 <= k < old(v)@.len() && old(v)@[k] == y;
                assert(v@[k] == y);
            }
        }
    }
}

/// Removes `x` from a set held as a vector without duplicates.
fn remove_value(v: &mut Vec<u64>, x: u64)
    requires
        old(v)@.no_duplicates(),
    ensures
        final(v)@.no_duplicates(),
        forall|y: u64| #[trigger] final(v)@.contains(y) == (y != x && old(v)@.contains(y)),
{
    let mut i: usize = 0;
    while i < v.len()
        invariant
            v@ == old(v)@,
            v@.no_duplicates(),
            i <= v@.len(),
            forall|k: int| 0 <= k < i ==> v@[k] != x,
        decreases v@.len() - i,
    {
        if v[i] == x {
            let ghost before = v@;
            v.remove(i);
            assert(v@ =~= before.subrange(0, i as int) + before.subrange(i + 1, before.len() as int));
            assert forall|a: int, b: int| 0 <= a < v@.len() && 0 <= b < v@.len() && a != b implies v@[a] != v@[b] by {
                let a1 = if a < i { a } else { a + 1 };
                let b1 = if b < i { b } else { b + 1 };
                assert(v@[a] == before[a1] && v@[b] == before[b1]);
                assert(before[a1] != before[b1]);
            }
            assert forall|y: u64| #[trigger] v@.contains(y) <==> (y != x && before.contains(y)) by {
                if v@.contains(y) {
                    let k = choose|k: int| 0 <= k < v@.len() && v@[k] == y;
                    if k < i {
                        assert(before[k] == y);
                    } else {
                        assert(before[k + 1] == y);
                    }
                }
                if y != x && before.contains(y) {
                    let k = choose|k: int| 0 <= k < before.len() && before[k] == y;
                    if k < i {
                        assert(v@[k] == y);
                    } else {
                        assert(k != i);
                        assert(v@[k - 1] == y);
                    }
                }
            }
            return;
        }
        i += 1;
    }
}

/// The sum of `s[i..j]`.
pub open spec fn range_sum(s: Seq<u64>, i: int, j: int) -> int
    decreases j - i,
{
    if j <= i {
        0
    } else {
        range_sum(s, i, j - 1) + s[j - 1]
    }
}

pub open spec fn seq_min(s: Seq<u64>, i: int, j: int) -> int
    decreases j - i,
{
    if j <= i {
        u64::MAX as int
    } else {
        let m = seq_min(s, i, j - 1);
        if (s[j - 1] as int) < m {
            s[j - 1] as int
        } else {
            m
        }
    }
}

pub open spec fn seq_max(s: Seq<u64>, i: int, j: int) -> int
    decreases j - i,
{
    if j <= i {
        0
    } else {
        let m = seq_max(s, i, j - 1);
        if (s[j - 1] as int) > m {
            s[j - 1] as int
        } else {
            m
        }
    }
}

/// A run of numbers with their running total.
pub struct TotalWindow {
    pub numbers: Vec<u64>,
    pub total: u64,
}

impl TotalWindow {
    pub open spec fn wf(&self) -> bool {
        self.total == range_sum(self.numbers@, 0, self.numbers@.len() as int)
    }

    pub fn new() -> (r: Self)
        ensures
            r.wf(),
            r.numbers@.len() == 0,
    {
        Self { numbers: Vec::new(), total: 0 }
    }

    pub fn add(&mut self, value: u64)
        requires
            old(self).wf(),
            old(self).total + value <= u64::MAX,
        ensures
            final(self).wf(),
            final(self).numbers@ == old(self).numbers@.push(value),
    {
        let ghost before = self.numbers@;
        self.numbers.push(value);
        proof {
            lemma_range_sum_prefix(before, self.numbers@, before.len() as int);
        }
        self.total += value;
    }

    /// Drops the oldest number.
    pub fn bump(&mut self)
        requires
            old(self).wf(),
            old(self).numbers@.len() > 0,
        ensures
            final(self).wf(),
            final(self).numbers@ == old(self).numbers@.drop_first(),
    {
        let ghost before = self.numbers@;
        let removed = self.numbers.remove(0);
        proof {
            lemma_range_sum_front(before);
            assert(before.remove(0) =~= before.drop_first());
        }
        self.total -= removed;
    }

    /// The smallest and the largest number of the run.
    pub fn min_max(self) -> (r: (u64, u64))
        ensures
            r.0 == seq_min(self.numbers@, 0, self.numbers@.len() as int),
            r.1 == seq_max(self.numbers@, 0, self.numbers@.len() as int),
    {
        let mut min = u64::MAX;
        let mut max = 0u64;
        let mut i: usize = 0;
        while i < self.numbers.len()
            invariant
                i <= self.numbers@.len(),
                min == seq_min(self.numbers@, 0, i as int),
                max == seq_max(self.numbers@, 0, i as int),
            decreases self.numbers@.len() - i,
        {
            let num = self.numbers[i];
            if num < min {
                min = num;
            }
            if num > max {
                max = num;
            }
            i += 1;
        }
        (min, max)
    }
}

proof fn lemma_range_sum_prefix(a: Seq<u64>, b: Seq<u64>, j: int)
    requires
        0 <= j <= a.len(),
        j <= b.len(),
        forall|k: int| 0 <= k < j ==> a[k] == b[k],
    ensures
        range_sum(a, 0, j) == range_sum(b, 0, j),
    decreases j,
{
    if j > 0 {
        lemma_range_sum_prefix(a, b, j - 1);
    }
}

proof fn lemma_range_sum_split_front(s: Seq<u64>, i: int, j: int)
    requires
        0 <= i < j <= s.len(),
    ensures
        range_sum(s, i, j) == s[i] + range_sum(s, i + 1, j),
    decreases j - i,
{
    if j > i + 1 {
        lemma_range_sum_split_front(s, i, j - 1);
    } else {
        assert(range_sum(s, i, i) == 0);
        assert(range_sum(s, i + 1, i + 1) == 0);
    }
}

proof fn lemma_range_sum_shift(s: Seq<u64>, i: int, j: int)
    requires
        0 <= i <= j < s.len(),
    ensures
        range_sum(s.drop_first(), i, j) == range_sum(s, i + 1, j + 1),
    decreases j - i,
{
    if j > i {
        lemma_range_sum_shift(s, i, j - 1);
    }
}

proof fn lemma_range_sum_nonneg(s: Seq<u64>, i: int, j: int)
    ensures
        range_sum(s, i, j) >= 0,
    decreases j - i,
{
    if j > i {
        lemma_range_sum_nonneg(s, i, j - 1);
    }
}

proof fn lemma_range_sum_front(s: Seq<u64>)
    requires
        s.len() > 0,
    ensures
        range_sum(s, 0, s.len() as int) == s[0] + range_sum(s.drop_first(), 0, s.len() - 1),
        range_sum(s.drop_first(), 0, s.len() - 1) >= 0,
{
    lemma_range_sum_split_front(s, 0, s.len() as int);
    lemma_range_sum_shift(s, 0, s.len() - 1);
    lemma_range_sum_nonneg(s.drop_first(), 0, s.len() - 1);
}

/// The window before position `i`: the `size` numbers preceding it, or all of
/// them near the start.
pub open spec fn preceding(input: Seq<u64>, i: int, size: int) -> Seq<u64> {
    input.subrange(if i > size {
        i - size
    } else {
        0
    }, i)
}

pub open spec fn numbers_of(lines: Seq<Seq<u8>>) -> Option<Seq<u64>> {
    parse_lines(lines, |l: Seq<u8>| number_of(l))
}

/// One number per non-empty line.
pub fn parser(input: &str) -> (r: Option<Vec<u64>>)
    ensures
        r matches Some(v) ==> numbers_of(lines_spec(input.spec_bytes())) == Some(v@),
        r is None <==> numbers_of(lines_spec(input.spec_bytes())) is None,
{
    let lines = split_lines(input.as_bytes());
    let ghost lv = lines_spec(input.spec_bytes());
    let ghost f = |l: Seq<u8>| number_of(l);
    let mut out: Vec<u64> = Vec::new();
    let mut i: usize = 0;
    assert(lv.subrange(0, 0) =~= Seq::<Seq<u8>>::empty());
    while i < lines.len()
        invariant
            lv == Seq::new(lines@.len(), |k: int| lines@[k]@),
            lv == lines_spec(input.spec_bytes()),
            f == (|l: Seq<u8>| number_of(l)),
            i <= lines@.len(),
            parse_lines(lv.subrange(0, i as int), f) == Some(out@),
        decreases lines@.len() - i,
    {
        proof {
            lemma_parse_lines_step(lv, f, i as int);
        }
        assert(lv[i as int] == lines@[i as int]@);
        assert(lines@[i as int]@.subrange(0, lines@[i as int]@.len() as int) =~= lines@[i as int]@);
        if lines[i].len() > 0 {
            match parse_u64(lines[i].as_slice(), 0, lines[i].len()) {
                Some(v) => out.push(v),
                None => {
                    proof {
                        lemma_parse_lines_prefix(lv, f, i + 1);
                    }
                    return None;
                },
            }
        }
        i += 1;
    }
    assert(lv.subrange(0, i as int) =~= lv);
    Some(out)
}

/// The set of values that the window's set holds just before position `i`: each
/// number is added as it is passed, and once `size` numbers are held, the value of
/// the number leaving is removed first (even when an equal number stays).
pub open spec fn cache_after(input: Seq<u64>, i: int, size: int) -> Set<u64>
    decreases i,
{
    if i <= 0 {
        Set::empty()
    } else {
        let c = cache_after(input, i - 1, size);
        if i - 1 >= size {
            c.remove(input[i - 1 - size]).insert(input[i - 1])
        } else {
            c.insert(input[i - 1])
        }
    }
}

/// Some value of the set plus another (or the same) one makes `v`.
pub open spec fn two_sum(set: Set<u64>, v: u64) -> bool {
    exists|a: u64| #[trigger] set.contains(a) && a < v && set.contains((v - a) as u64)
}

/// The first number, once the window of the preceding `size` numbers is full,
/// that is not a sum of two values in the window's set.
pub fn first_invalid(input: &[u64], size: usize) -> (r: Option<u64>)
    requires
        size > 0,
    ensures
        r matches Some(v) ==> exists|i: int|
            size <= i < input@.len() && input@[i] == v && !two_sum(#[trigger] cache_after(input@, i, size as int), v)
                && forall|k: int| size <= k < i ==> two_sum(#[trigger] cache_after(input@, k, size as int), input@[k]),
        r is None ==> forall|k: int| size <= k < input@.len() ==> two_sum(#[trigger] cache_after(input@, k, size as int), input@[k]),
{
    let mut window = SlidingWindow::new(size);
    let mut i: usize = 0;
    while i < input.len()
        invariant
            window.wf(),
            window.size == size,
            i <= input@.len(),
            window.numbers@ == preceding(input@, i as int, size as int),
            forall|x: u64| #[trigger] window.cache@.contains(x) == cache_after(input@, i as int, size as int).contains(x),
            forall|k: int| size <= k < i ==> two_sum(#[trigger] cache_after(input@, k, size as int), input@[k]),
        decreases input@.len() - i,
    {
        let number = input[i];
        let full = window.is_full();
        let sum = window.is_two_sum(number);
        proof {
            let c = cache_after(input@, i as int, size as int);
            assert(sum == two_sum(c, number)) by {
                if sum {
                    let a = choose|a: u64| #[trigger] window.cache@.contains(a) && a < number && window.cache@.contains((number - a) as u64);
                    assert(c.contains(a));
                }
                if two_sum(c, number) {
                    let a = choose|a: u64| #[trigger] c.contains(a) && a < number && c.contains((number - a) as u64);
                    assert(window.cache@.contains(a));
                }
            }
            assert(full == (i >= size));
        }
        if full && !sum {
            return Some(number);
        }
        let ghost before = window.numbers@;
        window.add(number);
        proof {
            let after = preceding(input@, i + 1, size as int);
            if before.len() == size {
                assert(after =~= before.drop_first().push(number));
                assert(before[0] == input@[i - size]);
            } else {
                assert(after =~= before.push(number));
            }
        }
        i += 1;
    }
    None
}

/// The first number not a sum of two among the twenty-five before it.
pub fn solve_part1(input: &[u64]) -> (r: Option<u64>)
    ensures
        r matches Some(v) ==> exists|i: int|
            25 <= i < input@.len() && input@[i] == v && !two_sum(#[trigger] cache_after(input@, i, 25), v)
                && forall|k: int| 25 <= k < i ==> two_sum(#[trigger] cache_after(input@, k, 25), input@[k]),
        r is None ==> forall|k: int| 25 <= k < input@.len() ==> two_sum(#[trigger] cache_after(input@, k, 25), input@[k]),
{
    first_invalid(input, 25)
}

/// The sum of the smallest and largest numbers of a contiguous run, found by a
/// window sliding over the input, whose total is `target`.
pub fn weakness(input: &[u64], target: u64) -> (r: Option<u64>)
    ensures
        r matches Some(v) ==> exists|i: int, j: int|
            0 <= i < j <= input@.len() && range_sum(input@, i, j) == target && v == seq_min(
                input@.subrange(i, j),
                0,
                j - i,
            ) + seq_max(input@.subrange(i, j), 0, j - i),
{
    let mut window = TotalWindow::new();
    let mut start: usize = 0;
    let mut i: usize = 0;
    while i < input.len()
        invariant
            window.wf(),
            start <= i <= input@.len(),
            window.numbers@ == input@.subrange(start as int, i as int),
            window.total <= target,
        decreases input@.len() - i,
    {
        let number = input[i];
        if window.total as u128 + number as u128 > u64::MAX as u128 {
            return None;
        }
        window.add(number);
        i += 1;
        assert(window.numbers@ =~= input@.subrange(start as int, i as int));
        loop
            invariant
                window.wf(),
                start <= i <= input@.len(),
                window.numbers@ == input@.subrange(start as int, i as int),
            decreases i - start,
        {
            if window.total == target {
                if start == i {
                    break;
                }
                proof {
                    lemma_range_sum_window(input@, start as int, i as int);
                }
                let (min, max) = window.min_max();
                if min as u128 + max as u128 > u64::MAX as u128 {
                    return None;
                }
                return Some(min + max);
            } else if window.total > target {
                window.bump();
                start += 1;
                assert(window.numbers@ =~= input@.subrange(start as int, i as int));
            } else {
                break;
            }
        }
        if window.total > target {
            return None;
        }
    }
    None
}

proof fn lemma_range_sum_window(s: Seq<u64>, i: int, j: int)
    requires
        0 <= i <= j <= s.len(),
    ensures
        range_sum(s.subrange(i, j), 0, j - i) == range_sum(s, i, j),
    decreases j - i,
{
    if j > i {
        lemma_range_sum_window(s, i, j - 1);
        lemma_range_sum_prefix(s.subrange(i, j - 1), s.subrange(i, j), j - 1 - i);
    }
}

/// The encryption weakness: a contiguous run summing to the first invalid
/// number, its smallest plus its largest number.
pub fn solve_part2(input: &[u64]) -> (r: Option<u64>)
    ensures
        r matches Some(v) ==> exists|t: u64, i: int, j: int|
            #![trigger range_sum(input@, i, j), first_invalid_is(input@, t)]
            first_invalid_is(input@, t) && 0 <= i < j <= input@.len() && range_sum(input@, i, j) == t
                && v == seq_min(input@.subrange(i, j), 0, j - i) + seq_max(input@.subrange(i, j), 0, j - i),
{
    let target = match solve_part1(input) {
        Some(t) => t,
        None => {
            return None;
        },
    };
    let r = weakness(input, target);
    assert(first_invalid_is(input@, target));
    r
}

/// `t` is what `solve_part1` finds.
pub open spec fn first_invalid_is(input: Seq<u64>, t: u64) -> bool {
    exists|i: int|
        25 <= i < input.len() && input[i] == t && !two_sum(#[trigger] cache_after(input, i, 25), t)
            && forall|k: int| 25 <= k < i ==> two_sum(#[trigger] cache_after(input, k, 25), input[k])
}

} // verus!
