//! Reading puzzle text: splitting into lines and reading decimal numbers.

use vstd::prelude::*;

verus! {

/// The byte of a line break.
pub const NEWLINE: u8 = 10;

pub open spec fn is_digit(b: u8) -> bool {
    48 <= b <= 57
}

pub open spec fn all_digits(s: Seq<u8>) -> bool {
    forall|i: int| 0 <= i < s.len() ==> is_digit(#[trigger] s[i])
}

/// The value of a string of decimal digits.
pub open spec fn digits_value(s: Seq<u8>) -> int
    decreases s.len(),
{
    if s.len() == 0 {
        0
    } else {
        digits_value(s.drop_last()) * 10 + (s.last() - 48)
    }
}

/// The number a non-empty string of decimal digits denotes, when it fits in 64 bits.
pub open spec fn number_of(s: Seq<u8>) -> Option<u64> {
    if s.len() > 0 && all_digits(s) && digits_value(s) <= u64::MAX {
        Some(digits_value(s) as u64)
    } else {
        None
    }
}

proof fn lemma_digits_value_nonneg(s: Seq<u8>)
    requires
        all_digits(s),
    ensures
        digits_value(s) >= 0,
    decreases s.len(),
{
    if s.len() > 0 {
        lemma_digits_value_nonneg(s.drop_last());
    }
}

/// Reads `s[start..end]` as a decimal number.
pub fn parse_u64(s: &[u8], start: usize, end: usize) -> (r: Option<u64>)
    requires
        start <= end <= s@.len(),
    ensures
        r == number_of(s@.subrange(start as int, end as int)),
{
    if start == end {
        return None;
    }
    let mut value: u64 = 0;
    let mut i: usize = start;
    while i < end
        invariant
            start <= i <= end <= s@.len(),
            start < end,
            all_digits(s@.subrange(start as int, i as int)),
            value as int == digits_value(s@.subrange(start as int, i as int)),
        decreases end - i,
    {
        let b = s[i];
        let ghost pre = s@.subrange(start as int, i as int);
        let ghost next = s@.subrange(start as int, i + 1);
        assert(next.drop_last() =~= pre);
        if b < 48 || b > 57 {
            assert(!all_digits(s@.subrange(start as int, end as int))) by {
                assert(s@.subrange(start as int, end as int)[i - start] == b);
            }
            return None;
        }
        let d = (b - 48) as u64;
        if value > (u64::MAX - d) / 10 {
            proof {
                let whole = s@.subrange(start as int, end as int);
                assert(whole.subrange(0, (i - start) as int) =~= pre);
                assert(whole[(i - start) as int] == b);
                assert(value as int * 10 + d as int > u64::MAX) by (nonlinear_arith)
                    requires
                        value as int > (u64::MAX - d as int) / 10,
                        0 <= d <= 9,
                ;
                lemma_value_too_big(s@.subrange(start as int, end as int), (i - start) as nat);
            }
            return None;
        }
        value = value * 10 + d;
        i += 1;
    }
    assert(s@.subrange(start as int, i as int) =~= s@.subrange(start as int, end as int));
    Some(value)
}

/// Once a prefix of digits exceeds the 64-bit range, so does the whole string.
proof fn lemma_value_too_big(s: Seq<u8>, k: nat)
    requires
        k < s.len(),
        all_digits(s.subrange(0, k as int)),
        is_digit(s[k as int]),
        digits_value(s.subrange(0, k as int)) * 10 + (s[k as int] - 48) > u64::MAX,
    ensures
        number_of(s) is None,
    decreases s.len() - k,
{
    if all_digits(s) {
        lemma_prefix_value_grows(s, (k + 1) as nat);
        assert(s.subrange(0, (k + 1) as int).drop_last() =~= s.subrange(0, k as int));
    }
}

proof fn lemma_prefix_value_grows(s: Seq<u8>, k: nat)
    requires
        k <= s.len(),
        all_digits(s),
    ensures
        digits_value(s) >= digits_value(s.subrange(0, k as int)),
    decreases s.len(),
{
    if k < s.len() {
        lemma_prefix_value_grows(s.drop_last(), k);
        assert(s.drop_last().subrange(0, k as int) =~= s.subrange(0, k as int));
        lemma_digits_value_nonneg(s.drop_last());
    } else {
        assert(s.subrange(0, k as int) =~= s);
    }
}

/// The lines of `s`: the text between line breaks, one more line than there are
/// line breaks.
pub open spec fn lines_spec(s: Seq<u8>) -> Seq<Seq<u8>>
    decreases s.len(),
{
    if s.len() == 0 {
        seq![Seq::empty()]
    } else {
        let rest = lines_spec(s.drop_last());
        if s.last() == NEWLINE {
            rest.push(Seq::empty())
        } else {
            rest.update(rest.len() - 1, rest.last().push(s.last()))
        }
    }
}

/// Splits text into lines at each line break.
pub fn split_lines(s: &[u8]) -> (r: Vec<Vec<u8>>)
    ensures
        Seq::new(r@.len(), |i: int| r@[i]@) == lines_spec(s@),
        r@.len() >= 1,
{
    let mut lines: Vec<Vec<u8>> = Vec::new();
    let mut cur: Vec<u8> = Vec::new();
    let mut i: usize = 0;
    assert(s@.subrange(0, 0) =~= Seq::<u8>::empty());
    assert(Seq::new(lines@.len(), |k: int| lines@[k]@).push(cur@) =~= lines_spec(s@.subrange(0, 0)));
    while i < s.len()
        invariant
            i <= s@.len(),
            Seq::new(lines@.len(), |k: int| lines@[k]@).push(cur@) == lines_spec(s@.subrange(0, i as int)),
        decreases s@.len() - i,
    {
        let ghost before = Seq::new(lines@.len(), |k: int| lines@[k]@);
        let ghost old_cur = cur@;
        let b = s[i];
        assert(s@.subrange(0, i + 1).drop_last() =~= s@.subrange(0, i as int));
        if b == NEWLINE {
            lines.push(cur);
            cur = Vec::new();
            assert(Seq::new(lines@.len(), |k: int| lines@[k]@) =~= before.push(old_cur));
            assert(Seq::new(lines@.len(), |k: int| lines@[k]@).push(cur@) =~= lines_spec(s@.subrange(0, i + 1)));
        } else {
            cur.push(b);
            assert(before.push(cur@) =~= before.push(old_cur).update(before.len() as int, old_cur.push(b)));
        }
        i += 1;
    }
    lines.push(cur);
    assert(s@.subrange(0, s@.len() as int) =~= s@);
    lines
}

/// A decimal number with an optional leading `+` or `-`, when it fits in 32 bits.
pub open spec fn signed_number_of(s: Seq<u8>) -> Option<i32> {
    if s.len() > 0 && (s[0] == 43 || s[0] == 45) {
        match number_of(s.drop_first()) {
            Some(v) => {
                let value = if s[0] == 45 {
                    -(v as int)
                } else {
                    v as int
                };
                if i32::MIN <= value <= i32::MAX {
                    Some(value as i32)
                } else {
                    None
                }
            },
            None => None,
        }
    } else {
        match number_of(s) {
            Some(v) => if v <= i32::MAX {
                Some(v as i32)
            } else {
                None
            },
            None => None,
        }
    }
}

/// Reads `s[start..end]` as a decimal number with an optional sign.
pub fn parse_i32(s: &[u8], start: usize, end: usize) -> (r: Option<i32>)
    requires
        start <= end <= s@.len(),
    ensures
        r == signed_number_of(s@.subrange(start as int, end as int)),
{
    let ghost t = s@.subrange(start as int, end as int);
    if start < end && (s[start] == 43 || s[start] == 45) {
        assert(t.drop_first() =~= s@.subrange(start + 1, end as int));
        let negative = s[start] == 45;
        match parse_u64(s, start + 1, end) {
            Some(v) => {
                if negative {
                    if v <= 2147483648 {
                        Some((0 - (v as i64)) as i32)
                    } else {
                        None
                    }
                } else if v <= 2147483647 {
                    Some(v as i32)
                } else {
                    None
                }
            },
            None => None,
        }
    } else {
        match parse_u64(s, start, end) {
            Some(v) => if v <= 2147483647 {
                Some(v as i32)
            } else {
                None
            },
            None => None,
        }
    }
}

/// Each non-empty line read by `f`, in order; `None` when `f` rejects one of them.
pub open spec fn parse_lines<T>(lines: Seq<Seq<u8>>, f: spec_fn(Seq<u8>) -> Option<T>) -> Option<Seq<T>>
    decreases lines.len(),
{
    if lines.len() == 0 {
        Some(Seq::empty())
    } else {
        match parse_lines(lines.drop_last(), f) {
            None => None,
            Some(done) => if lines.last().len() == 0 {
                Some(done)
            } else {
                match f(lines.last()) {
                    None => None,
                    Some(v) => Some(done.push(v)),
                }
            },
        }
    }
}

/// A rejected line rejects the whole text.
pub proof fn lemma_parse_lines_prefix<T>(lines: Seq<Seq<u8>>, f: spec_fn(Seq<u8>) -> Option<T>, k: int)
    requires
        0 <= k <= lines.len(),
        parse_lines(lines.subrange(0, k), f) is None,
    ensures
        parse_lines(lines, f) is None,
    decreases lines.len(),
{
    if k < lines.len() {
        assert(lines.drop_last().subrange(0, k) =~= lines.subrange(0, k));
        lemma_parse_lines_prefix(lines.drop_last(), f, k);
    } else {
        assert(lines.subrange(0, k) =~= lines);
    }
}

/// One step of `parse_lines` over the first `i + 1` lines.
pub proof fn lemma_parse_lines_step<T>(lines: Seq<Seq<u8>>, f: spec_fn(Seq<u8>) -> Option<T>, i: int)
    requires
        0 <= i < lines.len(),
    ensures
        parse_lines(lines.subrange(0, i + 1), f) == match parse_lines(lines.subrange(0, i), f) {
            None => None,
            Some(done) => if lines[i].len() == 0 {
                Some(done)
            } else {
                match f(lines[i]) {
                    None => None,
                    Some(v) => Some(done.push(v)),
                }
            },
        },
{
    assert(lines.subrange(0, i + 1).drop_last() =~= lines.subrange(0, i));
}

} // verus!
