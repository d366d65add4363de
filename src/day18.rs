//! Operation order: sums and products of numbers with parentheses, evaluated left
//! to right with equal precedence, or with addition binding tighter.

use crate::text::split_lines;
use vstd::prelude::*;

verus! {

pub enum Expr {
    Value(u64),
    Sum(Box<Expr>, Box<Expr>),
    Product(Box<Expr>, Box<Expr>),
}

pub open spec fn value_spec(e: Expr) -> int
    decreases e,
{
    match e {
        Expr::Value(n) => n as int,
        Expr::Sum(l, r) => value_spec(*l) + value_spec(*r),
        Expr::Product(l, r) => value_spec(*l) * value_spec(*r),
    }
}

/// Every value met while evaluating `e` fits in 64 bits.
pub open spec fn fits(e: Expr) -> bool
    decreases e,
{
    match e {
        Expr::Value(_) => true,
        Expr::Sum(l, r) => fits(*l) && fits(*r) && value_spec(*l) + value_spec(*r) <= u64::MAX,
        Expr::Product(l, r) => fits(*l) && fits(*r) && value_spec(*l) * value_spec(*r) <= u64::MAX,
    }
}

proof fn lemma_value_nonneg(e: Expr)
    ensures
        value_spec(e) >= 0,
    decreases e,
{
    match e {
        Expr::Value(_) => {},
        Expr::Sum(l, r) => {
            lemma_value_nonneg(*l);
            lemma_value_nonneg(*r);
        },
        Expr::Product(l, r) => {
            lemma_value_nonneg(*l);
            lemma_value_nonneg(*r);
            assert(value_spec(*l) * value_spec(*r) >= 0) by (nonlinear_arith)
                requires
                    value_spec(*l) >= 0,
                    value_spec(*r) >= 0,
            ;
        },
    }
}

impl Expr {
    /// The value of the expression; `None` when a value met on the way does not
    /// fit in 64 bits.
    pub fn value(&self) -> (r: Option<u64>)
        ensures
            r is Some <==> fits(*self),
            r matches Some(v) ==> v == value_spec(*self),
        decreases self,
    {
        match self {
            Expr::Value(num) => Some(*num),
            Expr::Sum(lhs, rhs) => {
                let a = match lhs.value() {
                    Some(a) => a,
                    None => {
                        return None;
                    },
                };
                let b = match rhs.value() {
                    Some(b) => b,
                    None => {
                        return None;
                    },
                };
                a.checked_add(b)
            },
            Expr::Product(lhs, rhs) => {
                let a = match lhs.value() {
                    Some(a) => a,
                    None => {
                        return None;
                    },
                };
                let b = match rhs.value() {
                    Some(b) => b,
                    None => {
                        return None;
                    },
                };
                a.checked_mul(b)
            },
        }
    }
}

/// Whether `s[pos..]` starts with the operator `op` between two spaces.
fn op_at(s: &Vec<u8>, pos: usize, op: u8) -> (r: bool)
    requires
        pos <= s@.len(),
    ensures
        r ==> pos + 3 <= s@.len() && s@[pos as int] == 32 && s@[pos + 1] == op && s@[pos + 2] == 32,
{
    s.len() - pos >= 3 && s[pos] == 32 && s[pos + 1] == op && s[pos + 2] == 32
}

/// A run of decimal digits at `pos`: its value and where it ends.
fn number(s: &Vec<u8>, pos: usize) -> (r: Option<(Expr, usize)>)
    requires
        pos <= s@.len(),
    ensures
        r matches Some((_, end)) ==> pos < end <= s@.len(),
{
    let mut end = pos;
    let mut value: u64 = 0;
    while end < s.len() && s[end] >= 48 && s[end] <= 57
        invariant
            pos <= end <= s@.len(),
        decreases s@.len() - end,
    {
        let d = (s[end] - 48) as u64;
        if value > (u64::MAX - d) / 10 {
            return None;
        }
        value = value * 10 + d;
        end += 1;
    }
    if end == pos {
        None
    } else {
        Some((Expr::Value(value), end))
    }
}

/// A number or a parenthesised expression at `pos`, read with the rules of
/// `plus_first`.
fn term(s: &Vec<u8>, pos: usize, plus_first: bool) -> (r: Option<(Expr, usize)>)
    requires
        pos <= s@.len(),
    ensures
        r matches Some((_, end)) ==> pos < end <= s@.len(),
    decreases s@.len() - pos, 1nat,
{
    if pos < s.len() && s[pos] == 40 {
        let (e, end) = match expression(s, pos + 1, plus_first) {
            Some(x) => x,
            None => {
                return None;
            },
        };
        if end < s.len() && s[end] == 41 {
            Some((e, end + 1))
        } else {
            None
        }
    } else {
        number(s, pos)
    }
}

/// Terms joined by ` + ` (when `plus_first`, the factors of a product).
fn factor(s: &Vec<u8>, pos: usize, plus_first: bool) -> (r: Option<(Expr, usize)>)
    requires
        pos <= s@.len(),
    ensures
        r matches Some((_, end)) ==> pos < end <= s@.len(),
    decreases s@.len() - pos, 2nat,
{
    let (mut acc, mut at) = match term(s, pos, plus_first) {
        Some(x) => x,
        None => {
            return None;
        },
    };
    while at < s.len() && op_at(s, at, 43)
        invariant
            pos < at <= s@.len(),
        decreases s@.len() - at,
    {
        let (rhs, end) = match term(s, at + 3, plus_first) {
            Some(x) => x,
            None => {
                return None;
            },
        };
        acc = Expr::Sum(Box::new(acc), Box::new(rhs));
        at = end;
    }
    Some((acc, at))
}

/// An expression at `pos`: with `plus_first`, factors joined by ` * `; otherwise
/// terms joined by ` + ` or ` * `, grouped from the left.
fn expression(s: &Vec<u8>, pos: usize, plus_first: bool) -> (r: Option<(Expr, usize)>)
    requires
        pos <= s@.len(),
    ensures
        r matches Some((_, end)) ==> pos < end <= s@.len(),
    decreases s@.len() - pos, 3nat,
{
    let first = if plus_first {
        factor(s, pos, plus_first)
    } else {
        term(s, pos, plus_first)
    };
    let (mut acc, mut at) = match first {
        Some(x) => x,
        None => {
            return None;
        },
    };
    loop
        invariant
            pos < at <= s@.len(),
        decreases s@.len() - at,
    {
        let add = !plus_first && at < s.len() && op_at(s, at, 43);
        let mul = !add && at < s.len() && op_at(s, at, 42);
        if !add && !mul {
            break;
        }
        let next = if plus_first {
            factor(s, at + 3, plus_first)
        } else {
            term(s, at + 3, plus_first)
        };
        let (rhs, end) = match next {
            Some(x) => x,
            None => {
                return None;
            },
        };
        acc = if add {
            Expr::Sum(Box::new(acc), Box::new(rhs))
        } else {
            Expr::Product(Box::new(acc), Box::new(rhs))
        };
        at = end;
    }
    Some((acc, at))
}

/// Reads a whole line as one expression.
pub fn parse_line(line: &Vec<u8>, plus_first: bool) -> (r: Option<Expr>)
{
    match expression(line, 0, plus_first) {
        Some((e, end)) => if end == line.len() {
            Some(e)
        } else {
            None
        },
        None => None,
    }
}

fn sum_lines(input: &str, plus_first: bool) -> (r: Option<u64>)
{
    let lines = split_lines(input.as_bytes());
    let mut total: u64 = 0;
    let mut i: usize = 0;
    while i < lines.len()
        invariant
            i <= lines@.len(),
        decreases lines@.len() - i,
    {
        if lines[i].len() > 0 {
            let e = match parse_line(&lines[i], plus_first) {
                Some(e) => e,
                None => {
                    return None;
                },
            };
            let v = match e.value() {
                Some(v) => v,
                None => {
                    return None;
                },
            };
            total = match total.checked_add(v) {
                Some(t) => t,
                None => {
                    return None;
                },
            };
        }
        i += 1;
    }
    Some(total)
}

/// The sum of the lines' values, operators applied left to right.
pub fn solve_part1(input: &str) -> (r: Option<u64>)
{
    sum_lines(input, false)
}

/// The sum of the lines' values, additions before multiplications.
pub fn solve_part2(input: &str) -> (r: Option<u64>)
{
    sum_lines(input, true)
}

} // verus!
