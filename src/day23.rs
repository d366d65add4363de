//! Crab cups: nine labelled cups in a circle; each move lifts the three cups after
//! the current one and sets them down after the destination cup.

use vstd::prelude::*;
use vstd::string::StringSliceAdditionalSpecFns;

verus! {

/// The circle, read clockwise from the current cup.
pub struct Game {
    pub cups: Vec<u32>,
}

/// Labels 1 to 9, each once.
pub open spec fn circle_ok(s: Seq<u32>) -> bool {
    &&& s.len() == 9
    &&& forall|i: int| 0 <= i < 9 ==> 1 <= #[trigger] s[i] <= 9
    &&& s.no_duplicates()
    &&& forall|l: u32| 1 <= l <= 9 ==> #[trigger] s.contains(l)
}

/// The label below `c`, wrapping from 1 to 9.
pub open spec fn below(c: u32) -> u32 {
    if c <= 1 {
        9
    } else {
        (c - 1) as u32
    }
}

/// The destination: the first label below `c` (wrapping) not among `picked`.
pub open spec fn destination(c: u32, picked: Seq<u32>) -> u32 {
    let d1 = below(c);
    let d2 = below(d1);
    let d3 = below(d2);
    let d4 = below(d3);
    if !picked.contains(d1) {
        d1
    } else if !picked.contains(d2) {
        d2
    } else if !picked.contains(d3) {
        d3
    } else {
        d4
    }
}

/// One move: the three cups after the current one are set down right after the
/// destination cup, and the cup after the current one becomes current.
pub open spec fn move_spec(s: Seq<u32>) -> Seq<u32> {
    let picked = s.subrange(1, 4);
    let rest = seq![s[0]] + s.subrange(4, 9);
    let d = destination(s[0], picked);
    let di = choose|i: int| 0 <= i < rest.len() && rest[i] == d;
    let arranged = rest.subrange(0, di + 1) + picked + rest.subrange(di + 1, rest.len() as int);
    arranged.subrange(1, 9).push(s[0])
}

impl Game {
    /// Plays one move.
    #[verifier::rlimit(100)]
    pub fn do_move(&mut self)
        requires
            circle_ok(old(self).cups@),
        ensures
            final(self).cups@ == move_spec(old(self).cups@),
    {
        let ghost s = self.cups@;
        let c = self.cups[0];
        let (p1, p2, p3) = (self.cups[1], self.cups[2], self.cups[3]);
        let ghost picked = s.subrange(1, 4);
        assert(picked =~= seq![p1, p2, p3]);
        let mut rest: Vec<u32> = Vec::new();
        rest.push(c);
        let mut i: usize = 4;
        while i < 9
            invariant
                self.cups@ == s,
                s.len() == 9,
                4 <= i <= 9,
                rest@ == seq![s[0]] + s.subrange(4, i as int),
            decreases 9 - i,
        {
            rest.push(self.cups[i]);
            i += 1;
            assert(rest@ =~= seq![s[0]] + s.subrange(4, i as int));
        }
        let mut d = if c <= 1 {
            9
        } else {
            c - 1
        };
        let mut tries: usize = 0;
        while (d == p1 || d == p2 || d == p3) && tries < 3
            invariant
                tries <= 3,
                1 <= d <= 9,
                picked =~= seq![p1, p2, p3],
                tries == 0 ==> d == below(c),
                tries == 1 ==> d == below(below(c)) && picked.contains(below(c)),
                tries == 2 ==> d == below(below(below(c))) && picked.contains(below(c)) && picked.contains(
                    below(below(c)),
                ),
                tries == 3 ==> d == below(below(below(below(c)))) && picked.contains(below(c))
                    && picked.contains(below(below(c))) && picked.contains(below(below(below(c)))),
            decreases 3 - tries,
        {
            assert(picked[0] == p1 && picked[1] == p2 && picked[2] == p3);
            d = if d <= 1 {
                9
            } else {
                d - 1
            };
            tries += 1;
        }
        proof {
            assert(picked[0] == p1 && picked[1] == p2 && picked[2] == p3);
            assert(p1 != p2 && p1 != p3 && p2 != p3) by {
                assert(s[1] != s[2] && s[1] != s[3] && s[2] != s[3]);
            }
            assert(1 <= c <= 9);
            assert(d != c);
            if !(d == p1 || d == p2 || d == p3) {
                assert(!picked.contains(d)) by {
                    if picked.contains(d) {
                        let k = choose|k: int| 0 <= k < 3 && picked[k] == d;
                    }
                }
            }
            assert(d == destination(c, picked));
            assert(!picked.contains(d)) by {
                if picked.contains(d) {
                    let k = choose|k: int| 0 <= k < 3 && picked[k] == d;
                    assert(d == p1 || d == p2 || d == p3);
                    let b1 = below(c);
                    let b2 = below(b1);
                    let b3 = below(b2);
                    assert(picked.contains(b1) && picked.contains(b2) && picked.contains(b3));
                    let k1 = choose|k: int| 0 <= k < 3 && picked[k] == b1;
                    let k2 = choose|k: int| 0 <= k < 3 && picked[k] == b2;
                    let k3 = choose|k: int| 0 <= k < 3 && picked[k] == b3;
                    assert(b1 != b2 && b1 != b3 && b2 != b3 && d != b1 && d != b2 && d != b3);
                }
            }
        }
        // the destination is a label, not picked up, so it is among the rest
        let mut di: usize = 0;
        while di < rest.len() && rest[di] != d
            invariant
                di <= rest@.len(),
                forall|k: int| 0 <= k < di ==> rest@[k] != d,
            decreases rest@.len() - di,
        {
            di += 1;
        }
        if di == rest.len() {
            proof {
                lemma_destination_in_rest(s, d);
                assert(rest@ == seq![s[0]] + s.subrange(4, 9));
            }
            assert(false);
            return;
        }
        let ghost chosen = choose|i: int| 0 <= i < rest@.len() && rest@[i] == d;
        proof {
            lemma_rest_distinct(s);
            assert(chosen == di);
        }
        let mut out: Vec<u32> = Vec::new();
        let mut k: usize = 1;
        while k <= di
            invariant
                rest@.len() == 6,
                di < 6,
                1 <= k <= di + 1,
                out@ == rest@.subrange(1, k as int),
            decreases di + 1 - k,
        {
            out.push(rest[k]);
            k += 1;
            assert(out@ =~= rest@.subrange(1, k as int));
        }
        out.push(p1);
        out.push(p2);
        out.push(p3);
        let mut k: usize = di + 1;
        let ghost mid = out@;
        while k < 6
            invariant
                rest@.len() == 6,
                di + 1 <= k <= 6,
                out@ == mid + rest@.subrange(di + 1, k as int),
            decreases 6 - k,
        {
            out.push(rest[k]);
            k += 1;
            assert(out@ =~= mid + rest@.subrange(di + 1, k as int));
        }
        out.push(c);
        proof {
            let arranged = rest@.subrange(0, di + 1) + picked + rest@.subrange(di + 1, 6);
            assert(out@ =~= arranged.subrange(1, 9).push(s[0]));
        }
        self.cups = out;
    }
}

proof fn lemma_destination_in_rest(s: Seq<u32>, d: u32)
    requires
        circle_ok(s),
        1 <= d <= 9,
        d != s[0],
        !s.subrange(1, 4).contains(d),
    ensures
        (seq![s[0]] + s.subrange(4, 9)).contains(d),
{
    assert(s.contains(d));
    let i = choose|i: int| 0 <= i < 9 && s[i] == d;
    if 1 <= i < 4 {
        assert(s.subrange(1, 4)[i - 1] == d);
    }
    assert((seq![s[0]] + s.subrange(4, 9))[i - 3] == d);
}

proof fn lemma_rest_distinct(s: Seq<u32>)
    requires
        circle_ok(s),
    ensures
        (seq![s[0]] + s.subrange(4, 9)).no_duplicates(),
{
    let r = seq![s[0]] + s.subrange(4, 9);
    assert forall|a: int, b: int| 0 <= a < r.len() && 0 <= b < r.len() && a != b implies r[a] != r[b] by {
        let a1 = if a == 0 { 0 } else { a + 3 };
        let b1 = if b == 0 { 0 } else { b + 3 };
        assert(r[a] == s[a1] && r[b] == s[b1]);
    }
}

/// `k` moves.
pub open spec fn moves(s: Seq<u32>, k: nat) -> Seq<u32>
    decreases k,
{
    if k == 0 {
        s
    } else {
        moves(move_spec(s), (k - 1) as nat)
    }
}

/// The labels clockwise after the cup at `i`, read as a decimal number.
pub open spec fn digits_after(s: Seq<u32>, i: int, n: nat) -> int
    decreases n,
{
    if n == 0 {
        0
    } else {
        digits_after(s, i, (n - 1) as nat) * 10 + s[(i + n) % 9]
    }
}

/// Whether the cups hold the labels 1 to 9, each once.
pub fn is_circle(cups: &Vec<u32>) -> (r: bool)
    ensures
        r == circle_ok(cups@),
{
    if cups.len() != 9 {
        return false;
    }
    let mut seen: Vec<bool> = vec![false, false, false, false, false, false, false, false, false, false];
    let mut i: usize = 0;
    while i < 9
        invariant
            cups@.len() == 9,
            seen@.len() == 10,
            i <= 9,
            forall|k: int| 0 <= k < i ==> 1 <= #[trigger] cups@[k] <= 9,
            forall|a: int, b: int| 0 <= a < i && 0 <= b < i && a != b ==> cups@[a] != cups@[b],
            forall|l: int| 0 <= l < 10 ==> (#[trigger] seen@[l] <==> exists|k: int| 0 <= k < i && cups@[k] == l),
        decreases 9 - i,
    {
        let c = cups[i];
        if c < 1 || c > 9 {
            return false;
        }
        if seen[c as usize] {
            let ghost k = choose|k: int| 0 <= k < i && cups@[k] == c;
            assert(!cups@.no_duplicates()) by {
                assert(cups@[k] == cups@[i as int]);
            }
            return false;
        }
        seen.set(c as usize, true);
        i += 1;
    }
    proof {
        assert forall|l: u32| 1 <= l <= 9 implies #[trigger] cups@.contains(l) by {
            lemma_pigeon(cups@, l);
        }
    }
    true
}

/// Nine distinct labels from 1 to 9 include every label.
proof fn lemma_pigeon(s: Seq<u32>, l: u32)
    requires
        s.len() == 9,
        forall|k: int| 0 <= k < 9 ==> 1 <= #[trigger] s[k] <= 9,
        forall|a: int, b: int| 0 <= a < 9 && 0 <= b < 9 && a != b ==> s[a] != s[b],
        1 <= l <= 9,
    ensures
        s.contains(l),
{
    let t = s.to_set();
    s.unique_seq_to_set();
    let full = Set::new(|x: u32| 1 <= x <= 9);
    assert(t.subset_of(full));
    assert(full =~= set![1u32, 2, 3, 4, 5, 6, 7, 8, 9]);
    assert(full.len() == 9);
    if !s.contains(l) {
        assert(t.subset_of(full.remove(l)));
        vstd::set_lib::lemma_len_subset(t, full.remove(l));
    }
}

/// The cup labels written in the text: its digits in order, line breaks skipped;
/// `None` on any other byte.
pub open spec fn cup_digits(b: Seq<u8>) -> Option<Seq<u32>>
    decreases b.len(),
{
    if b.len() == 0 {
        Some(Seq::empty())
    } else {
        match cup_digits(b.drop_last()) {
            None => None,
            Some(prev) => {
                let c = b.last();
                if 48 <= c <= 57 {
                    Some(prev.push((c - 48) as u32))
                } else if c == 10 || c == 13 {
                    Some(prev)
                } else {
                    None
                }
            },
        }
    }
}

proof fn lemma_cup_digits_prefix(b: Seq<u8>, k: int)
    requires
        0 <= k <= b.len(),
        cup_digits(b.subrange(0, k)) is None,
    ensures
        cup_digits(b) is None,
    decreases b.len(),
{
    if k < b.len() {
        assert(b.drop_last().subrange(0, k) =~= b.subrange(0, k));
        lemma_cup_digits_prefix(b.drop_last(), k);
    } else {
        assert(b.subrange(0, k) =~= b);
    }
}

/// Reads the cup labels, clockwise from the current cup: nine distinct digits
/// from 1 to 9.
pub fn parser(input: &str) -> (r: Option<Game>)
    ensures
        r is Some <==> (cup_digits(input.spec_bytes()) matches Some(c) && circle_ok(c)),
        r matches Some(g) ==> cup_digits(input.spec_bytes()) == Some(g.cups@),
{
    let bytes = input.as_bytes();
    let mut cups: Vec<u32> = Vec::new();
    let mut i: usize = 0;
    assert(bytes@.subrange(0, 0) =~= Seq::<u8>::empty());
    while i < bytes.len()
        invariant
            i <= bytes@.len(),
            bytes@ == input.spec_bytes(),
            cup_digits(bytes@.subrange(0, i as int)) == Some(cups@),
        decreases bytes@.len() - i,
    {
        let b = bytes[i];
        assert(bytes@.subrange(0, i + 1).drop_last() =~= bytes@.subrange(0, i as int));
        if b >= 48 && b <= 57 {
            cups.push((b - 48) as u32);
        } else if b != 10 && b != 13 {
            proof {
                lemma_cup_digits_prefix(bytes@, i + 1);
            }
            return None;
        }
        i += 1;
    }
    assert(bytes@.subrange(0, i as int) =~= bytes@);
    if is_circle(&cups) {
        Some(Game { cups })
    } else {
        None
    }
}

/// The labels after cup 1, once a hundred moves are made, as a number.
pub fn solve_part1(input: &str) -> (r: Option<u64>)
    ensures
        r matches Some(v) ==> (cup_digits(input.spec_bytes()) matches Some(s) && circle_ok(s) && exists|i: int|
            0 <= i < 9 && #[trigger] moves(s, 100)[i] == 1 && v == digits_after(moves(s, 100), i, 8)),
{
    let mut game = match parser(input) {
        Some(g) => g,
        None => {
            return None;
        },
    };
    let ghost s = game.cups@;
    let mut k: usize = 0;
    while k < 100
        invariant
            k <= 100,
            circle_ok(s),
            game.cups@ == moves(s, k as nat),
        decreases 100 - k,
    {
        if !is_circle(&game.cups) {
            return None;
        }
        game.do_move();
        proof {
            lemma_moves_step(s, k as nat);
        }
        k += 1;
    }
    let cups = &game.cups;
    if cups.len() != 9 {
        return None;
    }
    let mut one: usize = 0;
    while one < 9 && cups[one] != 1
        invariant
            cups@.len() == 9,
            one <= 9,
        decreases 9 - one,
    {
        one += 1;
    }
    if one == 9 {
        return None;
    }
    let mut v: u64 = 0;
    let mut n: usize = 0;
    while n < 8
        invariant
            cups@.len() == 9,
            one < 9,
            n <= 8,
            v == digits_after(cups@, one as int, n as nat),
            v < pow10(n as nat),
        decreases 8 - n,
    {
        let d = cups[(one + n + 1) % 9];
        if d > 9 {
            return None;
        }
        assert(v * 10 + d < pow10((n + 1) as nat)) by (nonlinear_arith)
            requires
                v < pow10(n as nat),
                pow10((n + 1) as nat) == 10 * pow10(n as nat),
                d <= 9,
        ;
        assert(pow10((n + 1) as nat) <= 1_000_000_000) by {
            lemma_pow10_bound((n + 1) as nat);
        }
        v = v * 10 + d as u64;
        n += 1;
    }
    assert(cups@ == moves(s, 100));
    Some(v)
}

pub open spec fn pow10(n: nat) -> int
    decreases n,
{
    if n == 0 {
        1
    } else {
        10 * pow10((n - 1) as nat)
    }
}

proof fn lemma_pow10_bound(n: nat)
    requires
        n <= 9,
    ensures
        pow10(n) <= 1_000_000_000,
{
    reveal_with_fuel(pow10, 10);
}

proof fn lemma_moves_step(s: Seq<u32>, k: nat)
    ensures
        moves(s, k + 1) == move_spec(moves(s, k)),
    decreases k,
{
    if k > 0 {
        lemma_moves_step(move_spec(s), (k - 1) as nat);
    } else {
        reveal_with_fuel(moves, 2);
    }
}

} // verus!
