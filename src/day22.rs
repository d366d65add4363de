//! Crab Combat: two decks play rounds, the higher card taking both, until one
//! deck is empty; the winner's deck is scored.

use crate::text::{lines_spec, number_of, parse_u64, split_lines};
use vstd::multiset::Multiset;
use vstd::prelude::*;
use vstd::string::StringSliceAdditionalSpecFns;

verus! {

pub struct Player {
    pub deck: Vec<u64>,
}

pub struct Game {
    pub player_1: Player,
    pub player_2: Player,
}

/// One round on the two decks, top card first.
pub open spec fn round_spec(d1: Seq<u64>, d2: Seq<u64>) -> (Seq<u64>, Seq<u64>) {
    let (c1, c2) = (d1[0], d2[0]);
    if c1 > c2 {
        (d1.drop_first().push(c1).push(c2), d2.drop_first())
    } else {
        (d1.drop_first(), d2.drop_first().push(c2).push(c1))
    }
}

/// The decks after `k` rounds, stopping once a deck is empty.
pub open spec fn play(d1: Seq<u64>, d2: Seq<u64>, k: nat) -> (Seq<u64>, Seq<u64>)
    decreases k,
{
    if k == 0 || d1.len() == 0 || d2.len() == 0 {
        (d1, d2)
    } else {
        let (n1, n2) = round_spec(d1, d2);
        play(n1, n2, (k - 1) as nat)
    }
}

/// The sum of each card times its place counted from the bottom, for the first
/// `k` cards from the bottom.
pub open spec fn score_spec(deck: Seq<u64>, k: int) -> int
    decreases k,
{
    if k <= 0 {
        0
    } else {
        score_spec(deck, k - 1) + k * deck[deck.len() - k]
    }
}

impl Game {
    /// Both players show their top card; the higher card's owner puts both at
    /// the bottom of their deck, the own card first.
    pub fn round(&mut self)
        requires
            old(self).player_1.deck@.len() > 0,
            old(self).player_2.deck@.len() > 0,
        ensures
            (final(self).player_1.deck@, final(self).player_2.deck@) == round_spec(
                old(self).player_1.deck@,
                old(self).player_2.deck@,
            ),
    {
        let card_1 = self.player_1.deck.remove(0);
        let card_2 = self.player_2.deck.remove(0);
        assert(old(self).player_1.deck@.remove(0) =~= old(self).player_1.deck@.drop_first());
        assert(old(self).player_2.deck@.remove(0) =~= old(self).player_2.deck@.drop_first());
        if card_1 > card_2 {
            self.player_1.deck.push(card_1);
            self.player_1.deck.push(card_2);
        } else {
            self.player_2.deck.push(card_2);
            self.player_2.deck.push(card_1);
        }
    }

    /// Plays rounds until a deck is empty and returns the other deck; `None`
    /// when neither empties within the most rounds a 64-bit counter can count.
    pub fn run(self) -> (r: Option<Vec<u64>>)
        ensures
            r matches Some(w) ==> exists|k: nat| {
                let (a, b) = #[trigger] play(self.player_1.deck@, self.player_2.deck@, k);
                (a.len() == 0 && w@ == b) || (b.len() == 0 && w@ == a)
            },
            r matches Some(w) ==> w@.to_multiset() == self.player_1.deck@.to_multiset().add(
                self.player_2.deck@.to_multiset(),
            ),
            r is None ==> forall|k: nat|
                k < u64::MAX ==> (#[trigger] play(self.player_1.deck@, self.player_2.deck@, k)).0.len() > 0
                    && play(self.player_1.deck@, self.player_2.deck@, k).1.len() > 0,
    {
        let ghost d1 = self.player_1.deck@;
        let ghost d2 = self.player_2.deck@;
        let mut game = self;
        let mut k: u64 = 0;
        while k < u64::MAX
            invariant
                (game.player_1.deck@, game.player_2.deck@) == play(d1, d2, k as nat),
                d1 == self.player_1.deck@,
                d2 == self.player_2.deck@,
                game.player_1.deck@.to_multiset().add(game.player_2.deck@.to_multiset()) == d1.to_multiset().add(
                    d2.to_multiset(),
                ),
                forall|j: nat| j < k ==> (#[trigger] play(d1, d2, j)).0.len() > 0 && play(d1, d2, j).1.len() > 0,
            decreases u64::MAX - k,
        {
            if game.player_1.deck.len() == 0 {
                proof {
                    broadcast use vstd::seq_lib::group_to_multiset_ensures;

                    assert(game.player_1.deck@.to_multiset() =~= Multiset::empty());
                    assert(game.player_2.deck@.to_multiset() =~= d1.to_multiset().add(d2.to_multiset()));
                }
                return Some(game.player_2.deck);
            } else if game.player_2.deck.len() == 0 {
                proof {
                    broadcast use vstd::seq_lib::group_to_multiset_ensures;

                    assert(game.player_2.deck@.to_multiset() =~= Multiset::empty());
                    assert(game.player_1.deck@.to_multiset() =~= d1.to_multiset().add(d2.to_multiset()));
                }
                return Some(game.player_1.deck);
            }
            let ghost (a, b) = (game.player_1.deck@, game.player_2.deck@);
            game.round();
            proof {
                lemma_play_step(d1, d2, k as nat);
                lemma_round_conserves(a, b);
            }
            k += 1;
        }
        None
    }
}

/// A round moves cards between the decks but keeps them all.
proof fn lemma_round_conserves(a: Seq<u64>, b: Seq<u64>)
    requires
        a.len() > 0,
        b.len() > 0,
    ensures
        round_spec(a, b).0.to_multiset().add(round_spec(a, b).1.to_multiset()) == a.to_multiset().add(
            b.to_multiset(),
        ),
{
    broadcast use vstd::seq_lib::group_to_multiset_ensures;

    assert(a =~= seq![a[0]] + a.drop_first());
    assert(b =~= seq![b[0]] + b.drop_first());
    vstd::seq_lib::lemma_multiset_commutative(seq![a[0]], a.drop_first());
    vstd::seq_lib::lemma_multiset_commutative(seq![b[0]], b.drop_first());
    assert(seq![a[0]].to_multiset() =~= Multiset::empty().insert(a[0])) by {
        assert(seq![a[0]] =~= Seq::<u64>::empty().push(a[0]));
    }
    assert(seq![b[0]].to_multiset() =~= Multiset::empty().insert(b[0])) by {
        assert(seq![b[0]] =~= Seq::<u64>::empty().push(b[0]));
    }
    let (x, y) = round_spec(a, b);
    assert(x.to_multiset().add(y.to_multiset()) =~= a.to_multiset().add(b.to_multiset()));
}

proof fn lemma_play_step(d1: Seq<u64>, d2: Seq<u64>, k: nat)
    requires
        play(d1, d2, k).0.len() > 0,
        play(d1, d2, k).1.len() > 0,
    ensures
        play(d1, d2, k + 1) == round_spec(play(d1, d2, k).0, play(d1, d2, k).1),
    decreases k,
{
    if k > 0 {
        if d1.len() > 0 && d2.len() > 0 {
            let (n1, n2) = round_spec(d1, d2);
            lemma_play_step(n1, n2, (k - 1) as nat);
            assert(play(d1, d2, k + 1) == play(n1, n2, k));
        }
    } else {
        reveal_with_fuel(play, 2);
    }
}

/// The score of a deck: each card times its place counted from the bottom,
/// summed; `None` when the sum does not fit in 64 bits.
pub fn score(deck: &Vec<u64>) -> (r: Option<u64>)
    ensures
        r matches Some(v) ==> v == score_spec(deck@, deck@.len() as int),
        r is None ==> score_spec(deck@, deck@.len() as int) > u64::MAX,
{
    let n = deck.len();
    let mut sum: u64 = 0;
    let mut k: usize = 0;
    while k < n
        invariant
            n == deck@.len(),
            k <= n,
            sum == score_spec(deck@, k as int),
        decreases n - k,
    {
        let value = deck[n - 1 - k];
        let place = (k + 1) as u64;
        let term = match place.checked_mul(value) {
            Some(t) => t,
            None => {
                proof {
                    lemma_score_grows(deck@, (k + 1) as int, n as int);
                }
                return None;
            },
        };
        sum = match sum.checked_add(term) {
            Some(s) => s,
            None => {
                proof {
                    lemma_score_grows(deck@, (k + 1) as int, n as int);
                }
                return None;
            },
        };
        k += 1;
    }
    Some(sum)
}

proof fn lemma_score_grows(deck: Seq<u64>, a: int, b: int)
    requires
        0 <= a <= b <= deck.len(),
    ensures
        score_spec(deck, a) <= score_spec(deck, b),
        a > 0 ==> score_spec(deck, a) >= a * deck[deck.len() - a],
    decreases b,
{
    if b > a {
        lemma_score_grows(deck, a, b - 1);
        assert(b * deck[deck.len() - b] >= 0) by (nonlinear_arith)
            requires
                b >= 0,
                deck[deck.len() - b] >= 0,
        ;
    }
    if a > 0 {
        lemma_score_nonneg(deck, a - 1);
    }
}

proof fn lemma_score_nonneg(deck: Seq<u64>, k: int)
    requires
        k <= deck.len(),
    ensures
        score_spec(deck, k) >= 0,
    decreases k,
{
    if k > 0 {
        lemma_score_nonneg(deck, k - 1);
        assert(k * deck[deck.len() - k] >= 0) by (nonlinear_arith)
            requires
                k >= 0,
                deck[deck.len() - k] >= 0,
        ;
    }
}

/// A player's block: a header line, then one card per line.
pub fn parse_player(lines: &Vec<Vec<u8>>, start: usize, end: usize) -> (r: Option<Player>)
    requires
        start < end <= lines@.len(),
    ensures
        r matches Some(p) ==> p.deck@.len() == end - start - 1 && forall|k: int|
            0 <= k < p.deck@.len() ==> number_of(lines@[start + 1 + k]@) == Some(#[trigger] p.deck@[k]),
{
    let mut deck: Vec<u64> = Vec::new();
    let mut i = start + 1;
    while i < end
        invariant
            start < end <= lines@.len(),
            start + 1 <= i <= end || i == start + 1,
            deck@.len() == i - start - 1,
            forall|k: int| 0 <= k < deck@.len() ==> number_of(lines@[start + 1 + k]@) == Some(#[trigger] deck@[k]),
        decreases end - i,
    {
        assert(lines@[i as int]@.subrange(0, lines@[i as int]@.len() as int) =~= lines@[i as int]@);
        match parse_u64(lines[i].as_slice(), 0, lines[i].len()) {
            Some(v) => deck.push(v),
            None => {
                return None;
            },
        }
        i += 1;
    }
    Some(Player { deck })
}

/// Two blocks separated by an empty line: player 1's deck, then player 2's.
pub fn parser(input: &str) -> (r: Option<Game>)
{
    let lines = split_lines(input.as_bytes());
    let mut blank: usize = 0;
    while blank < lines.len() && lines[blank].len() > 0
        invariant
            blank <= lines@.len(),
        decreases lines@.len() - blank,
    {
        blank += 1;
    }
    if blank == 0 || blank >= lines.len() {
        return None;
    }
    let mut end = lines.len();
    while end > blank + 1 && lines[end - 1].len() == 0
        invariant
            blank + 1 <= end <= lines@.len(),
        decreases end,
    {
        end -= 1;
    }
    if end <= blank + 1 {
        return None;
    }
    let player_1 = match parse_player(&lines, 0, blank) {
        Some(p) => p,
        None => {
            return None;
        },
    };
    let player_2 = match parse_player(&lines, blank + 1, end) {
        Some(p) => p,
        None => {
            return None;
        },
    };
    Some(Game { player_1, player_2 })
}

/// The winning deck's score.
pub fn solve_part1(input: &str) -> (r: Option<u64>)
{
    let game = match parser(input) {
        Some(g) => g,
        None => {
            return None;
        },
    };
    let winner = match game.run() {
        Some(w) => w,
        None => {
            return None;
        },
    };
    score(&winner)
}

/// Who won a game of Recursive Combat.
#[derive(Clone, Copy, PartialEq, Eq, Debug, Structural)]
pub enum Winner {
    Player1,
    Player2,
}

/// A game of Recursive Combat, with the deck pairs already seen in it.
pub struct RecursiveGame {
    pub cache: Vec<(Vec<u64>, Vec<u64>)>,
    pub player_1: Player,
    pub player_2: Player,
}

/// All the cards of both decks.
pub open spec fn cards(g: &RecursiveGame) -> Multiset<u64> {
    g.player_1.deck@.to_multiset().add(g.player_2.deck@.to_multiset())
}

fn same_deck(a: &Vec<u64>, b: &Vec<u64>) -> (r: bool)
    ensures
        r == (a@ == b@),
{
    if a.len() != b.len() {
        return false;
    }
    let mut i: usize = 0;
    while i < a.len()
        invariant
            a@.len() == b@.len(),
            i <= a@.len(),
            forall|k: int| 0 <= k < i ==> a@[k] == b@[k],
        decreases a@.len() - i,
    {
        if a[i] != b[i] {
            return false;
        }
        i += 1;
    }
    assert(a@ =~= b@);
    true
}

/// The first `n` cards of a deck.
fn take(d: &Vec<u64>, n: usize) -> (r: Vec<u64>)
    requires
        n <= d@.len(),
    ensures
        r@ == d@.subrange(0, n as int),
{
    let mut out: Vec<u64> = Vec::new();
    let mut i: usize = 0;
    while i < n
        invariant
            n <= d@.len(),
            i <= n,
            out@ == d@.subrange(0, i as int),
        decreases n - i,
    {
        out.push(d[i]);
        i += 1;
        assert(out@ =~= d@.subrange(0, i as int));
    }
    out
}

proof fn lemma_move_pair(a: Seq<u64>, b: Seq<u64>, to_first: bool)
    requires
        a.len() > 0,
        b.len() > 0,
    ensures
        ({
            let (x, y) = if to_first {
                (a.drop_first().push(a[0]).push(b[0]), b.drop_first())
            } else {
                (a.drop_first(), b.drop_first().push(b[0]).push(a[0]))
            };
            x.to_multiset().add(y.to_multiset()) == a.to_multiset().add(b.to_multiset())
        }),
{
    broadcast use vstd::seq_lib::group_to_multiset_ensures;

    assert(a =~= seq![a[0]] + a.drop_first());
    assert(b =~= seq![b[0]] + b.drop_first());
    vstd::seq_lib::lemma_multiset_commutative(seq![a[0]], a.drop_first());
    vstd::seq_lib::lemma_multiset_commutative(seq![b[0]], b.drop_first());
    assert(seq![a[0]].to_multiset() =~= Multiset::empty().insert(a[0])) by {
        assert(seq![a[0]] =~= Seq::<u64>::empty().push(a[0]));
    }
    assert(seq![b[0]].to_multiset() =~= Multiset::empty().insert(b[0])) by {
        assert(seq![b[0]] =~= Seq::<u64>::empty().push(b[0]));
    }
    let (x, y) = if to_first {
        (a.drop_first().push(a[0]).push(b[0]), b.drop_first())
    } else {
        (a.drop_first(), b.drop_first().push(b[0]).push(a[0]))
    };
    assert(x.to_multiset().add(y.to_multiset()) =~= a.to_multiset().add(b.to_multiset()));
}

impl RecursiveGame {
    /// Whether the current pair of decks was seen before in this game.
    pub fn seen(&self) -> (r: bool)
        ensures
            r == exists|k: int|
                0 <= k < self.cache@.len() && self.cache@[k].0@ == self.player_1.deck@
                    && #[trigger] self.cache@[k].1@ == self.player_2.deck@,
    {
        let mut k: usize = 0;
        while k < self.cache.len()
            invariant
                k <= self.cache@.len(),
                forall|j: int|
                    0 <= j < k ==> !(self.cache@[j].0@ == self.player_1.deck@
                        && #[trigger] self.cache@[j].1@ == self.player_2.deck@),
            decreases self.cache@.len() - k,
        {
            if same_deck(&self.cache[k].0, &self.player_1.deck) && same_deck(
                &self.cache[k].1,
                &self.player_2.deck,
            ) {
                return true;
            }
            k += 1;
        }
        false
    }

    /// One round: when both players hold at least as many cards as the card they
    /// drew, a sub-game on copies of that many cards decides; otherwise the
    /// higher card. The winner puts their card, then the other, at the bottom.
    /// `None` when a sub-game does not end within the round limit.
    pub fn round(&mut self) -> (r: Option<()>)
        requires
            old(self).player_1.deck@.len() > 0,
            old(self).player_2.deck@.len() > 0,
        ensures
            r is Some ==> cards(final(self)) == cards(old(self)),
            final(self).cache@ == old(self).cache@,
        decreases cards(old(self)).len(), 0nat,
    {
        let ghost a = self.player_1.deck@;
        let ghost b = self.player_2.deck@;
        let card_1 = self.player_1.deck.remove(0);
        let card_2 = self.player_2.deck.remove(0);
        assert(a.remove(0) =~= a.drop_first());
        assert(b.remove(0) =~= b.drop_first());
        let winner = if self.player_1.deck.len() as u64 >= card_1 && self.player_2.deck.len() as u64
            >= card_2 {
            let deck_1 = take(&self.player_1.deck, card_1 as usize);
            let deck_2 = take(&self.player_2.deck, card_2 as usize);
            let mut sub_game = RecursiveGame {
                cache: Vec::new(),
                player_1: Player { deck: deck_1 },
                player_2: Player { deck: deck_2 },
            };
            proof {
                broadcast use vstd::seq_lib::group_to_multiset_ensures;

                assert(cards(&sub_game).len() < cards(old(self)).len());
            }
            match sub_game.run() {
                Some(w) => w,
                None => {
                    return None;
                },
            }
        } else if card_1 > card_2 {
            Winner::Player1
        } else {
            Winner::Player2
        };
        match winner {
            Winner::Player1 => {
                self.player_1.deck.push(card_1);
                self.player_1.deck.push(card_2);
            },
            Winner::Player2 => {
                self.player_2.deck.push(card_2);
                self.player_2.deck.push(card_1);
            },
        }
        proof {
            lemma_move_pair(a, b, winner == Winner::Player1);
        }
        Some(())
    }

    /// Plays until a pair of decks repeats (player 1 wins) or a deck empties;
    /// `None` when that takes more than the most rounds a 64-bit counter can count.
    pub fn run(&mut self) -> (r: Option<Winner>)
        ensures
            r is Some ==> cards(final(self)) == cards(old(self)),
            r == Some(Winner::Player2) ==> final(self).player_1.deck@.len() == 0,
        decreases cards(old(self)).len(), 1nat,
    {
        let ghost total = cards(self);
        let mut k: u64 = 0;
        while k < u64::MAX
            invariant
                cards(self) == total,
                total == cards(old(self)),
            decreases u64::MAX - k,
        {
            if self.player_1.deck.len() == 0 || self.player_2.deck.len() == 0 {
                if self.player_1.deck.len() == 0 {
                    return Some(Winner::Player2);
                }
                return Some(Winner::Player1);
            }
            if self.seen() {
                return Some(Winner::Player1);
            }
            let key = (copy_deck(&self.player_1.deck), copy_deck(&self.player_2.deck));
            self.cache.push(key);
            match self.round() {
                Some(()) => {},
                None => {
                    return None;
                },
            }
            if self.player_1.deck.len() == 0 {
                return Some(Winner::Player2);
            } else if self.player_2.deck.len() == 0 {
                return Some(Winner::Player1);
            }
            k += 1;
        }
        None
    }
}

fn copy_deck(d: &Vec<u64>) -> (r: Vec<u64>)
    ensures
        r@ == d@,
{
    take(d, d.len())
}

/// The winning deck's score in Recursive Combat; `None` on malformed input, a
/// game past the round limit, or a score past 64 bits.
pub fn solve_part2(input: &str) -> (r: Option<u64>)
{
    let start = match parser(input) {
        Some(g) => g,
        None => {
            return None;
        },
    };
    let mut game = RecursiveGame { cache: Vec::new(), player_1: start.player_1, player_2: start.player_2 };
    let winner = match game.run() {
        Some(w) => w,
        None => {
            return None;
        },
    };
    match winner {
        Winner::Player1 => score(&game.player_1.deck),
        Winner::Player2 => score(&game.player_2.deck),
    }
}

} // verus!
