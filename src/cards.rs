//! Acey-deucey: a deck of ranked cards, and the rule that a hand wins when
//! its third card ranks strictly between the first two.

use rand::seq::SliceRandom;
use vstd::prelude::*;

verus! {

/// A card; only its rank counts (2 to 15, where 11 to 14 are Jack, Queen,
/// King and Ace).
#[derive(Debug, Clone, Copy, PartialEq, Eq, Structural, PartialOrd)]
pub struct Card {
    pub rank: u8,
}

/// The cards of a fresh deck: four of each rank from 2 to 15, rank by rank.
pub open spec fn full_deck() -> Seq<Card> {
    Seq::new(56, |i: int| Card { rank: (2 + i / 4) as u8 })
}

/// Relies on rand::seq::SliceRandom::shuffle (rand 0.7) with the
/// thread-local generator: the cards are put in some order, none added or
/// lost.
#[verifier::external_body]
fn shuffle(cards: &mut Vec<Card>)
    ensures
        final(cards)@.to_multiset() == old(cards)@.to_multiset(),
{
    cards.shuffle(&mut rand::thread_rng())
}

/// A deck to deal from; the top card is the last one.
pub struct Deck {
    pub cards: Vec<Card>,
}

impl Deck {
    /// An empty deck.
    pub fn new() -> (r: Self)
        ensures
            r.cards@ == Seq::<Card>::empty(),
    {
        Deck { cards: Vec::new() }
    }

    /// Gathers a fresh deck and shuffles it.
    pub fn reset(&mut self)
        ensures
            final(self).cards@.len() == 56,
            final(self).cards@.to_multiset() == full_deck().to_multiset(),
    {
        self.cards.truncate(0);
        let mut r: u8 = 2;
        while r <= 15
            invariant
                2 <= r <= 16,
                self.cards@ == full_deck().subrange(0, 4 * (r - 2)),
            decreases 16 - r,
        {
            let mut s: u8 = 1;
            while s <= 4
                invariant
                    2 <= r <= 15,
                    1 <= s <= 5,
                    self.cards@ == full_deck().subrange(0, 4 * (r - 2) + s - 1),
                decreases 5 - s,
            {
                self.cards.push(Card { rank: r });
                proof {
                    let k = 4 * (r - 2) + s - 1;
                    assert(full_deck()[k] == Card { rank: r }) by {
                        assert(k / 4 == r - 2);
                    }
                    assert(self.cards@ =~= full_deck().subrange(0, k + 1));
                }
                s += 1;
            }
            r += 1;
        }
        assert(self.cards@ =~= full_deck());
        shuffle(&mut self.cards);
        proof {
            broadcast use vstd::seq_lib::group_to_multiset_ensures;

            assert(self.cards@.len() == self.cards@.to_multiset().len());
            assert(full_deck().len() == full_deck().to_multiset().len());
        }
    }

    /// Deals three cards from the top, after gathering a fresh deck where
    /// fewer than ten are left.
    pub fn hand(&mut self) -> (r: [Card; 3])
        ensures
            old(self).cards@.len() >= 10 ==> final(self).cards@ == old(self).cards@.subrange(
                0,
                old(self).cards@.len() - 3,
            ),
            old(self).cards@.len() < 10 ==> final(self).cards@.len() == 53
                && final(self).cards@.to_multiset().add(r@.to_multiset())
                == full_deck().to_multiset(),
            old(self).cards@.len() >= 10 ==> r@ == seq![
                old(self).cards@.last(),
                old(self).cards@[old(self).cards@.len() - 2],
                old(self).cards@[old(self).cards@.len() - 3],
            ],
    {
        if self.cards.len() < 10 {
            self.reset();
        }
        let ghost before = self.cards@;
        let a = self.cards.pop().unwrap();
        let b = self.cards.pop().unwrap();
        let c = self.cards.pop().unwrap();
        let r = [a, b, c];
        proof {
            let n = before.len();
            assert(self.cards@ =~= before.subrange(0, n - 3));
            assert(r@ =~= seq![before[n - 1], before[n - 2], before[n - 3]]);
            assert(before =~= self.cards@.push(c).push(b).push(a));
            broadcast use vstd::seq_lib::group_to_multiset_ensures, vstd::multiset::group_multiset_axioms;
            assert(r@ =~= Seq::<Card>::empty().push(a).push(b).push(c));
            assert(self.cards@.to_multiset().add(r@.to_multiset()) =~= before.to_multiset());
        }
        r
    }
}

/// A hand of three cards, the third one face down until revealed.
pub struct Hand {
    pub cards: [Card; 3],
    pub revealed: bool,
}

/// The third rank lies strictly between the first two.
pub open spec fn between(a: u8, b: u8, c: u8) -> bool {
    if a < b {
        a < c < b
    } else {
        b < c < a
    }
}

impl Hand {
    /// Deals a hand from `deck`, face down.
    pub fn new(deck: &mut Deck) -> (r: Self)
        ensures
            !r.revealed,
            old(deck).cards@.len() >= 10 ==> final(deck).cards@ == old(deck).cards@.subrange(
                0,
                old(deck).cards@.len() - 3,
            ) && r.cards@ == seq![
                old(deck).cards@.last(),
                old(deck).cards@[old(deck).cards@.len() - 2],
                old(deck).cards@[old(deck).cards@.len() - 3],
            ],
            old(deck).cards@.len() < 10 ==> final(deck).cards@.len() == 53
                && final(deck).cards@.to_multiset().add(r.cards@.to_multiset())
                == full_deck().to_multiset(),
    {
        Hand { cards: deck.hand(), revealed: false }
    }

    /// Reveals the hand and tells whether it wins.
    pub fn is_winner(&mut self) -> (r: bool)
        ensures
            final(self).revealed,
            final(self).cards == old(self).cards,
            r == between(old(self).cards@[0].rank, old(self).cards@[1].rank, old(self).cards@[2].rank),
    {
        self.revealed = true;
        let a = self.cards[0].rank;
        let b = self.cards[1].rank;
        let c = self.cards[2].rank;
        if a < b {
            c > a && c < b
        } else {
            c < a && c > b
        }
    }
}

/// The wallet after a bet of `bet` on a hand that won or lost; none where
/// the bet is more than the wallet holds.
pub fn settle(wallet: u32, bet: u32, won: bool) -> (r: Option<u32>)
    requires
        bet <= wallet ==> wallet + bet <= u32::MAX,
    ensures
        bet > wallet ==> r is None,
        bet <= wallet ==> r == Some(
            if won {
                (wallet + bet) as u32
            } else {
                (wallet - bet) as u32
            },
        ),
{
    if bet > wallet {
        None
    } else if won {
        Some(wallet + bet)
    } else {
        Some(wallet - bet)
    }
}

} // verus!
