//! A shoe of one or more standard 52-card decks.

use vstd::prelude::*;
use rand::rngs::ThreadRng;
use rand::seq::SliceRandom;
use crate::card::{Card, Rank, Suit, rank_num, rank_of_num, lemma_rank_num_bounds};

verus! {

broadcast use lemma_rank_num_bounds;

#[verifier::external_type_specification]
#[verifier::external_body]
pub struct ExThreadRng(ThreadRng);

/// `rand::rng`: a handle on this thread's random number generator. Its state is
/// random, so nothing is stated of it.
#[verifier::external_body]
fn thread_rng() -> ThreadRng {
    rand::rng()
}

/// `SliceRandom::shuffle` on the cards: it reorders them by swaps (Fisher-Yates),
/// so afterwards the cards are a permutation of those before. Which permutation
/// comes out depends on the generator and is left unsaid.
#[verifier::external_body]
fn shuffle_cards(cards: &mut Vec<Card>, rng: &mut ThreadRng)
    ensures
        final(cards)@.len() == old(cards)@.len(),
        final(cards)@.to_multiset() == old(cards)@.to_multiset(),
{
    cards.shuffle(rng);
}

/// The suit of the `i`-th block of thirteen cards in a fresh deck.
pub open spec fn suit_at(i: int) -> Suit {
    if i == 0 {
        Suit::Hearts
    } else if i == 1 {
        Suit::Diamonds
    } else if i == 2 {
        Suit::Clubs
    } else {
        Suit::Spades
    }
}

/// A fresh deck: hearts, diamonds, clubs, spades, each from deuce up to ace.
pub open spec fn fresh_deck() -> Seq<Card> {
    Seq::new(52, |i: int| Card { rank: rank_of_num(i % 13 + 2), suit: suit_at(i / 13) })
}

/// `n` fresh decks, one after another.
pub open spec fn fresh_shoe(n: nat) -> Seq<Card>
    decreases n,
{
    if n == 0 {
        Seq::empty()
    } else {
        fresh_shoe((n - 1) as nat) + fresh_deck()
    }
}

/// A shoe of cards; cards are dealt from its end.
#[derive(Debug)]
pub struct Deck {
    cards: Vec<Card>,
}

impl View for Deck {
    type V = Seq<Card>;

    closed spec fn view(&self) -> Seq<Card> {
        self.cards@
    }
}

fn suit_number(i: usize) -> (s: Suit)
    requires
        i < 4,
    ensures
        s == suit_at(i as int),
{
    if i == 0 {
        Suit::Hearts
    } else if i == 1 {
        Suit::Diamonds
    } else if i == 2 {
        Suit::Clubs
    } else {
        Suit::Spades
    }
}

fn rank_number(v: u8) -> (r: Rank)
    requires
        2 <= v <= 14,
    ensures
        r == rank_of_num(v as int),
{
    Rank::from_value(v).unwrap()
}

/// The 52 cards of a fresh deck, in order.
pub fn fresh_deck_cards() -> (cards: Vec<Card>)
    ensures
        cards@ == fresh_deck(),
{
    let mut cards: Vec<Card> = Vec::new();
    let mut si: usize = 0;
    while si < 4
        invariant
            si <= 4,
            cards@ == fresh_deck().take(si * 13),
        decreases 4 - si,
    {
        let suit = suit_number(si);
        let mut v: u8 = 2;
        while v <= 14
            invariant
                si < 4,
                2 <= v <= 15,
                suit == suit_at(si as int),
                cards@ == fresh_deck().take(si * 13 + v - 2),
            decreases 15 - v,
        {
            let rank = rank_number(v);
            proof {
                let k = si * 13 + v - 2;
                assert(k % 13 == v - 2 && k / 13 == si) by (nonlinear_arith)
                    requires k == si * 13 + v - 2, 2 <= v <= 14;
                assert(fresh_deck()[k] == Card { rank, suit });
                assert(fresh_deck().take(k + 1) =~= fresh_deck().take(k).push(Card { rank, suit }));
            }
            cards.push(Card::new(rank, suit));
            v = v + 1;
        }
        si = si + 1;
    }
    assert(fresh_deck().take(52) =~= fresh_deck());
    cards
}

/// The position of a card in a fresh deck.
pub open spec fn deck_position(c: Card) -> int {
    let s = match c.suit {
        Suit::Hearts => 0int,
        Suit::Diamonds => 1,
        Suit::Clubs => 2,
        Suit::Spades => 3,
    };
    s * 13 + rank_num(c.rank) - 2
}

/// Every card occurs in a fresh deck, at its position.
pub proof fn lemma_card_in_fresh_deck(c: Card)
    ensures
        0 <= deck_position(c) < 52,
        fresh_deck()[deck_position(c)] == c,
{
    let k = deck_position(c);
    let v = rank_num(c.rank);
    let si: int = match c.suit {
        Suit::Hearts => 0int,
        Suit::Diamonds => 1,
        Suit::Clubs => 2,
        Suit::Spades => 3,
    };
    assert(k % 13 == v - 2 && k / 13 == si) by (nonlinear_arith)
        requires k == si * 13 + v - 2, 2 <= v <= 14, 0 <= si <= 3;
}

impl Deck {
    /// A shoe of `num_decks` fresh decks, in order.
    pub fn new(num_decks: usize) -> (deck: Deck)
        ensures
            deck@ == fresh_shoe(num_decks as nat),
    {
        let mut cards: Vec<Card> = Vec::new();
        let mut d: usize = 0;
        while d < num_decks
            invariant
                d <= num_decks,
                cards@ == fresh_shoe(d as nat),
            decreases num_decks - d,
        {
            let mut one = fresh_deck_cards();
            cards.append(&mut one);
            d = d + 1;
        }
        Deck { cards }
    }

    /// Shuffles the shoe: afterwards it holds the same cards in a random order.
    pub fn shuffle(&mut self)
        ensures
            final(self)@.to_multiset() == old(self)@.to_multiset(),
            final(self)@.len() == old(self)@.len(),
    {
        let mut rng = thread_rng();
        shuffle_cards(&mut self.cards, &mut rng);
    }

    /// Takes the card at the end of the shoe, if any is left.
    pub fn deal(&mut self) -> (card: Option<Card>)
        ensures
            old(self)@.len() == 0 ==> card is None && final(self)@ == old(self)@,
            old(self)@.len() > 0 ==> card == Some(old(self)@.last()) && final(self)@
                == old(self)@.drop_last(),
    {
        self.cards.pop()
    }

    /// How many cards are left in the shoe.
    pub fn remaining(&self) -> (n: usize)
        ensures
            n == self@.len(),
    {
        self.cards.len()
    }
}

/// A shoe of `n` decks holds `52 * n` cards.
pub proof fn lemma_fresh_shoe_len(n: nat)
    ensures
        fresh_shoe(n).len() == 52 * n,
    decreases n,
{
    if n > 0 {
        lemma_fresh_shoe_len((n - 1) as nat);
    }
}

} // verus!
