//! Hand evaluation: ranking a set of cards, with wild cards, and choosing
//! combinations of cards.

use vstd::prelude::*;
use crate::card::{Card, Rank, Suit, card_text, rank_num, rank_of_num, lemma_rank_num_bounds};
use crate::deck::{deck_position, fresh_deck, fresh_deck_cards, lemma_card_in_fresh_deck};

verus! {

broadcast use lemma_rank_num_bounds;

/// The categories of poker hands, from weakest to strongest.
#[derive(Clone, Copy, Debug, PartialEq, Eq, Structural, PartialOrd, Ord, Hash)]
pub enum HandRank {
    HighCard,
    OnePair,
    TwoPair,
    ThreeOfAKind,
    Straight,
    Flush,
    FullHouse,
    FourOfAKind,
    StraightFlush,
    RoyalFlush,
    FiveOfAKind,
}

/// The strength of a hand category: 0 for a high card up to 10 for five of a kind.
pub open spec fn level(r: HandRank) -> int {
    match r {
        HandRank::HighCard => 0,
        HandRank::OnePair => 1,
        HandRank::TwoPair => 2,
        HandRank::ThreeOfAKind => 3,
        HandRank::Straight => 4,
        HandRank::Flush => 5,
        HandRank::FullHouse => 6,
        HandRank::FourOfAKind => 7,
        HandRank::StraightFlush => 8,
        HandRank::RoyalFlush => 9,
        HandRank::FiveOfAKind => 10,
    }
}

/// The name of a hand category.
pub open spec fn rank_name(r: HandRank) -> Seq<char> {
    match r {
        HandRank::HighCard => "High Card"@,
        HandRank::OnePair => "One Pair"@,
        HandRank::TwoPair => "Two Pair"@,
        HandRank::ThreeOfAKind => "Three of a Kind"@,
        HandRank::Straight => "Straight"@,
        HandRank::Flush => "Flush"@,
        HandRank::FullHouse => "Full House"@,
        HandRank::FourOfAKind => "Four of a Kind"@,
        HandRank::StraightFlush => "Straight Flush"@,
        HandRank::RoyalFlush => "Royal Flush"@,
        HandRank::FiveOfAKind => "Five of a Kind"@,
    }
}

/// The cards in notation, separated by single spaces.
pub open spec fn cards_text(s: Seq<Card>) -> Seq<char>
    decreases s.len(),
{
    if s.len() == 0 {
        Seq::empty()
    } else if s.len() == 1 {
        card_text(s[0])
    } else {
        cards_text(s.drop_last()) + " "@ + card_text(s.last())
    }
}

/// A hand in writing: its cards, then its category in brackets, as in
/// `AH KH QH JH 10H (Royal Flush)`.
pub open spec fn hand_text(h: Hand) -> Seq<char> {
    cards_text(h.cards@) + " ("@ + rank_name(h.rank) + ")"@
}

impl HandRank {
    /// The strength of the category; a higher number beats a lower one.
    pub fn strength(&self) -> (v: u8)
        ensures
            v == level(*self),
    {
        match self {
            HandRank::HighCard => 0,
            HandRank::OnePair => 1,
            HandRank::TwoPair => 2,
            HandRank::ThreeOfAKind => 3,
            HandRank::Straight => 4,
            HandRank::Flush => 5,
            HandRank::FullHouse => 6,
            HandRank::FourOfAKind => 7,
            HandRank::StraightFlush => 8,
            HandRank::RoyalFlush => 9,
            HandRank::FiveOfAKind => 10,
        }
    }

    /// The category's name, as in "Full House".
    pub fn name(&self) -> (s: &'static str)
        ensures
            s@ == rank_name(*self),
    {
        match self {
            HandRank::HighCard => "High Card",
            HandRank::OnePair => "One Pair",
            HandRank::TwoPair => "Two Pair",
            HandRank::ThreeOfAKind => "Three of a Kind",
            HandRank::Straight => "Straight",
            HandRank::Flush => "Flush",
            HandRank::FullHouse => "Full House",
            HandRank::FourOfAKind => "Four of a Kind",
            HandRank::StraightFlush => "Straight Flush",
            HandRank::RoyalFlush => "Royal Flush",
            HandRank::FiveOfAKind => "Five of a Kind",
        }
    }

    /// Whether this category beats `other`.
    pub fn beats(&self, other: &HandRank) -> (b: bool)
        ensures
            b == (level(*self) > level(*other)),
    {
        self.strength() > other.strength()
    }
}

/// A set of cards with its category and the rank values that decide between
/// hands of one category.
#[derive(Clone, Debug)]
pub struct Hand {
    pub cards: Vec<Card>,
    pub rank: HandRank,
    pub rank_values: Vec<u8>,
}

// ---------------------------------------------------------------------------
// The mathematical model of a set of cards.

/// Holds of the cards of rank value `v`.
pub open spec fn has_rank(v: int) -> spec_fn(Card) -> bool {
    |c: Card| rank_num(c.rank) == v
}

/// The cards of `s` whose rank value is `v`, in their order in `s`.
pub open spec fn rank_group(s: Seq<Card>, v: int) -> Seq<Card> {
    s.filter(has_rank(v))
}

/// How many cards of `s` have rank value `v`.
pub open spec fn rank_count(s: Seq<Card>, v: int) -> nat {
    rank_group(s, v).len()
}

/// The cards of `s` whose rank is `lo` or higher, the highest ranks first;
/// cards of one rank keep their order in `s`.
pub open spec fn groups_from(s: Seq<Card>, lo: int) -> Seq<Card>
    decreases 15 - lo,
{
    if lo >= 15 {
        Seq::empty()
    } else {
        groups_from(s, lo + 1) + rank_group(s, lo)
    }
}

/// `s` sorted by rank from ace down to deuce; the sort is stable.
pub open spec fn sorted_by_rank(s: Seq<Card>) -> Seq<Card> {
    groups_from(s, 2)
}

/// The number of rank values in `2..=hi` that occur exactly `k` times in `s`.
pub open spec fn ranks_with_count_upto(s: Seq<Card>, k: nat, hi: int) -> nat
    decreases hi - 1,
{
    if hi < 2 {
        0
    } else {
        ranks_with_count_upto(s, k, hi - 1) + if rank_count(s, hi) == k {
            1nat
        } else {
            0nat
        }
    }
}

/// The number of ranks that occur exactly `k` times in `s`.
pub open spec fn ranks_with_count(s: Seq<Card>, k: nat) -> nat {
    ranks_with_count_upto(s, k, 14)
}

/// The rank counts of `s`, sorted from largest to smallest, are made of
/// `fives` fives, `fours` fours, `threes` threes, `pairs` twos and `singles` ones:
/// no rank occurs more than five times, and each count occurs as often as given.
pub open spec fn counts_pattern(
    s: Seq<Card>,
    fives: nat,
    fours: nat,
    threes: nat,
    pairs: nat,
    singles: nat,
) -> bool {
    &&& forall|v: int| 2 <= v <= 14 ==> #[trigger] rank_count(s, v) <= 5
    &&& ranks_with_count(s, 5) == fives
    &&& ranks_with_count(s, 4) == fours
    &&& ranks_with_count(s, 3) == threes
    &&& ranks_with_count(s, 2) == pairs
    &&& ranks_with_count(s, 1) == singles
}

/// The highest rank value in `2..=hi` that occurs exactly `k` times in `s` (0 if none).
pub open spec fn highest_with_count_upto(s: Seq<Card>, k: nat, hi: int) -> int
    decreases hi - 1,
{
    if hi < 2 {
        0
    } else if rank_count(s, hi) == k {
        hi
    } else {
        highest_with_count_upto(s, k, hi - 1)
    }
}

/// The highest rank value that occurs exactly `k` times in `s` (0 if none).
pub open spec fn highest_with_count(s: Seq<Card>, k: nat) -> int {
    highest_with_count_upto(s, k, 14)
}

/// The lowest rank value in `lo..=14` that occurs exactly `k` times in `s` (0 if none).
pub open spec fn lowest_with_count_from(s: Seq<Card>, k: nat, lo: int) -> int
    decreases 15 - lo,
{
    if lo > 14 {
        0
    } else if rank_count(s, lo) == k {
        lo
    } else {
        lowest_with_count_from(s, k, lo + 1)
    }
}

/// The lowest rank value that occurs exactly `k` times in `s` (0 if none).
pub open spec fn lowest_with_count(s: Seq<Card>, k: nat) -> int {
    lowest_with_count_from(s, k, 2)
}

/// The first five of `sorted` share one suit.
pub open spec fn five_suited(sorted: Seq<Card>) -> bool {
    &&& sorted.len() >= 5
    &&& forall|i: int| 0 <= i < 5 ==> #[trigger] sorted[i].suit == sorted[0].suit
}

/// A card of rank value `v` is in `s`.
pub open spec fn holds_rank(s: Seq<Card>, v: int) -> bool {
    rank_count(s, v) > 0
}

/// `s` holds the five consecutive rank values `top - 4 ..= top`.
pub open spec fn run_of_five(s: Seq<Card>, top: int) -> bool {
    forall|j: int| 0 <= j < 5 ==> #[trigger] holds_rank(s, top - j)
}

/// At least five cards, among whose ranks there are five consecutive values,
/// or ace, five, four, three and deuce (the wheel).
pub open spec fn has_straight(s: Seq<Card>) -> bool {
    &&& s.len() >= 5
    &&& {
        ||| exists|top: int| 6 <= top <= 14 && #[trigger] run_of_five(s, top)
        ||| holds_rank(s, 14) && holds_rank(s, 5) && holds_rank(s, 4) && holds_rank(s, 3)
            && holds_rank(s, 2)
    }
}

/// The value of the highest card of `sorted`, as the one-element list of rank values.
pub open spec fn top_value(sorted: Seq<Card>) -> Seq<u8> {
    seq![rank_num(sorted[0].rank) as u8]
}

/// The category and the deciding rank values of the cards `cards`, without wild cards.
///
/// The cards are first sorted by rank. A straight that is also a flush is a royal
/// flush when it is topped by an ace and a king, else a straight flush. Otherwise
/// the rank counts decide, in this order: one rank five times (five of a kind),
/// four and one (four of a kind), three and two (full house); then a flush, then a
/// straight; then three, one and one (three of a kind), two, two and one (two pair),
/// two, one, one and one (one pair); anything else is a high card.
pub open spec fn standard_evaluation(cards: Seq<Card>) -> (HandRank, Seq<u8>) {
    let sorted = sorted_by_rank(cards);
    let flush = five_suited(sorted);
    let straight = has_straight(sorted);
    if straight && flush {
        if sorted[0].rank == Rank::Ace && sorted[1].rank == Rank::King {
            (HandRank::RoyalFlush, seq![14u8])
        } else {
            (HandRank::StraightFlush, top_value(sorted))
        }
    } else if counts_pattern(sorted, 1, 0, 0, 0, 0) {
        (HandRank::FiveOfAKind, seq![highest_with_count(sorted, 5) as u8])
    } else if counts_pattern(sorted, 0, 1, 0, 0, 1) {
        (HandRank::FourOfAKind, seq![highest_with_count(sorted, 4) as u8])
    } else if counts_pattern(sorted, 0, 0, 1, 1, 0) {
        (HandRank::FullHouse, seq![highest_with_count(sorted, 3) as u8])
    } else if flush {
        (HandRank::Flush, top_value(sorted))
    } else if straight {
        (HandRank::Straight, top_value(sorted))
    } else if counts_pattern(sorted, 0, 0, 1, 0, 2) {
        (HandRank::ThreeOfAKind, seq![highest_with_count(sorted, 3) as u8])
    } else if counts_pattern(sorted, 0, 0, 0, 2, 1) {
        (
            HandRank::TwoPair,
            seq![highest_with_count(sorted, 2) as u8, lowest_with_count(sorted, 2) as u8],
        )
    } else if counts_pattern(sorted, 0, 0, 0, 1, 3) {
        (HandRank::OnePair, seq![highest_with_count(sorted, 2) as u8])
    } else if sorted.len() == 0 {
        (HandRank::HighCard, Seq::empty())
    } else {
        (HandRank::HighCard, top_value(sorted))
    }
}

/// Holds of the cards that are not among `wilds`.
pub open spec fn not_wild(wilds: Seq<Card>) -> spec_fn(Card) -> bool {
    |c: Card| !wilds.contains(c)
}

/// A list of rank values is above another: at the first place where they differ its
/// value is higher, or the other ends there first.
pub open spec fn values_above(x: Seq<u8>, y: Seq<u8>) -> bool
    decreases x.len(),
{
    if x.len() == 0 {
        false
    } else if y.len() == 0 {
        true
    } else if x[0] != y[0] {
        x[0] > y[0]
    } else {
        values_above(x.drop_first(), y.drop_first())
    }
}

/// Evaluation `a` beats evaluation `b`: a stronger category, or the same category
/// and higher rank values.
pub open spec fn outranks(a: (HandRank, Seq<u8>), b: (HandRank, Seq<u8>)) -> bool {
    level(a.0) > level(b.0) || (level(a.0) == level(b.0) && values_above(a.1, b.1))
}

/// The better of two evaluations, the first on a tie.
pub open spec fn better_of(a: (HandRank, Seq<u8>), b: (HandRank, Seq<u8>)) -> (HandRank, Seq<u8>) {
    if outranks(b, a) {
        b
    } else {
        a
    }
}

/// The best evaluation of `cards` completed by `wild_count` wild cards, each standing
/// for any card: the best, by category and then rank values, of `cards + ws` over
/// every list `ws` of `wild_count` cards (see `law_wild_cards_take_the_best` and
/// `law_best_wild_value_is_reached`). Without wild cards this is the plain evaluation.
pub open spec fn best_with_wilds(cards: Seq<Card>, wild_count: nat) -> (HandRank, Seq<u8>)
    decreases wild_count, 53nat,
{
    if wild_count == 0 {
        standard_evaluation(cards)
    } else {
        best_choice_upto(cards, wild_count, 52)
    }
}

/// The best evaluation of `cards` completed by `wild_count` wild cards when the first
/// of them stands for one of the first `m` cards of a fresh deck (at least the first).
pub open spec fn best_choice_upto(cards: Seq<Card>, wild_count: nat, m: nat) -> (HandRank, Seq<u8>)
    decreases wild_count, m,
{
    if wild_count == 0 {
        standard_evaluation(cards)
    } else if m <= 1 {
        best_with_wilds(cards.push(fresh_deck()[0]), (wild_count - 1) as nat)
    } else {
        better_of(
            best_choice_upto(cards, wild_count, (m - 1) as nat),
            best_with_wilds(cards.push(fresh_deck()[m - 1]), (wild_count - 1) as nat),
        )
    }
}

/// The category and deciding rank values of `cards` when the cards among `wilds` are
/// wild: the wild cards are taken out and counted, and the rest is evaluated with them.
pub open spec fn wild_evaluation(cards: Seq<Card>, wilds: Seq<Card>) -> (HandRank, Seq<u8>) {
    let kept = cards.filter(not_wild(wilds));
    best_with_wilds(kept, (cards.len() - kept.len()) as nat)
}

/// `hand` holds `cards` sorted by rank and their evaluation with the wild cards `wilds`.
pub open spec fn evaluates(hand: Hand, cards: Seq<Card>, wilds: Seq<Card>) -> bool {
    let sorted = sorted_by_rank(cards);
    &&& hand.cards@ == sorted
    &&& (hand.rank, hand.rank_values@) == wild_evaluation(sorted, wilds)
}

/// The `k`-element combinations of `s`, each in the order of `s`: first those that
/// take `s[0]`, then those that leave it out.
pub open spec fn combos<T>(s: Seq<T>, k: nat) -> Seq<Seq<T>>
    decreases s.len(),
{
    if k == 0 {
        seq![Seq::<T>::empty()]
    } else if s.len() == 0 {
        Seq::empty()
    } else {
        combos(s.drop_first(), (k - 1) as nat).map_values(|c: Seq<T>| seq![s[0]] + c) + combos(
            s.drop_first(),
            k,
        )
    }
}

// ---------------------------------------------------------------------------
// Counting and sorting.

proof fn lemma_take_push(s: Seq<Card>, i: int)
    requires
        0 <= i < s.len(),
    ensures
        s.take(i + 1) == s.take(i).push(s[i]),
{
    assert(s.take(i + 1) =~= s.take(i).push(s[i]));
}

/// The rank counts of `cards`, indexed by rank value.
fn get_rank_counts(cards: &Vec<Card>) -> (counts: Vec<usize>)
    ensures
        counts@.len() == 15,
        forall|v: int| 2 <= v <= 14 ==> #[trigger] counts@[v] == rank_count(cards@, v),
{
    let mut counts: Vec<usize> = vec![0; 15];
    let mut i: usize = 0;
    while i < cards.len()
        invariant
            i <= cards@.len(),
            counts@.len() == 15,
            forall|v: int| 2 <= v <= 14 ==> #[trigger] counts@[v] == rank_count(cards@.take(i as int), v),
        decreases cards@.len() - i,
    {
        let ghost prev = counts@;
        let v = cards[i].rank.value() as usize;
        proof {
            lemma_take_push(cards@, i as int);
            assert forall|w: int| 2 <= w <= 14 implies rank_count(cards@.take(i + 1), w)
                == rank_count(cards@.take(i as int), w) + if w == v { 1nat } else { 0nat } by {
                cards@.take(i as int).lemma_filter_push(cards@[i as int], has_rank(w));
            }
            cards@.take(i as int).lemma_filter_len(has_rank(v as int));
        }
        counts[v] = counts[v] + 1;
        i = i + 1;
    }
    assert(cards@.take(cards@.len() as int) =~= cards@);
    counts
}

/// `cards` sorted by rank from ace down to deuce, keeping the order of cards of one rank.
fn sort_by_rank(cards: &Vec<Card>) -> (sorted: Vec<Card>)
    ensures
        sorted@ == sorted_by_rank(cards@),
{
    let mut sorted: Vec<Card> = Vec::new();
    let mut v: u8 = 14;
    while v >= 2
        invariant
            1 <= v <= 14,
            sorted@ == groups_from(cards@, v + 1),
        decreases v,
    {
        let ghost base = sorted@;
        let mut i: usize = 0;
        while i < cards.len()
            invariant
                i <= cards@.len(),
                2 <= v <= 14,
                sorted@ == base + cards@.take(i as int).filter(has_rank(v as int)),
            decreases cards@.len() - i,
        {
            proof {
                lemma_take_push(cards@, i as int);
                cards@.take(i as int).lemma_filter_push(cards@[i as int], has_rank(v as int));
            }
            if cards[i].rank.value() == v {
                sorted.push(cards[i]);
            }
            i = i + 1;
        }
        assert(cards@.take(cards@.len() as int) =~= cards@);
        v = v - 1;
    }
    sorted
}

/// Whether the first five of `sorted` share a suit.
fn is_flush(sorted: &Vec<Card>) -> (b: bool)
    ensures
        b == five_suited(sorted@),
{
    if sorted.len() < 5 {
        return false;
    }
    let first = sorted[0].suit;
    let mut i: usize = 1;
    while i < 5
        invariant
            1 <= i <= 5,
            sorted@.len() >= 5,
            first == sorted@[0].suit,
            forall|j: int| 0 <= j < i ==> #[trigger] sorted@[j].suit == first,
        decreases 5 - i,
    {
        if sorted[i].suit != first {
            return false;
        }
        i = i + 1;
    }
    true
}

/// Whether the cards counted by `counts` make a straight.
fn is_straight(cards: &Vec<Card>, counts: &Vec<usize>) -> (b: bool)
    requires
        counts@.len() == 15,
        forall|v: int| 2 <= v <= 14 ==> #[trigger] counts@[v] == rank_count(cards@, v),
    ensures
        b == has_straight(cards@),
{
    if cards.len() < 5 {
        return false;
    }
    let mut top: usize = 14;
    while top >= 6
        invariant
            5 <= top <= 14,
            cards@.len() >= 5,
            counts@.len() == 15,
            forall|v: int| 2 <= v <= 14 ==> #[trigger] counts@[v] == rank_count(cards@, v),
            forall|t: int| top < t <= 14 ==> !#[trigger] run_of_five(cards@, t),
        decreases top,
    {
        if counts[top] > 0 && counts[top - 1] > 0 && counts[top - 2] > 0 && counts[top - 3] > 0
            && counts[top - 4] > 0 {
            assert forall|j: int| 0 <= j < 5 implies #[trigger] holds_rank(cards@, top - j) by {
                assert(counts@[top - j] > 0);
            }
            assert(run_of_five(cards@, top as int));
            return true;
        }
        proof {
            let t = top as int;
            let j: int = if counts@[t] == 0 { 0 } else if counts@[t - 1] == 0 { 1 } else if counts@[t - 2] == 0 { 2 } else if counts@[t - 3] == 0 { 3 } else { 4 };
            assert(!holds_rank(cards@, t - j));
            assert(!run_of_five(cards@, t));
        }
        top = top - 1;
    }
    counts[14] > 0 && counts[5] > 0 && counts[4] > 0 && counts[3] > 0 && counts[2] > 0
}

/// How many ranks occur exactly once, twice, ... five times, and whether
/// some rank occurs more than five times.
fn count_shape(cards: &Vec<Card>, counts: &Vec<usize>) -> (shape: ([usize; 6], bool))
    requires
        counts@.len() == 15,
        forall|v: int| 2 <= v <= 14 ==> #[trigger] counts@[v] == rank_count(cards@, v),
    ensures
        forall|k: int| 1 <= k <= 5 ==> #[trigger] shape.0@[k] == ranks_with_count(cards@, k as nat),
        shape.1 <==> exists|v: int| 2 <= v <= 14 && #[trigger] rank_count(cards@, v) > 5,
{
    let mut tally: [usize; 6] = [0, 0, 0, 0, 0, 0];
    let mut over = false;
    let mut v: usize = 2;
    while v <= 14
        invariant
            2 <= v <= 15,
            counts@.len() == 15,
            forall|w: int| 2 <= w <= 14 ==> #[trigger] counts@[w] == rank_count(cards@, w),
            forall|k: int| 1 <= k <= 5 ==> #[trigger] tally@[k] == ranks_with_count_upto(cards@, k as nat, v - 1),
            forall|k: int| 1 <= k <= 5 ==> #[trigger] tally@[k] <= v,
            over <==> exists|w: int| 2 <= w < v && #[trigger] rank_count(cards@, w) > 5,
        decreases 15 - v,
    {
        let c = counts[v];
        if 1 <= c && c <= 5 {
            tally[c] = tally[c] + 1;
        } else if c > 5 {
            over = true;
        }
        proof {
            assert forall|k: int| 1 <= k <= 5 implies #[trigger] tally@[k] == ranks_with_count_upto(cards@, k as nat, v as int) by {
                assert(ranks_with_count_upto(cards@, k as nat, v as int) == ranks_with_count_upto(cards@, k as nat, v - 1) + if rank_count(cards@, v as int) == k { 1nat } else { 0nat });
            }
            if over {
                if c > 5 {
                    assert(rank_count(cards@, v as int) > 5);
                }
            }
        }
        v = v + 1;
    }
    (tally, over)
}

/// The highest rank value that occurs exactly `k` times, 0 if none does.
fn highest_count_of(cards: &Vec<Card>, counts: &Vec<usize>, k: usize) -> (v: u8)
    requires
        counts@.len() == 15,
        forall|w: int| 2 <= w <= 14 ==> #[trigger] counts@[w] == rank_count(cards@, w),
    ensures
        v == highest_with_count(cards@, k as nat),
{
    let mut hi: usize = 14;
    while hi >= 2
        invariant
            1 <= hi <= 14,
            counts@.len() == 15,
            forall|w: int| 2 <= w <= 14 ==> #[trigger] counts@[w] == rank_count(cards@, w),
            highest_with_count(cards@, k as nat) == highest_with_count_upto(cards@, k as nat, hi as int),
        decreases hi,
    {
        if counts[hi] == k {
            return hi as u8;
        }
        hi = hi - 1;
    }
    0
}

/// The lowest rank value that occurs exactly `k` times, 0 if none does.
fn lowest_count_of(cards: &Vec<Card>, counts: &Vec<usize>, k: usize) -> (v: u8)
    requires
        counts@.len() == 15,
        forall|w: int| 2 <= w <= 14 ==> #[trigger] counts@[w] == rank_count(cards@, w),
    ensures
        v == lowest_with_count(cards@, k as nat),
{
    let mut lo: usize = 2;
    while lo <= 14
        invariant
            2 <= lo <= 15,
            counts@.len() == 15,
            forall|w: int| 2 <= w <= 14 ==> #[trigger] counts@[w] == rank_count(cards@, w),
            lowest_with_count(cards@, k as nat) == lowest_with_count_from(cards@, k as nat, lo as int),
        decreases 15 - lo,
    {
        if counts[lo] == k {
            return lo as u8;
        }
        lo = lo + 1;
    }
    0
}

/// Whether the shape found by `count_shape` is the given pattern of rank counts.
fn shape_is(
    shape: &([usize; 6], bool),
    fives: usize,
    fours: usize,
    threes: usize,
    pairs: usize,
    singles: usize,
) -> (b: bool)
    ensures
        b == (!shape.1 && shape.0@[5] == fives && shape.0@[4] == fours && shape.0@[3] == threes
            && shape.0@[2] == pairs && shape.0@[1] == singles),
{
    !shape.1 && shape.0[5] == fives && shape.0[4] == fours && shape.0[3] == threes
        && shape.0[2] == pairs && shape.0[1] == singles
}

/// Evaluates `cards` as they are, without wild cards.
fn evaluate_standard_hand(cards: &Vec<Card>) -> (res: (HandRank, Vec<u8>))
    ensures
        (res.0, res.1@) == standard_evaluation(cards@),
{
    let sorted = sort_by_rank(cards);
    let ghost s = sorted@;
    let flush = is_flush(&sorted);
    let counts = get_rank_counts(&sorted);
    let straight = is_straight(&sorted, &counts);
    let shape = count_shape(&sorted, &counts);
    proof {
        assert(shape.0@[5] == ranks_with_count(s, 5));
        assert(shape.0@[4] == ranks_with_count(s, 4));
        assert(shape.0@[3] == ranks_with_count(s, 3));
        assert(shape.0@[2] == ranks_with_count(s, 2));
        assert(shape.0@[1] == ranks_with_count(s, 1));
        assert(!shape.1 <==> forall|v: int| 2 <= v <= 14 ==> #[trigger] rank_count(s, v) <= 5);
    }
    if straight && flush {
        if sorted[0].rank == Rank::Ace && sorted[1].rank == Rank::King {
            return (HandRank::RoyalFlush, vec![14]);
        } else {
            return (HandRank::StraightFlush, vec![sorted[0].rank.value()]);
        }
    }
    if shape_is(&shape, 1, 0, 0, 0, 0) {
        (HandRank::FiveOfAKind, vec![highest_count_of(&sorted, &counts, 5)])
    } else if shape_is(&shape, 0, 1, 0, 0, 1) {
        (HandRank::FourOfAKind, vec![highest_count_of(&sorted, &counts, 4)])
    } else if shape_is(&shape, 0, 0, 1, 1, 0) {
        (HandRank::FullHouse, vec![highest_count_of(&sorted, &counts, 3)])
    } else if flush {
        (HandRank::Flush, vec![sorted[0].rank.value()])
    } else if straight {
        (HandRank::Straight, vec![sorted[0].rank.value()])
    } else if shape_is(&shape, 0, 0, 1, 0, 2) {
        (HandRank::ThreeOfAKind, vec![highest_count_of(&sorted, &counts, 3)])
    } else if shape_is(&shape, 0, 0, 0, 2, 1) {
        let high = highest_count_of(&sorted, &counts, 2);
        let low = lowest_count_of(&sorted, &counts, 2);
        (HandRank::TwoPair, vec![high, low])
    } else if shape_is(&shape, 0, 0, 0, 1, 3) {
        (HandRank::OnePair, vec![highest_count_of(&sorted, &counts, 2)])
    } else if sorted.len() == 0 {
        (HandRank::HighCard, Vec::new())
    } else {
        (HandRank::HighCard, vec![sorted[0].rank.value()])
    }
}

/// Whether `card` is one of `wilds`.
fn is_wild(card: &Card, wilds: &[Card]) -> (b: bool)
    ensures
        b == wilds@.contains(*card),
{
    let mut j: usize = 0;
    while j < wilds.len()
        invariant
            j <= wilds@.len(),
            forall|i: int| 0 <= i < j ==> wilds@[i] != *card,
        decreases wilds@.len() - j,
    {
        if wilds[j] == *card {
            assert(wilds@[j as int] == *card);
            return true;
        }
        j = j + 1;
    }
    false
}

/// Whether evaluation `a` beats evaluation `b`.
fn outranks_exec(a: &(HandRank, Vec<u8>), b: &(HandRank, Vec<u8>)) -> (r: bool)
    ensures
        r == outranks((a.0, a.1@), (b.0, b.1@)),
{
    let la = a.0.strength();
    let lb = b.0.strength();
    if la != lb {
        return la > lb;
    }
    let x = &a.1;
    let y = &b.1;
    let mut i: usize = 0;
    assert(x@.skip(0) =~= x@);
    assert(y@.skip(0) =~= y@);
    while i < x.len()
        invariant
            i <= x@.len(),
            i <= y@.len(),
            level(a.0) == level(b.0),
            x@ == a.1@,
            y@ == b.1@,
            values_above(x@, y@) == values_above(x@.skip(i as int), y@.skip(i as int)),
        decreases x@.len() - i,
    {
        assert(x@.skip(i as int)[0] == x@[i as int]);
        if i == y.len() {
            assert(y@.skip(i as int).len() == 0);
            assert(x@.skip(i as int).len() > 0);
            assert(values_above(x@.skip(i as int), y@.skip(i as int)));
            return true;
        }
        assert(y@.skip(i as int)[0] == y@[i as int]);
        if x[i] != y[i] {
            assert(values_above(x@.skip(i as int), y@.skip(i as int)) == (x[i as int] > y[i as int]));
            return x[i] > y[i];
        }
        assert(x@.skip(i as int).drop_first() =~= x@.skip(i + 1));
        assert(y@.skip(i as int).drop_first() =~= y@.skip(i + 1));
        i = i + 1;
    }
    false
}

/// `cards` with `c` added at the end.
fn with_card(cards: &Vec<Card>, c: Card) -> (out: Vec<Card>)
    ensures
        out@ == cards@.push(c),
{
    let mut out: Vec<Card> = Vec::new();
    let mut i: usize = 0;
    while i < cards.len()
        invariant
            i <= cards@.len(),
            out@ == cards@.take(i as int),
        decreases cards@.len() - i,
    {
        out.push(cards[i]);
        i = i + 1;
        assert(out@ =~= cards@.take(i as int));
    }
    assert(cards@.take(i as int) =~= cards@);
    out.push(c);
    out
}

/// Evaluates `cards`, of which `wild_count` wild cards were taken out, trying every
/// card of `deck` (a fresh deck) for each wild card and keeping the best evaluation.
fn best_substitution(cards: &Vec<Card>, wild_count: usize, deck: &Vec<Card>) -> (res: (
    HandRank,
    Vec<u8>,
))
    requires
        deck@ == fresh_deck(),
    ensures
        (res.0, res.1@) == best_with_wilds(cards@, wild_count as nat),
    decreases wild_count,
{
    if wild_count == 0 {
        return evaluate_standard_hand(cards);
    }
    let mut best = best_substitution(&with_card(cards, deck[0]), wild_count - 1, deck);
    let mut m: usize = 1;
    while m < 52
        invariant
            1 <= m <= 52,
            wild_count > 0,
            deck@ == fresh_deck(),
            (best.0, best.1@) == best_choice_upto(cards@, wild_count as nat, m as nat),
        decreases 52 - m,
    {
        let candidate = best_substitution(&with_card(cards, deck[m]), wild_count - 1, deck);
        if outranks_exec(&candidate, &best) {
            best = candidate;
        }
        m = m + 1;
    }
    best
}

/// Evaluates `cards`, of which `wild_count` wild cards were taken out: with no wild
/// cards as they are, else with each wild card standing for the card that makes the
/// best hand.
fn find_best_hand_with_wilds(cards: &Vec<Card>, wild_count: usize) -> (res: (HandRank, Vec<u8>))
    ensures
        (res.0, res.1@) == best_with_wilds(cards@, wild_count as nat),
{
    if wild_count == 0 {
        return evaluate_standard_hand(cards);
    }
    let deck = fresh_deck_cards();
    best_substitution(cards, wild_count, &deck)
}

/// Evaluates `cards` with the cards among `wilds` wild: the wild cards are taken out
/// and counted, then the rest is evaluated with them.
fn evaluate_hand(cards: &Vec<Card>, wilds: &[Card]) -> (res: (HandRank, Vec<u8>))
    ensures
        (res.0, res.1@) == wild_evaluation(cards@, wilds@),
{
    let ghost keep = not_wild(wilds@);
    let mut kept: Vec<Card> = Vec::new();
    let mut wild_count: usize = 0;
    let mut i: usize = 0;
    while i < cards.len()
        invariant
            i <= cards@.len(),
            keep == not_wild(wilds@),
            kept@ == cards@.take(i as int).filter(keep),
            wild_count + kept@.len() == i,
        decreases cards@.len() - i,
    {
        proof {
            lemma_take_push(cards@, i as int);
            cards@.take(i as int).lemma_filter_push(cards@[i as int], keep);
        }
        if is_wild(&cards[i], wilds) {
            wild_count = wild_count + 1;
        } else {
            kept.push(cards[i]);
        }
        i = i + 1;
    }
    assert(cards@.take(cards@.len() as int) =~= cards@);
    find_best_hand_with_wilds(&kept, wild_count)
}

impl Hand {
    /// Sorts `cards` by rank, highest first, and evaluates them with the cards among
    /// `wild_cards` wild.
    pub fn new(cards: Vec<Card>, wild_cards: &[Card]) -> (hand: Hand)
        ensures
            evaluates(hand, cards@, wild_cards@),
    {
        let sorted = sort_by_rank(&cards);
        let (rank, rank_values) = evaluate_hand(&sorted, wild_cards);
        Hand { cards: sorted, rank, rank_values }
    }
}

/// `v` views as `s`: same length, and each element views as its counterpart.
pub open spec fn views_as<T>(v: Seq<Vec<T>>, s: Seq<Seq<T>>) -> bool {
    &&& v.len() == s.len()
    &&& forall|i: int| 0 <= i < v.len() ==> #[trigger] v[i]@ == s[i]
}

/// The `k`-element combinations of `items[start..]`.
fn combinations_from<T: Copy>(items: &[T], start: usize, k: usize) -> (result: Vec<Vec<T>>)
    requires
        start <= items@.len(),
    ensures
        views_as(result@, combos(items@.skip(start as int), k as nat)),
    decreases items@.len() - start, k,
{
    let ghost s = items@.skip(start as int);
    if k == 0 {
        let mut result: Vec<Vec<T>> = Vec::new();
        result.push(Vec::new());
        assert(views_as(result@, combos(s, 0)));
        return result;
    }
    if start == items.len() {
        assert(s.len() == 0);
        return Vec::new();
    }
    let first = items[start];
    assert(s.drop_first() =~= items@.skip(start + 1));
    let with_first = combinations_from(items, start + 1, k - 1);
    let ghost tail_with = combos(s.drop_first(), (k - 1) as nat);
    let mut result: Vec<Vec<T>> = Vec::new();
    let mut i: usize = 0;
    while i < with_first.len()
        invariant
            i <= with_first@.len(),
            s.len() > 0,
            first == s[0],
            views_as(with_first@, tail_with),
            views_as(result@, tail_with.take(i as int).map_values(|c: Seq<T>| seq![s[0]] + c)),
        decreases with_first@.len() - i,
    {
        let mut combo: Vec<T> = Vec::new();
        combo.push(first);
        let mut j: usize = 0;
        while j < with_first[i].len()
            invariant
                i < with_first@.len(),
                j <= with_first@[i as int]@.len(),
                combo@ == seq![first] + with_first@[i as int]@.take(j as int),
            decreases with_first@[i as int]@.len() - j,
        {
            combo.push(with_first[i][j]);
            j = j + 1;
            assert(combo@ =~= seq![first] + with_first@[i as int]@.take(j as int));
        }
        assert(with_first@[i as int]@.take(j as int) =~= with_first@[i as int]@);
        result.push(combo);
        i = i + 1;
        assert(views_as(result@, tail_with.take(i as int).map_values(|c: Seq<T>| seq![s[0]] + c))) by {
            let m = tail_with.take(i as int).map_values(|c: Seq<T>| seq![s[0]] + c);
            assert forall|x: int| 0 <= x < result@.len() implies #[trigger] result@[x]@ == m[x] by {
                if x < i - 1 {
                    assert(tail_with.take(i - 1)[x] == tail_with.take(i as int)[x]);
                }
            }
        }
    }
    assert(tail_with.take(i as int) =~= tail_with);
    let mut without_first = combinations_from(items, start + 1, k);
    let ghost left = result@;
    let ghost right = without_first@;
    result.append(&mut without_first);
    assert(views_as(result@, combos(s, k as nat))) by {
        let m = tail_with.map_values(|c: Seq<T>| seq![s[0]] + c);
        let full = combos(s, k as nat);
        assert(full == m + combos(s.drop_first(), k as nat));
        assert forall|x: int| 0 <= x < result@.len() implies #[trigger] result@[x]@ == full[x] by {
            if x < left.len() {
                assert(result@[x] == left[x]);
            } else {
                assert(result@[x] == right[x - left.len()]);
            }
        }
    }
    result
}

/// All `k`-element combinations of `items`, each keeping the order of `items`:
/// first those that take `items[0]`, then those that leave it out.
pub fn combinations<T: Copy>(items: &[T], k: usize) -> (result: Vec<Vec<T>>)
    ensures
        views_as(result@, combos(items@, k as nat)),
{
    assert(items@.skip(0) =~= items@);
    combinations_from(items, 0, k)
}

/// The binomial coefficient: the number of ways to choose `k` of `n` items.
pub open spec fn binomial(n: nat, k: nat) -> nat
    decreases n,
{
    if k == 0 {
        1
    } else if n == 0 {
        0
    } else {
        binomial((n - 1) as nat, (k - 1) as nat) + binomial((n - 1) as nat, k)
    }
}

/// There are `binomial(n, k)` combinations of `k` out of `n` items, and each has
/// exactly `k` items, each of them one of the given items.
pub proof fn law_combinations_count<T>(s: Seq<T>, k: nat)
    ensures
        combos(s, k).len() == binomial(s.len(), k),
        forall|i: int| 0 <= i < combos(s, k).len() ==> (#[trigger] combos(s, k)[i]).len() == k,
        forall|i: int, j: int|
            0 <= i < combos(s, k).len() && 0 <= j < combos(s, k)[i].len() ==> s.contains(
                #[trigger] combos(s, k)[i][j],
            ),
    decreases s.len(),
{
    if k == 0 {
    } else if s.len() == 0 {
    } else {
        let rest = s.drop_first();
        law_combinations_count(rest, (k - 1) as nat);
        law_combinations_count(rest, k);
        let with = combos(rest, (k - 1) as nat).map_values(|c: Seq<T>| seq![s[0]] + c);
        let without = combos(rest, k);
        assert(combos(s, k) == with + without);
        assert forall|i: int| 0 <= i < combos(s, k).len() implies (#[trigger] combos(s, k)[i]).len() == k by {
            if i < with.len() {
                assert(combos(s, k)[i] == seq![s[0]] + combos(rest, (k - 1) as nat)[i]);
            } else {
                assert(combos(s, k)[i] == without[i - with.len()]);
            }
        }
        assert forall|i: int, j: int|
            0 <= i < combos(s, k).len() && 0 <= j < combos(s, k)[i].len() implies s.contains(
                #[trigger] combos(s, k)[i][j],
            ) by {
            if i < with.len() {
                let c = combos(rest, (k - 1) as nat)[i];
                assert(combos(s, k)[i] == seq![s[0]] + c);
                if j == 0 {
                    assert(s[0] == combos(s, k)[i][j]);
                } else {
                    assert(combos(s, k)[i][j] == c[j - 1]);
                    assert(rest.contains(c[j - 1]));
                    let m = choose|m: int| 0 <= m < rest.len() && rest[m] == c[j - 1];
                    assert(s[m + 1] == rest[m]);
                }
            } else {
                let c = without[i - with.len()];
                assert(combos(s, k)[i] == c);
                assert(rest.contains(c[j]));
                let m = choose|m: int| 0 <= m < rest.len() && rest[m] == c[j];
                assert(s[m + 1] == rest[m]);
            }
        }
    }
}

/// Adding a card to a set of cards adds it to the groups of ranks `lo` and up
/// exactly when its rank is `lo` or higher.
proof fn lemma_groups_push(s: Seq<Card>, c: Card, lo: int)
    ensures
        groups_from(s.push(c), lo).to_multiset() == if rank_num(c.rank) >= lo {
            groups_from(s, lo).to_multiset().insert(c)
        } else {
            groups_from(s, lo).to_multiset()
        },
    decreases 15 - lo,
{
    broadcast use vstd::seq_lib::group_to_multiset_ensures, vstd::multiset::group_multiset_axioms;

    if lo < 15 {
        lemma_groups_push(s, c, lo + 1);
        s.lemma_filter_push(c, has_rank(lo));
        vstd::seq_lib::lemma_multiset_commutative(groups_from(s.push(c), lo + 1), rank_group(s.push(c), lo));
        vstd::seq_lib::lemma_multiset_commutative(groups_from(s, lo + 1), rank_group(s, lo));
        if rank_num(c.rank) == lo {
            assert(rank_group(s.push(c), lo) == rank_group(s, lo).push(c));
        }
        assert(groups_from(s.push(c), lo).to_multiset() =~= if rank_num(c.rank) >= lo {
            groups_from(s, lo).to_multiset().insert(c)
        } else {
            groups_from(s, lo).to_multiset()
        });
    }
}

/// The groups of ranks `lo` and up hold only cards of those ranks, highest first.
proof fn lemma_groups_descending(s: Seq<Card>, lo: int)
    ensures
        forall|i: int| 0 <= i < groups_from(s, lo).len() ==> rank_num(#[trigger] groups_from(s, lo)[i].rank) >= lo,
        forall|i: int, j: int|
            0 <= i <= j < groups_from(s, lo).len() ==> rank_num(#[trigger] groups_from(s, lo)[i].rank)
                >= rank_num(#[trigger] groups_from(s, lo)[j].rank),
    decreases 15 - lo,
{
    if lo < 15 {
        lemma_groups_descending(s, lo + 1);
        let hi = groups_from(s, lo + 1);
        let g = rank_group(s, lo);
        s.lemma_filter_len(has_rank(lo));
        assert forall|i: int| 0 <= i < g.len() implies rank_num(#[trigger] g[i].rank) == lo by {
            s.lemma_filter_pred(has_rank(lo), i);
        }
        assert(groups_from(s, lo) == hi + g);
        assert forall|i: int| 0 <= i < groups_from(s, lo).len() implies rank_num(#[trigger] groups_from(s, lo)[i].rank) >= lo by {
            if i < hi.len() {
                assert(groups_from(s, lo)[i] == hi[i]);
            } else {
                assert(groups_from(s, lo)[i] == g[i - hi.len()]);
            }
        }
        assert forall|i: int, j: int|
            0 <= i <= j < groups_from(s, lo).len() implies rank_num(#[trigger] groups_from(s, lo)[i].rank)
                >= rank_num(#[trigger] groups_from(s, lo)[j].rank) by {
            if j < hi.len() {
                assert(groups_from(s, lo)[i] == hi[i]);
                assert(groups_from(s, lo)[j] == hi[j]);
            } else if i < hi.len() {
                assert(groups_from(s, lo)[i] == hi[i]);
                assert(groups_from(s, lo)[j] == g[j - hi.len()]);
            } else {
                assert(groups_from(s, lo)[i] == g[i - hi.len()]);
                assert(groups_from(s, lo)[j] == g[j - hi.len()]);
            }
        }
    }
}

/// Sorting by rank keeps the cards, only reordered, and puts higher ranks first.
pub proof fn law_sorted_by_rank(s: Seq<Card>)
    ensures
        sorted_by_rank(s).to_multiset() == s.to_multiset(),
        forall|i: int, j: int|
            0 <= i <= j < sorted_by_rank(s).len() ==> rank_num(#[trigger] sorted_by_rank(s)[i].rank)
                >= rank_num(#[trigger] sorted_by_rank(s)[j].rank),
    decreases s.len(),
{
    broadcast use vstd::seq_lib::group_to_multiset_ensures;

    lemma_groups_descending(s, 2);
    if s.len() == 0 {
        assert(sorted_by_rank(s).to_multiset() =~= s.to_multiset()) by {
            lemma_groups_empty(s, 2);
        }
    } else {
        let t = s.drop_last();
        law_sorted_by_rank(t);
        lemma_groups_push(t, s.last(), 2);
        assert(t.push(s.last()) == s);
    }
}

/// The groups of an empty set of cards are empty.
proof fn lemma_groups_empty(s: Seq<Card>, lo: int)
    requires
        s.len() == 0,
    ensures
        groups_from(s, lo) == Seq::<Card>::empty(),
    decreases 15 - lo,
{
    if lo < 15 {
        lemma_groups_empty(s, lo + 1);
        s.lemma_filter_len(has_rank(lo));
        assert(groups_from(s, lo) =~= Seq::<Card>::empty());
    }
}

/// The cards of rank `v` are those of its four suits.
proof fn lemma_rank_count_by_suit(s: Seq<Card>, v: int)
    requires
        2 <= v <= 14,
    ensures
        rank_count(s, v) == s.to_multiset().count(Card { rank: rank_of_num(v), suit: Suit::Hearts })
            + s.to_multiset().count(Card { rank: rank_of_num(v), suit: Suit::Diamonds })
            + s.to_multiset().count(Card { rank: rank_of_num(v), suit: Suit::Clubs })
            + s.to_multiset().count(Card { rank: rank_of_num(v), suit: Suit::Spades }),
    decreases s.len(),
{
    broadcast use vstd::seq_lib::group_to_multiset_ensures, vstd::multiset::group_multiset_axioms;

    if s.len() == 0 {
        s.lemma_filter_len(has_rank(v));
    } else {
        let t = s.drop_last();
        let c = s.last();
        lemma_rank_count_by_suit(t, v);
        assert(t.push(c) == s);
        t.lemma_filter_push(c, has_rank(v));
        if rank_num(c.rank) == v {
            assert(c.rank == rank_of_num(v));
        }
    }
}

/// In a set of cards with no card twice, no rank occurs more than four times.
proof fn lemma_distinct_rank_count(s: Seq<Card>, v: int)
    requires
        s.no_duplicates(),
        2 <= v <= 14,
    ensures
        rank_count(s, v) <= 4,
{
    broadcast use vstd::seq_lib::group_to_multiset_ensures;

    lemma_rank_count_by_suit(s, v);
    s.lemma_multiset_has_no_duplicates();
    let m = s.to_multiset();
    assert forall|c: Card| m.count(c) <= 1 by {
        if m.count(c) > 0 {
            assert(m.contains(c));
        }
    }
    assert(m.count(Card { rank: rank_of_num(v), suit: Suit::Hearts }) <= 1);
    assert(m.count(Card { rank: rank_of_num(v), suit: Suit::Diamonds }) <= 1);
    assert(m.count(Card { rank: rank_of_num(v), suit: Suit::Clubs }) <= 1);
    assert(m.count(Card { rank: rank_of_num(v), suit: Suit::Spades }) <= 1);
}

/// Some rank in `2..=hi` occurs exactly `k` times when the count of such ranks is positive.
proof fn lemma_some_rank_with_count(s: Seq<Card>, k: nat, hi: int)
    requires
        ranks_with_count_upto(s, k, hi) > 0,
    ensures
        exists|v: int| 2 <= v <= hi && #[trigger] rank_count(s, v) == k,
    decreases hi - 1,
{
    if hi >= 2 {
        if rank_count(s, hi) != k {
            lemma_some_rank_with_count(s, k, hi - 1);
        }
    }
}

/// Sorting by rank keeps a set of distinct cards distinct.
proof fn lemma_sorted_distinct(s: Seq<Card>)
    requires
        s.no_duplicates(),
    ensures
        sorted_by_rank(s).no_duplicates(),
{
    broadcast use vstd::seq_lib::group_to_multiset_ensures;

    let sorted = sorted_by_rank(s);
    law_sorted_by_rank(s);
    s.lemma_multiset_has_no_duplicates();
    assert forall|x: Card| sorted.to_multiset().contains(x) implies sorted.to_multiset().count(x) == 1 by {}
    sorted.lemma_multiset_has_no_duplicates_conv();
}

/// Distinct cards, evaluated without wild cards, are never five of a kind.
proof fn lemma_distinct_not_five(s: Seq<Card>)
    requires
        s.no_duplicates(),
    ensures
        standard_evaluation(s).0 != HandRank::FiveOfAKind,
{
    let sorted = sorted_by_rank(s);
    lemma_sorted_distinct(s);
    if counts_pattern(sorted, 1, 0, 0, 0, 0) {
        lemma_some_rank_with_count(sorted, 5, 14);
        let v = choose|v: int| 2 <= v <= 14 && #[trigger] rank_count(sorted, v) == 5;
        lemma_distinct_rank_count(sorted, v);
    }
}

/// Without wild cards, five of a kind needs some card twice: cards that are all
/// different, as dealt from a single deck, never make five of a kind.
pub proof fn law_single_deck_no_five_of_a_kind(hand: Hand, cards: Seq<Card>)
    requires
        cards.no_duplicates(),
        evaluates(hand, cards, Seq::empty()),
    ensures
        hand.rank != HandRank::FiveOfAKind,
{
    let sorted = sorted_by_rank(cards);
    lemma_sorted_distinct(cards);
    law_absent_wild_cards_change_nothing(sorted, Seq::empty());
    assert(wild_evaluation(sorted, Seq::empty()) == standard_evaluation(sorted));
    lemma_distinct_not_five(sorted);
}

/// Appends the cards in notation, separated by single spaces, to `out`.
pub fn push_cards_text(out: &mut String, cards: &Vec<Card>)
    ensures
        final(out)@ == old(out)@ + cards_text(cards@),
{
    let ghost start = out@;
    let mut i: usize = 0;
    while i < cards.len()
        invariant
            i <= cards@.len(),
            out@ == start + cards_text(cards@.take(i as int)),
        decreases cards@.len() - i,
    {
        let ghost before = out@;
        if i > 0 {
            out.append(" ");
        }
        let t = cards[i].text();
        out.append(t.as_str());
        proof {
            let p = cards@.take(i + 1);
            assert(p.drop_last() =~= cards@.take(i as int));
            assert(p.last() == cards@[i as int]);
            if i == 0 {
                assert(cards_text(p) == card_text(cards@[0]));
                assert(cards@.take(0) =~= Seq::<Card>::empty());
            }
            assert(out@ =~= start + cards_text(p));
        }
        i = i + 1;
    }
    assert(cards@.take(i as int) =~= cards@);
}

impl Hand {
    /// The hand in writing: its cards, then its category in brackets.
    pub fn text(&self) -> (t: String)
        ensures
            t@ == hand_text(*self),
    {
        let mut t = String::from_str("");
        proof {
            reveal_strlit("");
        }
        push_cards_text(&mut t, &self.cards);
        t.append(" (");
        t.append(self.rank.name());
        t.append(")");
        assert(t@ =~= hand_text(*self));
        t
    }
}

/// Sets of cards with the same cards have the same rank counts.
proof fn lemma_counts_of_same_cards(x: Seq<Card>, y: Seq<Card>)
    requires
        x.to_multiset() == y.to_multiset(),
    ensures
        forall|v: int| 2 <= v <= 14 ==> #[trigger] rank_count(x, v) == rank_count(y, v),
{
    assert forall|v: int| 2 <= v <= 14 implies #[trigger] rank_count(x, v) == rank_count(y, v) by {
        lemma_rank_count_by_suit(x, v);
        lemma_rank_count_by_suit(y, v);
    }
}

/// With equal rank counts, the groups of ranks `lo` and up have the same length and
/// the same rank at every position.
proof fn lemma_groups_match(x: Seq<Card>, y: Seq<Card>, lo: int)
    requires
        2 <= lo,
        forall|v: int| 2 <= v <= 14 ==> #[trigger] rank_count(x, v) == rank_count(y, v),
    ensures
        groups_from(x, lo).len() == groups_from(y, lo).len(),
        forall|i: int|
            0 <= i < groups_from(x, lo).len() ==> (#[trigger] groups_from(x, lo)[i]).rank
                == groups_from(y, lo)[i].rank,
    decreases 15 - lo,
{
    broadcast use vstd::seq_lib::group_filter_ensures;

    if lo < 15 {
        lemma_groups_match(x, y, lo + 1);
        let hx = groups_from(x, lo + 1);
        let hy = groups_from(y, lo + 1);
        let gx = rank_group(x, lo);
        let gy = rank_group(y, lo);
        assert(groups_from(x, lo) == hx + gx);
        assert(groups_from(y, lo) == hy + gy);
        assert(rank_count(x, lo) == rank_count(y, lo));
        assert forall|i: int| 0 <= i < groups_from(x, lo).len() implies (#[trigger] groups_from(x, lo)[i]).rank
            == groups_from(y, lo)[i].rank by {
            if i < hx.len() {
                assert(groups_from(x, lo)[i] == hx[i]);
                assert(groups_from(y, lo)[i] == hy[i]);
            } else {
                let k = i - hx.len();
                assert(groups_from(x, lo)[i] == gx[k]);
                assert(groups_from(y, lo)[i] == gy[k]);
                assert(has_rank(lo)(gx[k]));
                assert(has_rank(lo)(gy[k]));
                assert(rank_of_num(rank_num(gx[k].rank)) == gx[k].rank);
                assert(rank_of_num(rank_num(gy[k].rank)) == gy[k].rank);
            }
        }
    }
}

/// With equal rank counts, the counts of ranks with a given count agree.
proof fn lemma_ranks_with_count_match(x: Seq<Card>, y: Seq<Card>, k: nat, hi: int)
    requires
        hi <= 14,
        forall|v: int| 2 <= v <= 14 ==> #[trigger] rank_count(x, v) == rank_count(y, v),
    ensures
        ranks_with_count_upto(x, k, hi) == ranks_with_count_upto(y, k, hi),
        highest_with_count_upto(x, k, hi) == highest_with_count_upto(y, k, hi),
    decreases hi - 1,
{
    if hi >= 2 {
        lemma_ranks_with_count_match(x, y, k, hi - 1);
        assert(rank_count(x, hi) == rank_count(y, hi));
    }
}

/// With equal rank counts, the lowest rank with a given count agrees.
proof fn lemma_lowest_match(x: Seq<Card>, y: Seq<Card>, k: nat, lo: int)
    requires
        2 <= lo,
        forall|v: int| 2 <= v <= 14 ==> #[trigger] rank_count(x, v) == rank_count(y, v),
    ensures
        lowest_with_count_from(x, k, lo) == lowest_with_count_from(y, k, lo),
    decreases 15 - lo,
{
    if lo <= 14 {
        lemma_lowest_match(x, y, k, lo + 1);
        assert(rank_count(x, lo) == rank_count(y, lo));
    }
}

/// Five cards lead with five of one suit exactly when all five share a suit.
proof fn lemma_five_suited_same_cards(x: Seq<Card>, y: Seq<Card>)
    requires
        x.len() == 5,
        x.to_multiset() == y.to_multiset(),
    ensures
        five_suited(x) == five_suited(y),
{
    broadcast use vstd::seq_lib::group_to_multiset_ensures;

    assert(y.len() == 5) by {
        assert(x.len() == x.to_multiset().len());
        assert(y.len() == y.to_multiset().len());
    }
    if five_suited(x) {
        lemma_suited_one_way(x, y);
    }
    if five_suited(y) {
        lemma_suited_one_way(y, x);
    }
}

proof fn lemma_suited_one_way(x: Seq<Card>, y: Seq<Card>)
    requires
        x.len() == 5,
        y.len() == 5,
        x.to_multiset() == y.to_multiset(),
        five_suited(x),
    ensures
        five_suited(y),
{
    broadcast use vstd::seq_lib::group_to_multiset_ensures;

    assert forall|i: int| 0 <= i < 5 implies #[trigger] y[i].suit == y[0].suit by {
        assert(y.contains(y[i]));
        assert(y.contains(y[0]));
        assert(x.to_multiset().count(y[i]) > 0);
        assert(x.to_multiset().count(y[0]) > 0);
        assert(x.contains(y[i]));
        assert(x.contains(y[0]));
        let a = choose|a: int| 0 <= a < x.len() && x[a] == y[i];
        let b = choose|b: int| 0 <= b < x.len() && x[b] == y[0];
        assert(x[a].suit == x[0].suit);
        assert(x[b].suit == x[0].suit);
    }
}

/// Five cards are evaluated the same whatever order they come in.
pub proof fn law_five_card_order_irrelevant(a: Seq<Card>, b: Seq<Card>)
    requires
        a.len() == 5,
        a.to_multiset() == b.to_multiset(),
    ensures
        standard_evaluation(a) == standard_evaluation(b),
{
    broadcast use vstd::seq_lib::group_to_multiset_ensures;

    let sa = sorted_by_rank(a);
    let sb = sorted_by_rank(b);
    law_sorted_by_rank(a);
    law_sorted_by_rank(b);
    assert(sa.len() == 5) by {
        assert(sa.len() == sa.to_multiset().len());
    }
    lemma_counts_of_same_cards(a, b);
    lemma_groups_match(a, b, 2);
    lemma_counts_of_same_cards(sa, sb);
    lemma_five_suited_same_cards(sa, sb);
    lemma_ranks_with_count_match(sa, sb, 1, 14);
    lemma_ranks_with_count_match(sa, sb, 2, 14);
    lemma_ranks_with_count_match(sa, sb, 3, 14);
    lemma_ranks_with_count_match(sa, sb, 4, 14);
    lemma_ranks_with_count_match(sa, sb, 5, 14);
    lemma_lowest_match(sa, sb, 2, 2);
    assert(has_straight(sa) == has_straight(sb)) by {
        assert forall|v: int| 2 <= v <= 14 implies #[trigger] holds_rank(sa, v) == holds_rank(sb, v) by {
            assert(rank_count(sa, v) == rank_count(sb, v));
        }
        if exists|top: int| 6 <= top <= 14 && #[trigger] run_of_five(sa, top) {
            let top = choose|top: int| 6 <= top <= 14 && #[trigger] run_of_five(sa, top);
            assert forall|j: int| 0 <= j < 5 implies #[trigger] holds_rank(sb, top - j) by {
                assert(holds_rank(sa, top - j));
            }
            assert(run_of_five(sb, top));
        }
        if exists|top: int| 6 <= top <= 14 && #[trigger] run_of_five(sb, top) {
            let top = choose|top: int| 6 <= top <= 14 && #[trigger] run_of_five(sb, top);
            assert forall|j: int| 0 <= j < 5 implies #[trigger] holds_rank(sa, top - j) by {
                assert(holds_rank(sb, top - j));
            }
            assert(run_of_five(sa, top));
        }
    }
    assert(sa[0].rank == sb[0].rank);
    assert(sa[1].rank == sb[1].rank);
    assert(top_value(sa) == top_value(sb));
    assert forall|c1: nat, c2: nat, c3: nat, c4: nat, c5: nat|
        counts_pattern(sa, c1, c2, c3, c4, c5) == counts_pattern(sb, c1, c2, c3, c4, c5) by {
        assert forall|v: int| 2 <= v <= 14 implies #[trigger] rank_count(sa, v) == rank_count(sb, v) by {}
    }
}

/// Filtering keeps every copy of the elements that pass, and nothing else.
proof fn lemma_filter_counts(s: Seq<Card>, pred: spec_fn(Card) -> bool, x: Card)
    ensures
        s.filter(pred).to_multiset().count(x) == if pred(x) {
            s.to_multiset().count(x)
        } else {
            0
        },
    decreases s.len(),
{
    broadcast use vstd::seq_lib::group_to_multiset_ensures, vstd::multiset::group_multiset_axioms;

    if s.len() == 0 {
        s.lemma_filter_len(pred);
        assert(s.filter(pred).len() == 0);
        assert(s.filter(pred).to_multiset().len() == 0);
    } else {
        let t = s.drop_last();
        lemma_filter_counts(t, pred, x);
        assert(t.push(s.last()) == s);
        t.lemma_filter_push(s.last(), pred);
    }
}

/// Filtering sets with the same elements gives sets with the same elements.
proof fn lemma_filter_same_cards(x: Seq<Card>, y: Seq<Card>, pred: spec_fn(Card) -> bool)
    requires
        x.to_multiset() == y.to_multiset(),
    ensures
        x.filter(pred).to_multiset() == y.filter(pred).to_multiset(),
{
    assert forall|c: Card| x.filter(pred).to_multiset().count(c) == y.filter(pred).to_multiset().count(c) by {
        lemma_filter_counts(x, pred, c);
        lemma_filter_counts(y, pred, c);
    }
    assert(x.filter(pred).to_multiset() =~= y.filter(pred).to_multiset());
}

/// A five-card hand's category and rank values do not depend on the order in which
/// its cards are given, wild cards or not.
pub proof fn law_hand_ignores_card_order(
    h1: Hand,
    h2: Hand,
    a: Seq<Card>,
    b: Seq<Card>,
    wilds: Seq<Card>,
)
    requires
        a.len() == 5,
        a.to_multiset() == b.to_multiset(),
        evaluates(h1, a, wilds),
        evaluates(h2, b, wilds),
    ensures
        h1.rank == h2.rank,
        h1.rank_values@ == h2.rank_values@,
        h1.cards@.to_multiset() == a.to_multiset(),
{
    broadcast use vstd::seq_lib::group_to_multiset_ensures;

    let sa = sorted_by_rank(a);
    let sb = sorted_by_rank(b);
    law_sorted_by_rank(a);
    law_sorted_by_rank(b);
    let keep = not_wild(wilds);
    let ka = sa.filter(keep);
    let kb = sb.filter(keep);
    lemma_filter_same_cards(sa, sb, keep);
    assert(sa.len() == sa.to_multiset().len());
    assert(sb.len() == sb.to_multiset().len());
    assert(ka.len() == ka.to_multiset().len());
    assert(kb.len() == kb.to_multiset().len());
    let n = sa.len() - ka.len();
    lemma_filter_len_bound(sa, keep);
    lemma_best_same_cards(ka, kb, n as nat);
}

/// Filtering never lengthens a list.
proof fn lemma_filter_len_bound(s: Seq<Card>, pred: spec_fn(Card) -> bool)
    ensures
        s.filter(pred).len() <= s.len(),
{
    s.lemma_filter_len(pred);
}

/// Lists with the same cards that wild cards fill up to five cards have the same
/// best evaluation.
proof fn lemma_best_same_cards(x: Seq<Card>, y: Seq<Card>, n: nat)
    requires
        x.to_multiset() == y.to_multiset(),
        x.len() + n == 5,
    ensures
        best_with_wilds(x, n) == best_with_wilds(y, n),
    decreases n, 53nat,
{
    if n == 0 {
        law_five_card_order_irrelevant(x, y);
    } else {
        lemma_best_choice_same_cards(x, y, n, 52);
    }
}

/// The same, for the first wild card standing for one of the first `m` cards.
proof fn lemma_best_choice_same_cards(x: Seq<Card>, y: Seq<Card>, n: nat, m: nat)
    requires
        x.to_multiset() == y.to_multiset(),
        x.len() + n == 5,
        n > 0,
        m <= 52,
    ensures
        best_choice_upto(x, n, m) == best_choice_upto(y, n, m),
    decreases n, m,
{
    broadcast use vstd::seq_lib::group_to_multiset_ensures;

    let c = fresh_deck()[if m <= 1 { 0 } else { m - 1 }];
    assert(x.push(c).to_multiset() == y.push(c).to_multiset());
    lemma_best_same_cards(x.push(c), y.push(c), (n - 1) as nat);
    if m > 1 {
        lemma_best_choice_same_cards(x, y, n, (m - 1) as nat);
    }
}

/// The order of rank values is strict and total: no list is above itself, of two
/// different lists exactly one is above the other, and it is transitive.
proof fn lemma_values_order(x: Seq<u8>, y: Seq<u8>, z: Seq<u8>)
    ensures
        !values_above(x, x),
        values_above(x, y) ==> !values_above(y, x),
        x != y ==> values_above(x, y) || values_above(y, x),
        values_above(x, y) && values_above(y, z) ==> values_above(x, z),
    decreases x.len(),
{
    if x.len() > 0 {
        lemma_values_order(x.drop_first(), x.drop_first(), x.drop_first());
        if y.len() > 0 {
            if z.len() > 0 {
                lemma_values_order(x.drop_first(), y.drop_first(), z.drop_first());
            } else {
                lemma_values_order(x.drop_first(), y.drop_first(), y.drop_first());
            }
            if x != y && x[0] == y[0] {
                assert(x.drop_first() != y.drop_first()) by {
                    if x.drop_first() == y.drop_first() {
                        assert(x =~= seq![x[0]] + x.drop_first());
                        assert(y =~= seq![y[0]] + y.drop_first());
                    }
                }
            }
        }
    } else {
        if y.len() == 0 {
            assert(x =~= y);
        }
    }
}

/// Evaluations are ordered strictly and totally by `outranks`.
proof fn lemma_outranks_order(a: (HandRank, Seq<u8>), b: (HandRank, Seq<u8>), c: (HandRank, Seq<u8>))
    ensures
        !outranks(a, a),
        outranks(a, b) ==> !outranks(b, a),
        a != b ==> outranks(a, b) || outranks(b, a),
        outranks(a, b) && outranks(b, c) ==> outranks(a, c),
{
    lemma_values_order(a.1, b.1, c.1);
    lemma_values_order(a.1, a.1, a.1);
    lemma_values_order(b.1, a.1, a.1);
    if a != b && level(a.0) == level(b.0) {
        assert(a.0 == b.0);
        assert(a.1 != b.1);
    }
}

/// `a` is at least as good as `b` and `b` as `c`, so `a` is at least as good as `c`.
proof fn lemma_at_least_trans(a: (HandRank, Seq<u8>), b: (HandRank, Seq<u8>), c: (HandRank, Seq<u8>))
    requires
        !outranks(b, a),
        !outranks(c, b),
    ensures
        !outranks(c, a),
{
    lemma_outranks_order(c, a, b);
    lemma_outranks_order(a, b, c);
    lemma_outranks_order(c, b, a);
}

/// The best over the first `m` choices is at least as good as each of them, and is one
/// of them.
proof fn lemma_best_choice_bounds(cards: Seq<Card>, n: nat, m: nat)
    requires
        n > 0,
        1 <= m <= 52,
    ensures
        forall|i: int|
            0 <= i < m ==> !outranks(
                #[trigger] best_with_wilds(cards.push(fresh_deck()[i]), (n - 1) as nat),
                best_choice_upto(cards, n, m),
            ),
        exists|i: int|
            0 <= i < m && best_choice_upto(cards, n, m) == #[trigger] best_with_wilds(
                cards.push(fresh_deck()[i]),
                (n - 1) as nat,
            ),
    decreases m,
{
    let top = best_choice_upto(cards, n, m);
    if m == 1 {
        lemma_outranks_order(top, top, top);
        assert(top == best_with_wilds(cards.push(fresh_deck()[0]), (n - 1) as nat));
    } else {
        lemma_best_choice_bounds(cards, n, (m - 1) as nat);
        let prev = best_choice_upto(cards, n, (m - 1) as nat);
        let last = best_with_wilds(cards.push(fresh_deck()[m - 1]), (n - 1) as nat);
        lemma_outranks_order(prev, last, last);
        lemma_outranks_order(last, prev, prev);
        assert forall|i: int|
            0 <= i < m implies !outranks(
                #[trigger] best_with_wilds(cards.push(fresh_deck()[i]), (n - 1) as nat),
                top,
            ) by {
            if i < m - 1 {
                lemma_at_least_trans(top, prev, best_with_wilds(cards.push(fresh_deck()[i]), (n - 1) as nat));
            }
        }
        if outranks(last, prev) {
            assert(top == best_with_wilds(cards.push(fresh_deck()[m - 1]), (n - 1) as nat));
        } else {
            let i = choose|i: int|
                0 <= i < m - 1 && prev == #[trigger] best_with_wilds(
                    cards.push(fresh_deck()[i]),
                    (n - 1) as nat,
                );
            assert(top == best_with_wilds(cards.push(fresh_deck()[i]), (n - 1) as nat));
        }
    }
}

/// Wild cards take the best values: no choice of the cards that `ws.len()` wild cards
/// stand for evaluates better than the evaluation with those wild cards.
pub proof fn law_wild_cards_take_the_best(cards: Seq<Card>, ws: Seq<Card>)
    ensures
        !outranks(standard_evaluation(cards + ws), best_with_wilds(cards, ws.len())),
    decreases ws.len(),
{
    if ws.len() == 0 {
        assert(cards + ws =~= cards);
        lemma_outranks_order(standard_evaluation(cards), standard_evaluation(cards), standard_evaluation(cards));
    } else {
        let n = ws.len();
        let c = ws[0];
        let rest = ws.drop_first();
        law_wild_cards_take_the_best(cards.push(c), rest);
        assert(cards.push(c) + rest =~= cards + ws);
        lemma_card_in_fresh_deck(c);
        lemma_best_choice_bounds(cards, n, 52);
        let k = deck_position(c);
        assert(best_with_wilds(cards.push(fresh_deck()[k]), (n - 1) as nat) == best_with_wilds(
            cards.push(c),
            rest.len(),
        ));
        lemma_at_least_trans(
            best_with_wilds(cards, n),
            best_with_wilds(cards.push(c), rest.len()),
            standard_evaluation(cards + ws),
        );
    }
}

/// The best value of the wild cards is reached: some choice of the cards they stand for
/// gives exactly the evaluation with wild cards.
pub proof fn law_best_wild_value_is_reached(cards: Seq<Card>, n: nat)
    ensures
        exists|ws: Seq<Card>|
            ws.len() == n && #[trigger] standard_evaluation(cards + ws) == best_with_wilds(cards, n),
    decreases n,
{
    if n == 0 {
        assert(cards + Seq::<Card>::empty() =~= cards);
        assert(standard_evaluation(cards + Seq::<Card>::empty()) == best_with_wilds(cards, n));
    } else {
        lemma_best_choice_bounds(cards, n, 52);
        let i = choose|i: int|
            0 <= i < 52 && best_choice_upto(cards, n, 52) == #[trigger] best_with_wilds(
                cards.push(fresh_deck()[i]),
                (n - 1) as nat,
            );
        let c = fresh_deck()[i];
        law_best_wild_value_is_reached(cards.push(c), (n - 1) as nat);
        let rest = choose|ws: Seq<Card>|
            ws.len() == n - 1 && #[trigger] standard_evaluation(cards.push(c) + ws) == best_with_wilds(
                cards.push(c),
                (n - 1) as nat,
            );
        let ws = seq![c] + rest;
        assert(cards.push(c) + rest =~= cards + ws);
        assert(standard_evaluation(cards + ws) == best_with_wilds(cards, n));
    }
}

/// Filtering a list whose elements all pass keeps it whole.
proof fn lemma_filter_keeps_all(s: Seq<Card>, pred: spec_fn(Card) -> bool)
    requires
        forall|i: int| 0 <= i < s.len() ==> pred(#[trigger] s[i]),
    ensures
        s.filter(pred) == s,
    decreases s.len(),
{
    reveal(Seq::filter);
    if s.len() > 0 {
        let t = s.drop_last();
        assert forall|i: int| 0 <= i < t.len() implies pred(#[trigger] t[i]) by {
            assert(t[i] == s[i]);
        }
        lemma_filter_keeps_all(t, pred);
        assert(pred(s[s.len() - 1]));
        assert(t.push(s.last()) =~= s);
    }
}

/// No cards make a bare high card with no values, whatever cards are wild.
pub proof fn law_no_cards_make_a_bare_high_card(wilds: Seq<Card>)
    ensures
        wild_evaluation(Seq::<Card>::empty(), wilds) == (HandRank::HighCard, Seq::<u8>::empty()),
{
    broadcast use vstd::seq_lib::group_to_multiset_ensures;

    let none = Seq::<Card>::empty();
    law_absent_wild_cards_change_nothing(none, wilds);
    law_sorted_by_rank(none);
    let sorted = sorted_by_rank(none);
    assert(sorted.to_multiset().len() == 0);
    assert(sorted =~= none);
    assert forall|v: int| #[trigger] rank_count(none, v) == 0 by {
        reveal(Seq::filter);
    }
    assert forall|k: nat| 1 <= k implies #[trigger] ranks_with_count(none, k) == 0 by {
        if ranks_with_count(none, k) > 0 {
            lemma_some_rank_with_count(none, k, 14);
        }
    }
    assert(ranks_with_count(none, 5) == 0);
    assert(ranks_with_count(none, 4) == 0);
    assert(ranks_with_count(none, 3) == 0);
    assert(ranks_with_count(none, 2) == 0);
}

/// Wild cards that are not in the hand change nothing: the evaluation is the plain one.
pub proof fn law_absent_wild_cards_change_nothing(cards: Seq<Card>, wilds: Seq<Card>)
    requires
        forall|i: int| 0 <= i < cards.len() ==> !wilds.contains(#[trigger] cards[i]),
    ensures
        wild_evaluation(cards, wilds) == standard_evaluation(cards),
{
    lemma_filter_keeps_all(cards, not_wild(wilds));
}

/// Marking cards wild never lowers a five-card hand: a wild card may always stand for
/// itself, so the hand with wild cards is at least as good, category first, as the
/// same hand without them.
pub proof fn law_wild_cards_never_lower_a_hand(
    plain: Hand,
    wild: Hand,
    cards: Seq<Card>,
    wilds: Seq<Card>,
)
    requires
        cards.len() == 5,
        evaluates(plain, cards, Seq::empty()),
        evaluates(wild, cards, wilds),
    ensures
        !outranks((plain.rank, plain.rank_values@), (wild.rank, wild.rank_values@)),
        level(wild.rank) >= level(plain.rank),
{
    broadcast use vstd::seq_lib::group_to_multiset_ensures, vstd::multiset::group_multiset_axioms;

    let s = sorted_by_rank(cards);
    law_sorted_by_rank(cards);
    assert(s.len() == s.to_multiset().len());
    law_absent_wild_cards_change_nothing(s, Seq::empty());
    let keep = not_wild(wilds);
    let drop = |c: Card| wilds.contains(c);
    let kept = s.filter(keep);
    let removed = s.filter(drop);
    assert(kept.to_multiset().add(removed.to_multiset()) =~= s.to_multiset()) by {
        assert forall|c: Card| #[trigger] kept.to_multiset().add(removed.to_multiset()).count(c)
            == s.to_multiset().count(c) by {
            lemma_filter_counts(s, keep, c);
            lemma_filter_counts(s, drop, c);
        }
    }
    assert(kept.len() == kept.to_multiset().len());
    assert(removed.len() == removed.to_multiset().len());
    let n = (s.len() - kept.len()) as nat;
    assert(removed.len() == n);
    law_wild_cards_take_the_best(kept, removed);
    vstd::seq_lib::lemma_multiset_commutative(kept, removed);
    law_five_card_order_irrelevant(kept + removed, s);
    assert(standard_evaluation(kept + removed) == standard_evaluation(s));
}

/// One of `cards` has rank value `v`.
pub open spec fn dealt_rank(cards: Seq<Card>, v: int) -> bool {
    exists|k: int| 0 <= k < cards.len() && rank_num(#[trigger] cards[k].rank) == v
}

/// `cards` hold the five consecutive ranks from `top - 4` up to `top`.
pub open spec fn dealt_run(cards: Seq<Card>, top: int) -> bool {
    forall|v: int| top - 4 <= v <= top ==> #[trigger] dealt_rank(cards, v)
}

/// A rank that a reordering of `cards` holds is the rank of one of `cards`.
proof fn lemma_held_rank_is_dealt(s: Seq<Card>, cards: Seq<Card>, v: int)
    requires
        s.to_multiset() == cards.to_multiset(),
        holds_rank(s, v),
    ensures
        dealt_rank(cards, v),
{
    broadcast use vstd::seq_lib::to_multiset_contains;

    let g = s.filter(has_rank(v));
    assert(rank_group(s, v) == g);
    assert(g.len() > 0);
    s.lemma_filter_pred(has_rank(v), 0);
    let c = g[0];
    assert(g.contains(c));
    s.lemma_filter_contains_rev(has_rank(v), c);
    assert(s.contains(c));
    assert(s.to_multiset().count(c) > 0);
    assert(cards.to_multiset().count(c) > 0);
    assert(cards.contains(c));
    let k = choose|k: int| 0 <= k < cards.len() && cards[k] == c;
    assert(rank_num(cards[k].rank) == v);
}

/// Cards evaluated without wild cards make a straight, a straight flush or a royal flush
/// only when they hold five consecutive ranks, or the ace, five, four, three and deuce.
pub proof fn law_straights_are_runs(hand: Hand, cards: Seq<Card>)
    requires
        evaluates(hand, cards, Seq::empty()),
        hand.rank == HandRank::Straight || hand.rank == HandRank::StraightFlush || hand.rank
            == HandRank::RoyalFlush,
    ensures
        (exists|top: int| 6 <= top <= 14 && #[trigger] dealt_run(cards, top)) || (
        dealt_rank(cards, 14) && dealt_rank(cards, 5) && dealt_rank(cards, 4) && dealt_rank(
            cards,
            3,
        ) && dealt_rank(cards, 2)),
{
    let s1 = sorted_by_rank(cards);
    let s2 = sorted_by_rank(s1);
    law_sorted_by_rank(cards);
    law_sorted_by_rank(s1);
    law_absent_wild_cards_change_nothing(s1, Seq::empty());
    assert(wild_evaluation(s1, Seq::empty()) == standard_evaluation(s1));
    assert(has_straight(s2));
    assert(s2.to_multiset() == cards.to_multiset());
    if exists|top: int| 6 <= top <= 14 && #[trigger] run_of_five(s2, top) {
        let top = choose|top: int| 6 <= top <= 14 && #[trigger] run_of_five(s2, top);
        assert forall|v: int| top - 4 <= v <= top implies #[trigger] dealt_rank(cards, v) by {
            assert(holds_rank(s2, top - (top - v)));
            lemma_held_rank_is_dealt(s2, cards, v);
        }
        assert(dealt_run(cards, top));
    } else {
        lemma_held_rank_is_dealt(s2, cards, 14);
        lemma_held_rank_is_dealt(s2, cards, 5);
        lemma_held_rank_is_dealt(s2, cards, 4);
        lemma_held_rank_is_dealt(s2, cards, 3);
        lemma_held_rank_is_dealt(s2, cards, 2);
    }
}

/// A rank that one of `cards` has is held by any reordering of `cards`.
proof fn lemma_dealt_rank_is_held(s: Seq<Card>, cards: Seq<Card>, v: int)
    requires
        s.to_multiset() == cards.to_multiset(),
        dealt_rank(cards, v),
    ensures
        holds_rank(s, v),
{
    broadcast use vstd::seq_lib::to_multiset_contains;

    let k = choose|k: int| 0 <= k < cards.len() && rank_num(#[trigger] cards[k].rank) == v;
    let c = cards[k];
    assert(cards.contains(c));
    assert(s.to_multiset().count(c) > 0);
    assert(s.contains(c));
    let m = choose|m: int| 0 <= m < s.len() && s[m] == c;
    s.lemma_filter_contains(has_rank(v), m);
    assert(rank_group(s, v).len() > 0);
}

/// Five or more cards that hold five consecutive ranks, or the ace, five, four, three
/// and deuce, evaluate without wild cards to a straight or better.
pub proof fn law_runs_are_at_least_straights(hand: Hand, cards: Seq<Card>)
    requires
        evaluates(hand, cards, Seq::empty()),
        cards.len() >= 5,
        (exists|top: int| 6 <= top <= 14 && #[trigger] dealt_run(cards, top)) || (dealt_rank(
            cards,
            14,
        ) && dealt_rank(cards, 5) && dealt_rank(cards, 4) && dealt_rank(cards, 3) && dealt_rank(
            cards,
            2,
        )),
    ensures
        level(hand.rank) >= level(HandRank::Straight),
{
    broadcast use vstd::seq_lib::group_to_multiset_ensures;

    let s1 = sorted_by_rank(cards);
    let s2 = sorted_by_rank(s1);
    law_sorted_by_rank(cards);
    law_sorted_by_rank(s1);
    law_absent_wild_cards_change_nothing(s1, Seq::empty());
    assert(wild_evaluation(s1, Seq::empty()) == standard_evaluation(s1));
    assert(s2.to_multiset() == cards.to_multiset());
    assert(s2.to_multiset().len() == s2.len());
    assert(cards.to_multiset().len() == cards.len());
    assert(s2.len() == cards.len());
    if exists|top: int| 6 <= top <= 14 && #[trigger] dealt_run(cards, top) {
        let top = choose|top: int| 6 <= top <= 14 && #[trigger] dealt_run(cards, top);
        assert forall|j: int| 0 <= j < 5 implies #[trigger] holds_rank(s2, top - j) by {
            assert(dealt_rank(cards, top - j));
            lemma_dealt_rank_is_held(s2, cards, top - j);
        }
        assert(run_of_five(s2, top));
    } else {
        lemma_dealt_rank_is_held(s2, cards, 14);
        lemma_dealt_rank_is_held(s2, cards, 5);
        lemma_dealt_rank_is_held(s2, cards, 4);
        lemma_dealt_rank_is_held(s2, cards, 3);
        lemma_dealt_rank_is_held(s2, cards, 2);
    }
    assert(has_straight(s2));
}

} // verus!
