//! The dealer: seats the players, deals hands from a shuffled shoe, evaluates them
//! and names the winners.

use vstd::prelude::*;
use vstd::multiset::Multiset;
use crate::card::Card;
use crate::deck::{Deck, fresh_shoe, lemma_fresh_shoe_len};
use crate::hand::{HandRank, cards_text, combos, level, push_cards_text};
use crate::player::{
    Player, category, holds_best_hand, law_a_possible_split_gives_a_hand,
    law_best_hand_beats_every_split, player_text,
};
use crate::text::{decimal, push_decimal};
use crate::rules::{GameRules, law_valid_rules_allow_a_hand, rules_check};

verus! {

/// A table playing hands under fixed rules.
#[derive(Debug)]
pub struct PokerSimulator {
    pub players: Vec<Player>,
    pub community_cards: Vec<Card>,
    pub rules: GameRules,
    /// The shoe the hand is dealt from.
    pub deck: Deck,
}

/// How many of the deals `q`, `q + np`, `q + 2 np`, ... (the first `rounds` of them)
/// fall within a shoe of `total` cards.
pub open spec fn dealt_count(total: int, np: int, q: int, rounds: int) -> nat
    decreases rounds,
{
    if rounds <= 0 {
        0
    } else {
        dealt_count(total, np, q, rounds - 1) + if (rounds - 1) * np + q < total {
            1nat
        } else {
            0nat
        }
    }
}

/// The hole cards that seat `q` of `np` receives when `rounds` rounds are dealt
/// one card at a time around the table from the end of `shoe`: the cards number
/// `q`, `q + np`, `q + 2 np`, ... counted from the end, while the shoe lasts.
pub open spec fn dealt_to(shoe: Seq<Card>, np: int, rounds: int, q: int) -> Seq<Card> {
    Seq::new(
        dealt_count(shoe.len() as int, np, q, rounds),
        |j: int| shoe[shoe.len() - 1 - (j * np + q)],
    )
}

/// What is left of `shoe` after `n` cards were dealt from its end.
pub open spec fn after_dealing(shoe: Seq<Card>, n: int) -> Seq<Card> {
    if n < shoe.len() {
        shoe.take(shoe.len() - n)
    } else {
        Seq::empty()
    }
}

/// The cards that `n` deals take from the end of `shoe`, in the order dealt.
pub open spec fn dealt_run(shoe: Seq<Card>, n: int) -> Seq<Card> {
    let k = if n < shoe.len() { n } else { shoe.len() as int };
    Seq::new(k as nat, |i: int| shoe[shoe.len() - 1 - i])
}

/// The table `after` results from clearing the board and every hand at a table seated
/// as `before`, then dealing `rules.hole_cards_per_player` rounds of hole cards from
/// the end of `shoe`, one card to each seat in turn.
pub open spec fn holes_dealt(
    before: Seq<Player>,
    rules: GameRules,
    shoe: Seq<Card>,
    after: PokerSimulator,
) -> bool {
    let np = before.len() as int;
    let rounds = rules.hole_cards_per_player as int;
    &&& after.rules == rules
    &&& after.community_cards@ == Seq::<Card>::empty()
    &&& after.players@.len() == np
    &&& forall|q: int|
        0 <= q < np ==> {
            &&& (#[trigger] after.players@[q]).id == before[q].id
            &&& after.players@[q].best_hand is None
            &&& after.players@[q].hole_cards@ == dealt_to(shoe, np, rounds, q)
        }
    &&& after.deck@ == after_dealing(shoe, rounds * np)
}

/// While the last of the first `r` deals to seat `q` is within the shoe, all of
/// them are.
proof fn lemma_dealt_count_full(total: int, np: int, q: int, r: int)
    requires
        0 <= q,
        0 <= np,
        0 <= r,
        r > 0 ==> (r - 1) * np + q < total,
    ensures
        dealt_count(total, np, q, r) == r,
    decreases r,
{
    if r > 1 {
        assert((r - 2) * np + q < total) by (nonlinear_arith)
            requires (r - 1) * np + q < total, 0 <= np, r > 1;
        lemma_dealt_count_full(total, np, q, r - 1);
    } else if r == 1 {
        lemma_dealt_count_full(total, np, q, 0);
    }
}

/// The table `after` results from playing one hand at a table seated as `before`
/// with the shoe `shoe`: hole cards dealt as [`holes_dealt`] says, then
/// `rules.community_cards` board cards from what is left of the shoe, then every
/// player's best hand found.
pub open spec fn hand_played(
    before: Seq<Player>,
    rules: GameRules,
    shoe: Seq<Card>,
    after: PokerSimulator,
) -> bool {
    let np = before.len() as int;
    let rounds = rules.hole_cards_per_player as int;
    let rest = after_dealing(shoe, rounds * np);
    &&& after.rules == rules
    &&& after.community_cards@ == dealt_run(rest, rules.community_cards as int)
    &&& after.deck@ == after_dealing(rest, rules.community_cards as int)
    &&& after.players@.len() == np
    &&& forall|q: int|
        0 <= q < np ==> {
            &&& (#[trigger] after.players@[q]).id == before[q].id
            &&& after.players@[q].hole_cards@ == dealt_to(shoe, np, rounds, q)
            &&& holds_best_hand(
                after.players@[q],
                after.community_cards@,
                rules.wild_cards@,
                rules.hole_cards_to_play@.start as int,
                rules.hole_cards_to_play@.end as int,
            )
        }
}

/// The strength of a player's hand; -1 without one.
pub open spec fn hand_level(p: Player) -> int {
    match p.best_hand {
        Some(h) => level(h.rank),
        None => -1,
    }
}

/// The strength of the best hand among `ps`, and at least that of a high card.
pub open spec fn top_level(ps: Seq<Player>) -> int
    decreases ps.len(),
{
    if ps.len() == 0 {
        0
    } else {
        let t = top_level(ps.drop_last());
        if hand_level(ps.last()) > t {
            hand_level(ps.last())
        } else {
            t
        }
    }
}

/// Holds of the players whose hand has strength `top`.
pub open spec fn has_level(top: int) -> spec_fn(Player) -> bool {
    |p: Player| p.best_hand is Some && hand_level(p) == top
}

/// The players, in seating order, whose hand is as strong as the best at the table.
pub open spec fn winners(ps: Seq<Player>) -> Seq<Player> {
    ps.filter(has_level(top_level(ps)))
}

/// The categories of the players' hands, in seating order, skipping players without one.
pub open spec fn hand_types(ps: Seq<Player>) -> Seq<HandRank>
    decreases ps.len(),
{
    if ps.len() == 0 {
        Seq::empty()
    } else {
        let t = hand_types(ps.drop_last());
        match ps.last().best_hand {
            Some(h) => t.push(h.rank),
            None => t,
        }
    }
}

/// No player of `ps` has a hand stronger than `top_level(ps)`.
proof fn lemma_top_level_bounds(ps: Seq<Player>)
    ensures
        top_level(ps) >= 0,
        forall|i: int| 0 <= i < ps.len() ==> hand_level(#[trigger] ps[i]) <= top_level(ps),
    decreases ps.len(),
{
    if ps.len() > 0 {
        lemma_top_level_bounds(ps.drop_last());
        assert forall|i: int| 0 <= i < ps.len() implies hand_level(#[trigger] ps[i]) <= top_level(ps) by {
            if i < ps.len() - 1 {
                assert(ps[i] == ps.drop_last()[i]);
            }
        }
    }
}

/// Filtering by a property that no element has leaves nothing.
proof fn lemma_filter_none(ps: Seq<Player>, pred: spec_fn(Player) -> bool)
    requires
        forall|i: int| 0 <= i < ps.len() ==> !pred(#[trigger] ps[i]),
    ensures
        ps.filter(pred) == Seq::<Player>::empty(),
    decreases ps.len(),
{
    reveal(Seq::filter);
    if ps.len() > 0 {
        assert forall|i: int| 0 <= i < ps.drop_last().len() implies !pred(#[trigger] ps.drop_last()[i]) by {
            assert(ps.drop_last()[i] == ps[i]);
        }
        lemma_filter_none(ps.drop_last(), pred);
        assert(!pred(ps[ps.len() - 1]));
    }
}

impl PokerSimulator {
    /// Seats `rules.num_players` players, numbered from 1, before a fresh unshuffled shoe.
    pub fn new(rules: GameRules) -> (sim: Self)
        ensures
            sim.rules == rules,
            sim.players@.len() == rules.num_players,
            forall|i: int|
                0 <= i < sim.players@.len() ==> (#[trigger] sim.players@[i]).id == i + 1
                    && sim.players@[i].hole_cards@ == Seq::<Card>::empty()
                    && sim.players@[i].best_hand is None,
            sim.community_cards@ == Seq::<Card>::empty(),
            sim.deck@ == fresh_shoe(rules.num_decks as nat),
    {
        let mut players: Vec<Player> = Vec::new();
        let mut i: usize = 0;
        while i < rules.num_players
            invariant
                i <= rules.num_players,
                players@.len() == i,
                forall|k: int|
                    0 <= k < i ==> (#[trigger] players@[k]).id == k + 1
                        && players@[k].hole_cards@ == Seq::<Card>::empty()
                        && players@[k].best_hand is None,
            decreases rules.num_players - i,
        {
            players.push(Player::new(i + 1));
            i = i + 1;
        }
        let deck = Deck::new(rules.num_decks);
        PokerSimulator { players, community_cards: Vec::new(), rules, deck }
    }

    /// Clears the board and every hand, then deals `rules.hole_cards_per_player`
    /// rounds of hole cards from the end of the shoe, one card to each player in turn,
    /// while cards last.
    pub fn deal_hole_cards(&mut self)
        ensures
            holes_dealt(old(self).players@, old(self).rules, old(self).deck@, *final(self)),
    {
        let ghost before = self.players@;
        let ghost shoe = self.deck@;
        let np = self.players.len();
        let mut i: usize = 0;
        while i < np
            invariant
                i <= np,
                np == self.players@.len(),
                self.deck@ == shoe,
                self.rules == old(self).rules,
                forall|q: int|
                    0 <= q < np ==> (#[trigger] self.players@[q]).id == before[q].id,
                forall|q: int|
                    0 <= q < i ==> (#[trigger] self.players@[q]).best_hand is None
                        && self.players@[q].hole_cards@ == Seq::<Card>::empty(),
            decreases np - i,
        {
            self.players[i].hole_cards.clear();
            self.players[i].best_hand = None;
            i = i + 1;
        }
        self.community_cards.clear();
        let rounds = self.rules.hole_cards_per_player;
        let mut r: usize = 0;
        proof {
            assert forall|q: int| 0 <= q < np implies (#[trigger] self.players@[q]).hole_cards@
                == dealt_to(shoe, np as int, 0, q) by {
                assert(dealt_to(shoe, np as int, 0, q) =~= Seq::<Card>::empty());
            }
            assert(after_dealing(shoe, 0 * np) =~= shoe);
        }
        while r < rounds
            invariant
                r <= rounds,
                rounds == self.rules.hole_cards_per_player,
                np == self.players@.len(),
                self.community_cards@ == Seq::<Card>::empty(),
                self.rules == old(self).rules,
                forall|q: int|
                    0 <= q < np ==> {
                        &&& (#[trigger] self.players@[q]).id == before[q].id
                        &&& self.players@[q].best_hand is None
                        &&& self.players@[q].hole_cards@ == dealt_to(shoe, np as int, r as int, q)
                    },
                self.deck@ == after_dealing(shoe, r * np),
            decreases rounds - r,
        {
            let mut p: usize = 0;
            while p < np
                invariant
                    r < rounds,
                    p <= np,
                    np == self.players@.len(),
                    self.community_cards@ == Seq::<Card>::empty(),
                    self.rules == old(self).rules,
                    forall|q: int|
                        0 <= q < np ==> {
                            &&& (#[trigger] self.players@[q]).id == before[q].id
                            &&& self.players@[q].best_hand is None
                            &&& self.players@[q].hole_cards@ == dealt_to(
                                shoe,
                                np as int,
                                if q < p { r + 1 } else { r as int },
                                q,
                            )
                        },
                    self.deck@ == after_dealing(shoe, r * np + p),
                decreases np - p,
            {
                let ghost k = r * np + p;
                let ghost old_hole = self.players@[p as int].hole_cards@;
                let dealt = self.deck.deal();
                proof {
                    assert(self.deck@ == after_dealing(shoe, k + 1));
                    if k < shoe.len() {
                        assert(dealt == Some(shoe[shoe.len() - 1 - k]));
                    } else {
                        assert(dealt is None);
                    }
                }
                match dealt {
                    Some(card) => {
                        self.players[p].add_hole_card(card);
                        proof {
                            assert(r > 0 ==> (r - 1) * np + p < shoe.len()) by (nonlinear_arith)
                                requires k == r * np + p, k < shoe.len(), np >= 0;
                            lemma_dealt_count_full(shoe.len() as int, np as int, p as int, r as int);
                            assert(self.players@[p as int].hole_cards@ =~= dealt_to(
                                shoe,
                                np as int,
                                r + 1,
                                p as int,
                            ));
                        }
                    },
                    None => {
                        assert(dealt_to(shoe, np as int, r + 1, p as int) =~= dealt_to(
                            shoe,
                            np as int,
                            r as int,
                            p as int,
                        ));
                    },
                }
                p = p + 1;
            }
            assert((r + 1) * np == r * np + np) by (nonlinear_arith);
            r = r + 1;
        }
    }

    /// Deals a new hand: a fresh shoe of `rules.num_decks` decks is shuffled, the board
    /// and every hand are cleared, and hole cards are dealt as [`deal_hole_cards`] does.
    /// The shuffle is random; whatever order it gives, the shoe dealt from holds the
    /// cards of the fresh shoe.
    ///
    /// [`deal_hole_cards`]: PokerSimulator::deal_hole_cards
    pub fn deal_hand(&mut self)
        ensures
            exists|shoe: Seq<Card>|
                #![trigger holes_dealt(old(self).players@, old(self).rules, shoe, *final(self))]
                shoe.to_multiset() == fresh_shoe(old(self).rules.num_decks as nat).to_multiset()
                    && holes_dealt(old(self).players@, old(self).rules, shoe, *final(self)),
    {
        self.deck = Deck::new(self.rules.num_decks);
        self.deck.shuffle();
        let ghost shoe = self.deck@;
        self.deal_hole_cards();
        assert(holes_dealt(old(self).players@, old(self).rules, shoe, *self));
    }

    /// Deals `count` cards from the end of the shoe to the board, while cards last.
    pub fn deal_community_cards(&mut self, count: usize)
        ensures
            final(self).community_cards@ == old(self).community_cards@ + dealt_run(
                old(self).deck@,
                count as int,
            ),
            final(self).deck@ == after_dealing(old(self).deck@, count as int),
            final(self).players == old(self).players,
            final(self).rules == old(self).rules,
    {
        let ghost shoe = self.deck@;
        let ghost board = self.community_cards@;
        let mut i: usize = 0;
        assert(after_dealing(shoe, 0) =~= shoe);
        assert(board + dealt_run(shoe, 0) =~= board);
        while i < count
            invariant
                i <= count,
                self.community_cards@ == board + dealt_run(shoe, i as int),
                self.deck@ == after_dealing(shoe, i as int),
                self.players == old(self).players,
                self.rules == old(self).rules,
            decreases count - i,
        {
            let dealt = self.deck.deal();
            if let Some(card) = dealt {
                assert(card == shoe[shoe.len() - 1 - i]);
                self.community_cards.push(card);
            }
            proof {
                assert(self.deck@ =~= after_dealing(shoe, i + 1));
                assert(self.community_cards@ =~= board + dealt_run(shoe, i + 1));
            }
            i = i + 1;
        }
    }

    /// Finds every player's best hand with the board, the wild cards and the hole-card
    /// range of the rules.
    pub fn evaluate_all_hands(&mut self)
        ensures
            final(self).players@.len() == old(self).players@.len(),
            forall|q: int|
                0 <= q < final(self).players@.len() ==> {
                    &&& (#[trigger] final(self).players@[q]).id == old(self).players@[q].id
                    &&& final(self).players@[q].hole_cards@ == old(self).players@[q].hole_cards@
                    &&& holds_best_hand(
                        final(self).players@[q],
                        old(self).community_cards@,
                        old(self).rules.wild_cards@,
                        old(self).rules.hole_cards_to_play@.start as int,
                        old(self).rules.hole_cards_to_play@.end as int,
                    )
                },
            final(self).community_cards == old(self).community_cards,
            final(self).rules == old(self).rules,
            final(self).deck == old(self).deck,
    {
        let n = self.players.len();
        let mut i: usize = 0;
        while i < n
            invariant
                i <= n,
                n == self.players@.len(),
                self.community_cards == old(self).community_cards,
                self.rules == old(self).rules,
                self.deck == old(self).deck,
                forall|q: int|
                    0 <= q < n ==> (#[trigger] self.players@[q]).id == old(self).players@[q].id
                        && self.players@[q].hole_cards@ == old(self).players@[q].hole_cards@,
                forall|q: int|
                    0 <= q < i ==> holds_best_hand(
                        #[trigger] self.players@[q],
                        old(self).community_cards@,
                        old(self).rules.wild_cards@,
                        old(self).rules.hole_cards_to_play@.start as int,
                        old(self).rules.hole_cards_to_play@.end as int,
                    ),
            decreases n - i,
        {
            self.players[i].evaluate_hand(
                self.community_cards.as_slice(),
                self.rules.wild_cards.as_slice(),
                &self.rules.hole_cards_to_play,
            );
            i = i + 1;
        }
    }

    /// The players whose hand is as strong as the best at the table, in seating order.
    pub fn get_winners(&self) -> (w: Vec<&Player>)
        ensures
            w@.len() == winners(self.players@).len(),
            forall|i: int| 0 <= i < w@.len() ==> *#[trigger] w@[i] == winners(self.players@)[i],
    {
        let ghost ps = self.players@;
        let mut found: Vec<&Player> = Vec::new();
        let mut best = HandRank::HighCard;
        let mut i: usize = 0;
        assert(ps.take(0).filter(has_level(0)) =~= Seq::<Player>::empty()) by {
            reveal(Seq::filter);
        }
        while i < self.players.len()
            invariant
                i <= ps.len(),
                ps == self.players@,
                level(best) == top_level(ps.take(i as int)),
                found@.len() == ps.take(i as int).filter(has_level(level(best))).len(),
                forall|x: int|
                    0 <= x < found@.len() ==> *#[trigger] found@[x] == ps.take(
                        i as int,
                    ).filter(has_level(level(best)))[x],
            decreases ps.len() - i,
        {
            let ghost pre = ps.take(i as int);
            let ghost cur = ps.take(i + 1);
            proof {
                lemma_take_push_player(ps, i as int);
                assert(cur.drop_last() =~= pre);
                lemma_top_level_bounds(pre);
            }
            let player = &self.players[i];
            match &player.best_hand {
                Some(hand) => {
                    if hand.rank.beats(&best) {
                        proof {
                            assert forall|x: int| 0 <= x < pre.len() implies !has_level(level(hand.rank))(#[trigger] pre[x]) by {}
                            lemma_filter_none(pre, has_level(level(hand.rank)));
                            pre.lemma_filter_push(ps[i as int], has_level(level(hand.rank)));
                        }
                        best = hand.rank;
                        found.clear();
                        found.push(player);
                    } else if hand.rank == best {
                        proof {
                            pre.lemma_filter_push(ps[i as int], has_level(level(best)));
                        }
                        found.push(player);
                    } else {
                        proof {
                            pre.lemma_filter_push(ps[i as int], has_level(level(best)));
                        }
                    }
                },
                None => {
                    proof {
                        pre.lemma_filter_push(ps[i as int], has_level(level(best)));
                    }
                },
            }
            i = i + 1;
        }
        assert(ps.take(ps.len() as int) =~= ps);
        found
    }

    /// Plays one hand: deals it, deals `rules.community_cards` board cards, and finds
    /// every player's best hand. Whatever order the shuffle gives, the shoe dealt from
    /// holds the cards of a fresh shoe.
    pub fn simulate_complete_hand(&mut self)
        ensures
            exists|shoe: Seq<Card>|
                #![trigger hand_played(old(self).players@, old(self).rules, shoe, *final(self))]
                shoe.to_multiset() == fresh_shoe(old(self).rules.num_decks as nat).to_multiset()
                    && hand_played(old(self).players@, old(self).rules, shoe, *final(self)),
    {
        let ghost before = self.players@;
        self.deal_hand();
        let ghost shoe = choose|shoe: Seq<Card>|
            shoe.to_multiset() == fresh_shoe(old(self).rules.num_decks as nat).to_multiset()
                && #[trigger] holes_dealt(before, old(self).rules, shoe, *self);
        let count = self.rules.community_cards;
        self.deal_community_cards(count);
        self.evaluate_all_hands();
        assert(hand_played(before, old(self).rules, shoe, *self));
    }

    /// The categories of the players' hands, in seating order, skipping players
    /// without a hand.
    pub fn get_hand_types(&self) -> (types: Vec<HandRank>)
        ensures
            types@ == hand_types(self.players@),
    {
        let ghost ps = self.players@;
        let mut types: Vec<HandRank> = Vec::new();
        let mut i: usize = 0;
        while i < self.players.len()
            invariant
                i <= ps.len(),
                ps == self.players@,
                types@ == hand_types(ps.take(i as int)),
            decreases ps.len() - i,
        {
            proof {
                lemma_take_push_player(ps, i as int);
                assert(ps.take(i + 1).drop_last() =~= ps.take(i as int));
            }
            match &self.players[i].best_hand {
                Some(hand) => types.push(hand.rank),
                None => {},
            }
            i = i + 1;
        }
        assert(ps.take(ps.len() as int) =~= ps);
        types
    }
}

/// The players in writing, one line each.
pub open spec fn player_lines(ps: Seq<Player>) -> Seq<char>
    decreases ps.len(),
{
    if ps.len() == 0 {
        Seq::empty()
    } else {
        player_lines(ps.drop_last()) + player_text(ps.last()) + "\n"@
    }
}

/// A labelled line listing `cards`, or nothing when there are none.
pub open spec fn cards_line(label: Seq<char>, cards: Seq<Card>) -> Seq<char> {
    if cards.len() == 0 {
        Seq::empty()
    } else {
        label + cards_text(cards) + "\n"@
    }
}

/// The table in writing: the counts of players and hole cards, the wild cards and
/// the board when there are any, every player, the winners when there are any, and
/// the cards left in the shoe.
pub open spec fn state_report(sim: PokerSimulator) -> Seq<char> {
    let w = winners(sim.players@);
    "=== Poker Hand Simulation ===\nPlayers: "@ + decimal(sim.players@.len()) + "\nHole cards per player: "@
        + decimal(sim.rules.hole_cards_per_player as nat) + "\n"@
        + cards_line("Wild cards: "@, sim.rules.wild_cards@)
        + cards_line("Community cards: "@, sim.community_cards@)
        + "\n--- Players ---\n"@ + player_lines(sim.players@)
        + (if w.len() == 0 { Seq::empty() } else { "\n--- Winners ---\n"@ + player_lines(w) })
        + "\nCards remaining in deck: "@ + decimal(sim.deck@.len()) + "\n"@
}

/// Appends a labelled line listing `cards`, if there are any.
fn push_cards_line(out: &mut String, label: &str, cards: &Vec<Card>)
    ensures
        final(out)@ == old(out)@ + cards_line(label@, cards@),
{
    if cards.len() > 0 {
        out.append(label);
        push_cards_text(out, cards);
        out.append("\n");
        proof {
            reveal_strlit("\n");
        }
        assert(final(out)@ =~= old(out)@ + cards_line(label@, cards@));
    }
}

/// Appends one line for each player.
fn push_player_lines(out: &mut String, players: &Vec<Player>)
    ensures
        final(out)@ == old(out)@ + player_lines(players@),
{
    let ghost start = out@;
    let mut i: usize = 0;
    while i < players.len()
        invariant
            i <= players@.len(),
            out@ == start + player_lines(players@.take(i as int)),
        decreases players@.len() - i,
    {
        let t = players[i].text();
        out.append(t.as_str());
        out.append("\n");
        proof {
            lemma_take_push_player(players@, i as int);
            assert(players@.take(i + 1).drop_last() =~= players@.take(i as int));
            assert(out@ =~= start + player_lines(players@.take(i + 1)));
        }
        i = i + 1;
    }
    assert(players@.take(i as int) =~= players@);
}

impl PokerSimulator {
    /// The table in writing, line by line: the counts of players and hole cards, the
    /// wild cards and the board when there are any, every player, the winners when there
    /// are any, and the cards left in the shoe.
    pub fn state_text(&self) -> (t: String)
        ensures
            t@ == state_report(*self),
    {
        let mut t = String::from_str("=== Poker Hand Simulation ===\nPlayers: ");
        push_decimal(&mut t, self.players.len());
        t.append("\nHole cards per player: ");
        push_decimal(&mut t, self.rules.hole_cards_per_player);
        t.append("\n");
        push_cards_line(&mut t, "Wild cards: ", &self.rules.wild_cards);
        push_cards_line(&mut t, "Community cards: ", &self.community_cards);
        t.append("\n--- Players ---\n");
        push_player_lines(&mut t, &self.players);
        let best = self.get_winners();
        let ghost w = winners(self.players@);
        if best.len() > 0 {
            t.append("\n--- Winners ---\n");
            let ghost head = t@;
            let mut i: usize = 0;
            while i < best.len()
                invariant
                    i <= best@.len(),
                    best@.len() == w.len(),
                    forall|k: int| 0 <= k < best@.len() ==> *#[trigger] best@[k] == w[k],
                    t@ == head + player_lines(w.take(i as int)),
                decreases best@.len() - i,
            {
                let line = best[i].text();
                t.append(line.as_str());
                t.append("\n");
                proof {
                    lemma_take_push_player(w, i as int);
                    assert(w.take(i + 1).drop_last() =~= w.take(i as int));
                    assert(t@ =~= head + player_lines(w.take(i + 1)));
                }
                i = i + 1;
            }
            assert(w.take(i as int) =~= w);
        }
        t.append("\nCards remaining in deck: ");
        push_decimal(&mut t, self.deck.remaining());
        t.append("\n");
        proof {
            reveal_strlit("\n");
        }
        assert(t@ =~= state_report(*self));
        t
    }
}

proof fn lemma_take_push_player(s: Seq<Player>, i: int)
    requires
        0 <= i < s.len(),
    ensures
        s.take(i + 1) == s.take(i).push(s[i]),
{
    assert(s.take(i + 1) =~= s.take(i).push(s[i]));
}

/// Rules that pass validation never run short of cards: when a hand is played from a
/// shuffled fresh shoe, every player gets all `hole_cards_per_player` hole cards and
/// the board all `community_cards` cards.
pub proof fn law_valid_rules_deal_in_full(
    before: Seq<Player>,
    rules: GameRules,
    shoe: Seq<Card>,
    after: PokerSimulator,
)
    requires
        rules_check(rules) is Ok,
        before.len() == rules.num_players,
        shoe.to_multiset() == fresh_shoe(rules.num_decks as nat).to_multiset(),
        hand_played(before, rules, shoe, after),
    ensures
        forall|q: int|
            0 <= q < after.players@.len() ==> (#[trigger] after.players@[q]).hole_cards@.len()
                == rules.hole_cards_per_player,
        after.community_cards@.len() == rules.community_cards,
{
    broadcast use vstd::seq_lib::group_to_multiset_ensures;

    let np = before.len() as int;
    let rounds = rules.hole_cards_per_player as int;
    lemma_fresh_shoe_len(rules.num_decks as nat);
    assert(shoe.len() == shoe.to_multiset().len());
    assert(fresh_shoe(rules.num_decks as nat).len() == fresh_shoe(rules.num_decks as nat).to_multiset().len());
    assert(shoe.len() == 52 * rules.num_decks);
    assert(np * rounds + rules.community_cards <= shoe.len());
    assert(rounds * np == np * rounds) by (nonlinear_arith);
    assert forall|q: int| 0 <= q < after.players@.len() implies (#[trigger] after.players@[q]).hole_cards@.len()
        == rules.hole_cards_per_player by {
        assert(rounds > 0 ==> (rounds - 1) * np + q < shoe.len()) by (nonlinear_arith)
            requires rounds * np <= shoe.len(), 0 <= q < np;
        lemma_dealt_count_full(shoe.len() as int, np, q, rounds);
    }
}

/// The winners hold the best hand at the table: each winner has a hand, no player's
/// hand is stronger than a winner's, and every player whose hand is as strong is a
/// winner. There are winners exactly when some player has a hand.
pub proof fn law_winners_hold_the_best_hand(ps: Seq<Player>)
    ensures
        forall|w: int, p: int|
            0 <= w < winners(ps).len() && 0 <= p < ps.len() ==> (#[trigger] winners(ps)[w]).best_hand
                is Some && hand_level(#[trigger] ps[p]) <= hand_level(winners(ps)[w]),
        forall|p: int|
            0 <= p < ps.len() && (#[trigger] ps[p]).best_hand is Some && hand_level(ps[p])
                == top_level(ps) ==> winners(ps).contains(ps[p]),
        winners(ps).len() > 0 <==> exists|p: int| 0 <= p < ps.len() && (#[trigger] ps[p]).best_hand is Some,
{
    broadcast use vstd::seq_lib::group_filter_ensures;

    let pred = has_level(top_level(ps));
    lemma_top_level_bounds(ps);
    lemma_top_level_reached(ps);
    if winners(ps).len() > 0 {
        let w0 = winners(ps)[0];
        assert(pred(w0));
        assert(winners(ps).contains(w0));
        ps.lemma_filter_contains_rev(pred, w0);
        let p = choose|p: int| 0 <= p < ps.len() && ps[p] == w0;
        assert(ps[p].best_hand is Some);
    }
    assert forall|w: int, p: int|
        0 <= w < winners(ps).len() && 0 <= p < ps.len() implies (#[trigger] winners(ps)[w]).best_hand
            is Some && hand_level(#[trigger] ps[p]) <= hand_level(winners(ps)[w]) by {
        assert(pred(winners(ps)[w]));
    }
    assert forall|p: int|
        0 <= p < ps.len() && (#[trigger] ps[p]).best_hand is Some && hand_level(ps[p])
            == top_level(ps) implies winners(ps).contains(ps[p]) by {
        ps.lemma_filter_contains(pred, p);
    }
    if exists|p: int| 0 <= p < ps.len() && (#[trigger] ps[p]).best_hand is Some {
        let p = choose|p: int| 0 <= p < ps.len() && (#[trigger] ps[p]).best_hand is Some;
        let q = choose|q: int| 0 <= q < ps.len() && #[trigger] hand_level(ps[q]) == top_level(ps);
        assert(hand_level(ps[p]) >= 0);
        assert(pred(ps[q]));
        assert(winners(ps).contains(ps[q]));
    }
}

/// When some player has a hand, the best strength at the table is that of some
/// player's hand.
proof fn lemma_top_level_reached(ps: Seq<Player>)
    ensures
        (exists|p: int| 0 <= p < ps.len() && (#[trigger] ps[p]).best_hand is Some) ==> exists|q: int|
            0 <= q < ps.len() && #[trigger] hand_level(ps[q]) == top_level(ps),
    decreases ps.len(),
{
    if ps.len() > 0 {
        let t = ps.drop_last();
        lemma_top_level_reached(t);
        lemma_top_level_bounds(t);
        if exists|p: int| 0 <= p < ps.len() && (#[trigger] ps[p]).best_hand is Some {
            let p = choose|p: int| 0 <= p < ps.len() && (#[trigger] ps[p]).best_hand is Some;
            if hand_level(ps.last()) > top_level(t) {
                assert(hand_level(ps[ps.len() - 1]) == top_level(ps));
            } else if p == ps.len() - 1 {
                assert(hand_level(ps[p]) >= 0);
                assert(ps[p].best_hand is Some);
                if exists|r: int| 0 <= r < t.len() && (#[trigger] t[r]).best_hand is Some {
                    let q = choose|q: int| 0 <= q < t.len() && #[trigger] hand_level(t[q]) == top_level(t);
                    assert(ps[q] == t[q]);
                } else {
                    lemma_top_level_zero(t);
                    assert(hand_level(ps[p]) == top_level(ps));
                }
            } else {
                assert(t[p] == ps[p]);
                let q = choose|q: int| 0 <= q < t.len() && #[trigger] hand_level(t[q]) == top_level(t);
                assert(ps[q] == t[q]);
            }
        }
    }
}

/// With no hands at the table, the best strength is that of a high card.
proof fn lemma_top_level_zero(ps: Seq<Player>)
    requires
        forall|p: int| 0 <= p < ps.len() ==> (#[trigger] ps[p]).best_hand is None,
    ensures
        top_level(ps) == 0,
    decreases ps.len(),
{
    if ps.len() > 0 {
        let t = ps.drop_last();
        assert forall|p: int| 0 <= p < t.len() implies (#[trigger] t[p]).best_hand is None by {
            assert(t[p] == ps[p]);
        }
        lemma_top_level_zero(t);
        assert(ps[ps.len() - 1].best_hand is None);
    }
}

/// All the players' hole cards together, with multiplicity.
pub open spec fn hole_card_pool(ps: Seq<Player>) -> Multiset<Card>
    decreases ps.len(),
{
    if ps.len() == 0 {
        Multiset::empty()
    } else {
        hole_card_pool(ps.drop_last()).add(ps.last().hole_cards@.to_multiset())
    }
}

/// The hole cards of the first `n` seats of `np` partway through round `r`: seats
/// before `p` have had `r + 1` rounds, the others `r`.
spec fn dealt_pool(shoe: Seq<Card>, np: int, r: int, p: int, n: int) -> Multiset<Card>
    decreases n,
{
    if n <= 0 {
        Multiset::empty()
    } else {
        dealt_pool(shoe, np, r, p, n - 1).add(
            dealt_to(shoe, np, if n - 1 < p { r + 1 } else { r }, n - 1).to_multiset(),
        )
    }
}

/// Seats that are no further on agree on their hole cards.
proof fn lemma_dealt_pool_prefix(shoe: Seq<Card>, np: int, r: int, p: int, n: int)
    requires
        0 <= n <= p,
    ensures
        dealt_pool(shoe, np, r, p + 1, n) == dealt_pool(shoe, np, r, p, n),
    decreases n,
{
    if n > 0 {
        lemma_dealt_pool_prefix(shoe, np, r, p, n - 1);
    }
}

/// Giving seat `p` its card of round `r` adds that card, if the shoe still has it,
/// to the pool of hole cards.
proof fn lemma_dealt_pool_step(shoe: Seq<Card>, np: int, r: int, p: int, n: int)
    requires
        0 <= r,
        0 <= p < n <= np,
    ensures
        dealt_pool(shoe, np, r, p + 1, n) == if r * np + p < shoe.len() {
            dealt_pool(shoe, np, r, p, n).insert(shoe[shoe.len() - 1 - (r * np + p)])
        } else {
            dealt_pool(shoe, np, r, p, n)
        },
    decreases n,
{
    broadcast use vstd::seq_lib::group_to_multiset_ensures, vstd::multiset::group_multiset_axioms;

    let k = r * np + p;
    let t = shoe.len() as int;
    if n == p + 1 {
        lemma_dealt_pool_prefix(shoe, np, r, p, p);
        let before = dealt_to(shoe, np, r, p);
        let after = dealt_to(shoe, np, r + 1, p);
        if k < t {
            assert(r > 0 ==> (r - 1) * np + p < t) by (nonlinear_arith)
                requires k == r * np + p, k < t, np >= 0;
            lemma_dealt_count_full(t, np, p, r);
            assert(after =~= before.push(shoe[t - 1 - k]));
        } else {
            assert(after =~= before);
        }
        assert(dealt_pool(shoe, np, r, p + 1, n) =~= if k < t {
            dealt_pool(shoe, np, r, p, n).insert(shoe[t - 1 - k])
        } else {
            dealt_pool(shoe, np, r, p, n)
        });
    } else {
        lemma_dealt_pool_step(shoe, np, r, p, n - 1);
        assert(dealt_pool(shoe, np, r, p + 1, n) =~= if k < t {
            dealt_pool(shoe, np, r, p, n).insert(shoe[t - 1 - k])
        } else {
            dealt_pool(shoe, np, r, p, n)
        });
    }
}

/// A pool of seats all in the same round does not care how it is described.
proof fn lemma_dealt_pool_round(shoe: Seq<Card>, np: int, r: int, n: int)
    requires
        0 <= n <= np,
    ensures
        dealt_pool(shoe, np, r, np, n) == dealt_pool(shoe, np, r + 1, 0, n),
    decreases n,
{
    if n > 0 {
        lemma_dealt_pool_round(shoe, np, r, n - 1);
    }
}

/// What is left of the shoe is one card shorter after each deal while cards last.
proof fn lemma_after_dealing_step(shoe: Seq<Card>, k: int)
    requires
        0 <= k,
    ensures
        k < shoe.len() ==> after_dealing(shoe, k) == after_dealing(shoe, k + 1).push(
            shoe[shoe.len() - 1 - k],
        ),
        k >= shoe.len() ==> after_dealing(shoe, k + 1) == after_dealing(shoe, k),
{
    if k < shoe.len() {
        assert(after_dealing(shoe, k) =~= after_dealing(shoe, k + 1).push(shoe[shoe.len() - 1 - k]));
    } else {
        assert(after_dealing(shoe, k + 1) =~= after_dealing(shoe, k));
    }
}

/// Partway through round `r`, at seat `p`, the hole cards dealt and what is left of
/// the shoe are together the shoe's cards.
proof fn lemma_hole_deal_conserves(shoe: Seq<Card>, np: int, r: int, p: int)
    requires
        0 < np,
        0 <= r,
        0 <= p <= np,
    ensures
        dealt_pool(shoe, np, r, p, np).add(after_dealing(shoe, r * np + p).to_multiset())
            == shoe.to_multiset(),
    decreases r, p,
{
    broadcast use vstd::seq_lib::group_to_multiset_ensures, vstd::multiset::group_multiset_axioms;

    if p > 0 {
        lemma_hole_deal_conserves(shoe, np, r, p - 1);
        lemma_dealt_pool_step(shoe, np, r, p - 1, np);
        let k = r * np + p - 1;
        lemma_after_dealing_step(shoe, k);
        if k < shoe.len() {
            let c = shoe[shoe.len() - 1 - k];
            assert(after_dealing(shoe, k).to_multiset() =~= after_dealing(shoe, k + 1).to_multiset().insert(c));
            assert(dealt_pool(shoe, np, r, p, np) == dealt_pool(shoe, np, r, p - 1, np).insert(c));
        } else {
            assert(dealt_pool(shoe, np, r, p, np) == dealt_pool(shoe, np, r, p - 1, np));
        }
        assert(dealt_pool(shoe, np, r, p, np).add(after_dealing(shoe, r * np + p).to_multiset())
            =~= shoe.to_multiset());
    } else if r > 0 {
        lemma_hole_deal_conserves(shoe, np, r - 1, np);
        lemma_dealt_pool_round(shoe, np, r - 1, np);
        assert((r - 1) * np + np == r * np) by (nonlinear_arith);
        assert(dealt_pool(shoe, np, r, 0, np).add(after_dealing(shoe, r * np).to_multiset())
            == shoe.to_multiset());
    } else {
        lemma_dealt_pool_empty(shoe, np, np);
        assert(r * np + p == 0) by (nonlinear_arith) requires r == 0, p == 0;
        assert(after_dealing(shoe, 0) =~= shoe);
        assert(dealt_pool(shoe, np, 0, 0, np).add(shoe.to_multiset()) =~= shoe.to_multiset());
    }
}

/// Before the first round nobody holds anything.
proof fn lemma_dealt_pool_empty(shoe: Seq<Card>, np: int, n: int)
    requires
        n <= np,
    ensures
        dealt_pool(shoe, np, 0, 0, n) == Multiset::<Card>::empty(),
    decreases n,
{
    broadcast use vstd::seq_lib::group_to_multiset_ensures, vstd::multiset::group_multiset_axioms;

    if n > 0 {
        lemma_dealt_pool_empty(shoe, np, n - 1);
        assert(dealt_to(shoe, np, 0, n - 1) =~= Seq::<Card>::empty());
        assert(dealt_pool(shoe, np, 0, 0, n) =~= Multiset::<Card>::empty());
    }
}

/// Players whose hole cards are those of `rounds` full rounds hold the pool.
proof fn lemma_hole_card_pool(ps: Seq<Player>, shoe: Seq<Card>, np: int, rounds: int, n: int)
    requires
        0 <= n <= ps.len(),
        forall|q: int| 0 <= q < ps.len() ==> (#[trigger] ps[q]).hole_cards@ == dealt_to(shoe, np, rounds, q),
    ensures
        hole_card_pool(ps.take(n)) == dealt_pool(shoe, np, rounds, 0, n),
    decreases n,
{
    if n > 0 {
        lemma_hole_card_pool(ps, shoe, np, rounds, n - 1);
        assert(ps.take(n).drop_last() =~= ps.take(n - 1));
        assert(ps.take(n).last() == ps[n - 1]);
    }
}

/// The board's cards and what is left of the shoe after dealing it are the cards
/// that were in the shoe.
proof fn lemma_board_conserves(rest: Seq<Card>, n: int)
    requires
        0 <= n,
    ensures
        dealt_run(rest, n).to_multiset().add(after_dealing(rest, n).to_multiset()) == rest.to_multiset(),
{
    broadcast use vstd::seq_lib::group_to_multiset_ensures, vstd::multiset::group_multiset_axioms;

    let k = if n < rest.len() { n } else { rest.len() as int };
    let left = rest.take(rest.len() - k);
    let taken = rest.skip(rest.len() - k);
    assert(left + taken =~= rest);
    assert(after_dealing(rest, n) =~= left);
    assert(dealt_run(rest, n) =~= taken.reverse());
    taken.lemma_reverse_to_multiset();
    vstd::seq_lib::lemma_multiset_commutative(left, taken);
    assert(dealt_run(rest, n).to_multiset().add(after_dealing(rest, n).to_multiset()) =~= rest.to_multiset());
}

/// Dealing neither loses nor invents cards: after a hand is played, the hole cards,
/// the board and what is left of the shoe are together exactly the cards of the shoe
/// it was dealt from.
pub proof fn law_dealing_conserves_cards(
    before: Seq<Player>,
    rules: GameRules,
    shoe: Seq<Card>,
    after: PokerSimulator,
)
    requires
        hand_played(before, rules, shoe, after),
    ensures
        hole_card_pool(after.players@).add(after.community_cards@.to_multiset()).add(
            after.deck@.to_multiset(),
        ) == shoe.to_multiset(),
{
    broadcast use vstd::seq_lib::group_to_multiset_ensures, vstd::multiset::group_multiset_axioms;

    let np = before.len() as int;
    let rounds = rules.hole_cards_per_player as int;
    let rest = after_dealing(shoe, rounds * np);
    let ps = after.players@;
    lemma_board_conserves(rest, rules.community_cards as int);
    if np == 0 {
        assert(ps.len() == 0);
        assert(rounds * np == 0) by (nonlinear_arith) requires np == 0;
        assert(rest =~= shoe);
        assert(hole_card_pool(ps) =~= Multiset::<Card>::empty());
    } else {
        lemma_hole_card_pool(ps, shoe, np, rounds, np);
        assert(ps.take(np) =~= ps);
        lemma_hole_deal_conserves(shoe, np, rounds, 0);
    }
    assert(hole_card_pool(ps).add(after.community_cards@.to_multiset()).add(
        after.deck@.to_multiset(),
    ) =~= shoe.to_multiset());
}

/// At a table whose rules pass validation, a hand played from a shuffled fresh shoe
/// gives every player a best hand.
pub proof fn law_valid_tables_give_every_player_a_hand(
    before: Seq<Player>,
    rules: GameRules,
    shoe: Seq<Card>,
    after: PokerSimulator,
    q: int,
)
    requires
        rules_check(rules) is Ok,
        before.len() == rules.num_players,
        shoe.to_multiset() == fresh_shoe(rules.num_decks as nat).to_multiset(),
        hand_played(before, rules, shoe, after),
        0 <= q < after.players@.len(),
    ensures
        after.players@[q].best_hand is Some,
{
    law_valid_rules_deal_in_full(before, rules, shoe, after);
    let h = law_valid_rules_allow_a_hand(rules);
    let p = after.players@[q];
    assert(p.hole_cards@.len() == rules.hole_cards_per_player);
    law_a_possible_split_gives_a_hand(
        p,
        after.community_cards@,
        rules.wild_cards@,
        rules.hole_cards_to_play@.start as int,
        rules.hole_cards_to_play@.end as int,
        h,
    );
}

/// In a hand played under `rules`, each player's best hand is at least as strong as any
/// hand of `h` of their hole cards and `5 - h` board cards (for `h` in the rules' range,
/// no more than they hold and no more than five), with the rules' wild cards wild.
pub proof fn law_played_hands_count_the_wild_cards(
    before: Seq<Player>,
    rules: GameRules,
    shoe: Seq<Card>,
    after: PokerSimulator,
    q: int,
    h: int,
    i: int,
    j: int,
)
    requires
        hand_played(before, rules, shoe, after),
        0 <= q < after.players@.len(),
        rules.hole_cards_to_play@.start <= h <= rules.hole_cards_to_play@.end,
        0 <= h <= 5,
        h <= after.players@[q].hole_cards@.len(),
        0 <= i < combos(after.players@[q].hole_cards@, h as nat).len(),
        0 <= j < combos(after.community_cards@, (5 - h) as nat).len(),
    ensures
        after.players@[q].best_hand is Some,
        level(after.players@[q].best_hand->0.rank) >= level(
            category(
                combos(after.players@[q].hole_cards@, h as nat)[i] + combos(
                    after.community_cards@,
                    (5 - h) as nat,
                )[j],
                rules.wild_cards@,
            ),
        ),
{
    law_best_hand_beats_every_split(
        after.players@[q],
        after.community_cards@,
        rules.wild_cards@,
        rules.hole_cards_to_play@.start as int,
        rules.hole_cards_to_play@.end as int,
        h,
        i,
        j,
    );
}

} // verus!
