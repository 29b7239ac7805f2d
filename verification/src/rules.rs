//! Table rules: how many players, cards and decks, which cards are wild and how
//! many hole cards a hand must use, with their validation, explicit settings laid
//! over a preset, a builder, and hole-card ranges written as text.

use vstd::prelude::*;
use core::ops::RangeInclusive;
use vstd::std_specs::range::RangeInclusiveView;
use crate::card::Card;
use crate::text::{
    decimal, find_from, find_in, lemma_decimal_reads_back, lemma_digits_read,
    lemma_find_first, lemma_find_none, occurs_at, parse_usize, push_decimal, trim_end, trim_range, trim_start, trimmed,
    usize_from_text,
};

verus! {

/// `RangeInclusive::start` returns the range's lower bound, the `start` of its view
/// (the view that `RangeInclusive::new` gives a new range). Trusted: std's source
/// returns a reference to the field that `new` filled.
pub assume_specification<Idx>[ RangeInclusive::<Idx>::start ](r: &RangeInclusive<Idx>) -> (s: &Idx)
    ensures
        *s == r@.start,
;

/// `RangeInclusive::end` returns the range's upper bound, the `end` of its view.
/// Trusted: std's source returns a reference to the field that `new` filled.
pub assume_specification<Idx>[ RangeInclusive::<Idx>::end ](r: &RangeInclusive<Idx>) -> (e: &Idx)
    ensures
        *e == r@.end,
;

/// `RangeInclusive`'s derived `Clone`: std derives it, so each bound of the copy is a
/// clone of the cloned range's and the exhaustion flag is copied.
pub assume_specification<Idx: Clone>[ <RangeInclusive<Idx> as Clone>::clone ](
    r: &RangeInclusive<Idx>,
) -> (c: RangeInclusive<Idx>)
    ensures
        cloned::<Idx>(r@.start, c@.start),
        cloned::<Idx>(r@.end, c@.end),
        c@.exhausted == r@.exhausted,
;

/// Configurable rules for a simulation. Presets: [`GameRules::texas_holdem`],
/// [`GameRules::omaha`], [`GameRules::five_card_draw`]; or [`GameRules::builder`].
#[derive(Debug, Clone)]
pub struct GameRules {
    pub num_players: usize,
    pub hole_cards_per_player: usize,
    pub community_cards: usize,
    pub num_decks: usize,
    pub wild_cards: Vec<Card>,
    pub hole_cards_to_play: RangeInclusive<usize>,
}

/// Why a set of rules cannot be played.
#[derive(Debug, Clone, PartialEq, Eq, Structural)]
pub enum RulesError {
    NoPlayers,
    NoDecks,
    HandTooSmall { available: usize },
    NotEnoughCards { needed: usize, available: usize },
    /// The hole-cards-to-play range is inverted (min greater than max).
    EmptyHolePlayRange { min: usize, max: usize },
    /// No allowed number of hole cards can combine with the board to make five.
    HolePlayUnsatisfiable { min: usize, max: usize, hole: usize, community: usize },
}

/// What an error says, in words.
pub open spec fn error_message(e: RulesError) -> Seq<char> {
    match e {
        RulesError::NoPlayers => "at least one player is required"@,
        RulesError::NoDecks => "at least one deck is required"@,
        RulesError::HandTooSmall { available } => "a 5-card hand is impossible: only "@ + decimal(
            available as nat,
        ) + " card(s) per player (hole + community)"@,
        RulesError::NotEnoughCards { needed, available } => "not enough cards: the deal needs "@
            + decimal(needed as nat) + " but the shoe holds "@ + decimal(available as nat),
        RulesError::EmptyHolePlayRange { min, max } =>
            "hole cards to play range is empty: min "@ + decimal(min as nat)
            + " is greater than max "@ + decimal(max as nat),
        RulesError::HolePlayUnsatisfiable { min, max, hole, community } =>
            "cannot form a 5-card hand playing "@ + decimal(min as nat) + "..="@ + decimal(
            max as nat,
        ) + " hole cards from "@ + decimal(hole as nat) + " hole + "@ + decimal(community as nat)
            + " community"@,
    }
}

impl RulesError {
    /// What the error says, in words.
    pub fn message(&self) -> (m: String)
        ensures
            m@ == error_message(*self),
    {
        match self {
            RulesError::NoPlayers => String::from_str("at least one player is required"),
            RulesError::NoDecks => String::from_str("at least one deck is required"),
            RulesError::HandTooSmall { available } => {
                let mut m = String::from_str("a 5-card hand is impossible: only ");
                push_decimal(&mut m, *available);
                m.append(" card(s) per player (hole + community)");
                m
            },
            RulesError::NotEnoughCards { needed, available } => {
                let mut m = String::from_str("not enough cards: the deal needs ");
                push_decimal(&mut m, *needed);
                m.append(" but the shoe holds ");
                push_decimal(&mut m, *available);
                m
            },
            RulesError::EmptyHolePlayRange { min, max } => {
                let mut m = String::from_str("hole cards to play range is empty: min ");
                push_decimal(&mut m, *min);
                m.append(" is greater than max ");
                push_decimal(&mut m, *max);
                m
            },
            RulesError::HolePlayUnsatisfiable { min, max, hole, community } => {
                let mut m = String::from_str("cannot form a 5-card hand playing ");
                push_decimal(&mut m, *min);
                m.append("..=");
                push_decimal(&mut m, *max);
                m.append(" hole cards from ");
                push_decimal(&mut m, *hole);
                m.append(" hole + ");
                push_decimal(&mut m, *community);
                m.append(" community");
                m
            },
        }
    }
}

/// Some number `h` of hole cards within `lo..=hi`, no more than five and no more than
/// the `hole` cards held, leaves `5 - h` cards that the `community` cards can supply.
pub open spec fn hole_play_possible(lo: int, hi: int, hole: int, community: int) -> bool {
    exists|h: int| lo <= h <= hi && h <= 5 && h <= hole && #[trigger] (5 - h) <= community
}

/// The cards the deal needs: hole cards for every player and the board.
pub open spec fn spec_cards_needed(r: GameRules) -> int {
    r.num_players * r.hole_cards_per_player + r.community_cards
}

/// The cards in the shoe.
pub open spec fn spec_deck_size(r: GameRules) -> int {
    52 * r.num_decks
}

/// The rules pass every check that comes before the card count.
pub open spec fn shape_ok(r: GameRules) -> bool {
    let lo = r.hole_cards_to_play@.start as int;
    let hi = r.hole_cards_to_play@.end as int;
    &&& r.num_players != 0
    &&& r.num_decks != 0
    &&& r.hole_cards_per_player + r.community_cards >= 5
    &&& lo <= hi
    &&& hole_play_possible(lo, hi, r.hole_cards_per_player as int, r.community_cards as int)
}

/// The arithmetic of validating `r` stays within `usize`.
pub open spec fn validation_fits(r: GameRules) -> bool {
    &&& r.num_players != 0 && r.num_decks != 0 ==> r.hole_cards_per_player + r.community_cards
        <= usize::MAX
    &&& shape_ok(r) ==> spec_cards_needed(r) <= usize::MAX && spec_deck_size(r) <= usize::MAX
}

/// The outcome of validating `r`: the first failed check, in this order.
pub open spec fn rules_check(r: GameRules) -> Result<(), RulesError> {
    let lo = r.hole_cards_to_play@.start;
    let hi = r.hole_cards_to_play@.end;
    let hand_size = r.hole_cards_per_player + r.community_cards;
    if r.num_players == 0 {
        Err(RulesError::NoPlayers)
    } else if r.num_decks == 0 {
        Err(RulesError::NoDecks)
    } else if hand_size < 5 {
        Err(RulesError::HandTooSmall { available: hand_size as usize })
    } else if lo > hi {
        Err(RulesError::EmptyHolePlayRange { min: lo, max: hi })
    } else if !hole_play_possible(
        lo as int,
        hi as int,
        r.hole_cards_per_player as int,
        r.community_cards as int,
    ) {
        Err(
            RulesError::HolePlayUnsatisfiable {
                min: lo,
                max: hi,
                hole: r.hole_cards_per_player,
                community: r.community_cards,
            },
        )
    } else if spec_cards_needed(r) > spec_deck_size(r) {
        Err(
            RulesError::NotEnoughCards {
                needed: spec_cards_needed(r) as usize,
                available: spec_deck_size(r) as usize,
            },
        )
    } else {
        Ok(())
    }
}

/// `r` has the given counts, no wild cards, and the hole-card range `lo..=hi`.
pub open spec fn preset(
    r: GameRules,
    players: usize,
    hole: usize,
    community: usize,
    lo: usize,
    hi: usize,
) -> bool {
    &&& r.num_players == players
    &&& r.hole_cards_per_player == hole
    &&& r.community_cards == community
    &&& r.num_decks == 1
    &&& r.wild_cards@ == Seq::<Card>::empty()
    &&& r.hole_cards_to_play@ == RangeInclusiveView { start: lo, end: hi, exhausted: false }
}

/// Whether some number of hole cards within `lo..=hi`, no more than five and no
/// more than `hole`, leaves a number of board cards that `community` can supply.
fn hole_play_satisfiable(lo: usize, hi: usize, hole: usize, community: usize) -> (b: bool)
    ensures
        b == hole_play_possible(lo as int, hi as int, hole as int, community as int),
{
    let mut h: usize = lo;
    while h <= hi && h <= 5
        invariant
            lo <= h,
            forall|g: int|
                lo <= g < h ==> !(g <= 5 && g <= hole && #[trigger] (5 - g) <= community),
        decreases 6 - h,
    {
        if h <= hole && 5 - h <= community {
            assert(lo <= h <= hi && h <= 5 && h <= hole && (5 - h) <= community);
            return true;
        }
        h = h + 1;
    }
    assert forall|g: int| lo <= g <= hi && g <= 5 && g <= hole implies !(#[trigger] (5 - g)
        <= community) by {
        if g >= h {
            assert(h > 5 || h > hi);
        }
    }
    false
}

impl GameRules {
    pub fn builder() -> (b: GameRulesBuilder)
        ensures
            preset(b.draft(), 2, 2, 5, 0, 2),
            !b.hole_play_pinned(),
    {
        GameRulesBuilder { rules: GameRules::texas_holdem(2), hole_play_explicit: false }
    }

    /// These rules with explicit settings laid over them: each setting given replaces
    /// the rules' own; a new hole-card count without a hole-card range makes the range
    /// `0..=` that count; an empty list of wild cards keeps the rules' own.
    pub fn with_overrides(
        self,
        players: Option<usize>,
        hole_cards: Option<usize>,
        community_cards: Option<usize>,
        decks: Option<usize>,
        wild_cards: Vec<Card>,
        hole_play: Option<(usize, usize)>,
    ) -> (r: Self)
        ensures
            r.num_players == (match players {
                Some(p) => p,
                None => self.num_players,
            }),
            r.hole_cards_per_player == (match hole_cards {
                Some(h) => h,
                None => self.hole_cards_per_player,
            }),
            r.community_cards == (match community_cards {
                Some(c) => c,
                None => self.community_cards,
            }),
            r.num_decks == (match decks {
                Some(d) => d,
                None => self.num_decks,
            }),
            r.wild_cards@ == (if wild_cards@.len() > 0 {
                wild_cards@
            } else {
                self.wild_cards@
            }),
            r.hole_cards_to_play@ == (match hole_play {
                Some((lo, hi)) => RangeInclusiveView { start: lo, end: hi, exhausted: false },
                None => match hole_cards {
                    Some(h) => RangeInclusiveView { start: 0usize, end: h, exhausted: false },
                    None => self.hole_cards_to_play@,
                },
            }),
    {
        let mut rules = self;
        if let Some(p) = players {
            rules.num_players = p;
        }
        if let Some(h) = hole_cards {
            rules.hole_cards_per_player = h;
            if hole_play.is_none() {
                rules.hole_cards_to_play = 0..=h;
            }
        }
        if let Some(c) = community_cards {
            rules.community_cards = c;
        }
        if let Some(d) = decks {
            rules.num_decks = d;
        }
        if wild_cards.len() > 0 {
            rules.wild_cards = wild_cards;
        }
        if let Some((lo, hi)) = hole_play {
            rules.hole_cards_to_play = lo..=hi;
        }
        rules
    }

    /// Texas hold'em: two hole cards, five on the board, any number of hole cards used.
    pub fn texas_holdem(num_players: usize) -> (r: Self)
        ensures
            preset(r, num_players, 2, 5, 0, 2),
    {
        GameRules {
            num_players,
            hole_cards_per_player: 2,
            community_cards: 5,
            num_decks: 1,
            wild_cards: Vec::new(),
            hole_cards_to_play: 0..=2,
        }
    }

    /// Omaha: four hole cards, five on the board, exactly two hole cards used.
    pub fn omaha(num_players: usize) -> (r: Self)
        ensures
            preset(r, num_players, 4, 5, 2, 2),
    {
        GameRules {
            num_players,
            hole_cards_per_player: 4,
            community_cards: 5,
            num_decks: 1,
            wild_cards: Vec::new(),
            hole_cards_to_play: 2..=2,
        }
    }

    /// Five-card draw: five hole cards, no board, all five used.
    pub fn five_card_draw(num_players: usize) -> (r: Self)
        ensures
            preset(r, num_players, 5, 0, 5, 5),
    {
        GameRules {
            num_players,
            hole_cards_per_player: 5,
            community_cards: 0,
            num_decks: 1,
            wild_cards: Vec::new(),
            hole_cards_to_play: 5..=5,
        }
    }

    /// The cards in the shoe: 52 per deck.
    pub fn deck_size(&self) -> (n: usize)
        requires
            spec_deck_size(*self) <= usize::MAX,
        ensures
            n == spec_deck_size(*self),
    {
        52 * self.num_decks
    }

    /// The cards a deal takes: the hole cards of every player and the board.
    pub fn cards_needed(&self) -> (n: usize)
        requires
            spec_cards_needed(*self) <= usize::MAX,
        ensures
            n == spec_cards_needed(*self),
    {
        proof {
            vstd::arithmetic::mul::lemma_mul_nonnegative(
                self.num_players as int,
                self.hole_cards_per_player as int,
            );
        }
        self.num_players * self.hole_cards_per_player + self.community_cards
    }

    /// Whether the arithmetic of [`GameRules::validate`] stays within `usize`: the
    /// hand size once players and decks are there, and the deal and the shoe once
    /// every check before the card count passes.
    pub fn can_validate(&self) -> (b: bool)
        ensures
            b == validation_fits(*self),
    {
        if self.num_players == 0 || self.num_decks == 0 {
            return true;
        }
        let hand_size = match self.hole_cards_per_player.checked_add(self.community_cards) {
            Some(n) => n,
            None => return false,
        };
        let lo = *self.hole_cards_to_play.start();
        let hi = *self.hole_cards_to_play.end();
        if hand_size < 5 || lo > hi || !hole_play_satisfiable(
            lo,
            hi,
            self.hole_cards_per_player,
            self.community_cards,
        ) {
            return true;
        }
        let per_player = match self.num_players.checked_mul(self.hole_cards_per_player) {
            Some(n) => n,
            None => return false,
        };
        if per_player.checked_add(self.community_cards).is_none() {
            return false;
        }
        self.num_decks.checked_mul(52).is_some()
    }

    /// Checks that the rules can be played: players and decks, enough cards for a
    /// five-card hand, a hole-card range that is not inverted and that some split of
    /// hole and board cards satisfies, and a shoe big enough for the deal.
    pub fn validate(&self) -> (res: Result<(), RulesError>)
        requires
            validation_fits(*self),
        ensures
            res == rules_check(*self),
    {
        if self.num_players == 0 {
            return Err(RulesError::NoPlayers);
        }
        if self.num_decks == 0 {
            return Err(RulesError::NoDecks);
        }
        let hand_size = self.hole_cards_per_player + self.community_cards;
        if hand_size < 5 {
            return Err(RulesError::HandTooSmall { available: hand_size });
        }
        let min_play = *self.hole_cards_to_play.start();
        let max_play = *self.hole_cards_to_play.end();
        if min_play > max_play {
            return Err(RulesError::EmptyHolePlayRange { min: min_play, max: max_play });
        }
        let hole = self.hole_cards_per_player;
        let community = self.community_cards;
        if !hole_play_satisfiable(min_play, max_play, hole, community) {
            return Err(
                RulesError::HolePlayUnsatisfiable {
                    min: min_play,
                    max: max_play,
                    hole,
                    community,
                },
            );
        }
        let needed = self.cards_needed();
        let available = self.deck_size();
        if needed > available {
            return Err(RulesError::NotEnoughCards { needed, available });
        }
        Ok(())
    }
}

impl Default for GameRules {
    /// Heads-up Texas hold'em.
    fn default() -> (r: Self)
        ensures
            preset(r, 2, 2, 5, 0, 2),
    {
        GameRules::texas_holdem(2)
    }
}

/// Builds [`GameRules`] step by step from heads-up Texas hold'em.
#[derive(Debug, Clone)]
pub struct GameRulesBuilder {
    rules: GameRules,
    hole_play_explicit: bool,
}

/// `after` is `before` with `n` hole cards per player; unless the hole-card range was
/// set explicitly, the range is now `0..=n`; nothing else changes.
pub open spec fn hole_cards_set(before: GameRulesBuilder, n: usize, after: GameRulesBuilder) -> bool {
    &&& after.hole_play_pinned() == before.hole_play_pinned()
    &&& before.hole_play_pinned() ==> after.draft() == (GameRules {
        hole_cards_per_player: n,
        ..before.draft()
    })
    &&& !before.hole_play_pinned() ==> {
        &&& after.draft().hole_cards_per_player == n
        &&& after.draft().hole_cards_to_play@ == RangeInclusiveView {
            start: 0usize,
            end: n,
            exhausted: false,
        }
        &&& after.draft().num_players == before.draft().num_players
        &&& after.draft().community_cards == before.draft().community_cards
        &&& after.draft().num_decks == before.draft().num_decks
        &&& after.draft().wild_cards == before.draft().wild_cards
    }
}

/// `after` is `before` with the hole-card range `range`, now set explicitly.
pub open spec fn hole_play_set(
    before: GameRulesBuilder,
    range: RangeInclusive<usize>,
    after: GameRulesBuilder,
) -> bool {
    &&& after.draft() == (GameRules { hole_cards_to_play: range, ..before.draft() })
    &&& after.hole_play_pinned()
}

/// A hole-card range set explicitly survives a later change of the number of hole
/// cards; the number changes.
pub proof fn law_explicit_hole_play_survives(
    b0: GameRulesBuilder,
    range: RangeInclusive<usize>,
    b1: GameRulesBuilder,
    n: usize,
    b2: GameRulesBuilder,
)
    requires
        hole_play_set(b0, range, b1),
        hole_cards_set(b1, n, b2),
    ensures
        b2.draft().hole_cards_to_play == range,
        b2.draft().hole_cards_per_player == n,
        b2.hole_play_pinned(),
{
}

impl GameRulesBuilder {
    /// The rules built so far.
    pub closed spec fn draft(self) -> GameRules {
        self.rules
    }

    /// Whether the hole-card range was set explicitly.
    pub closed spec fn hole_play_pinned(self) -> bool {
        self.hole_play_explicit
    }

    pub fn players(self, n: usize) -> (b: Self)
        ensures
            b.draft() == (GameRules { num_players: n, ..self.draft() }),
            b.hole_play_pinned() == self.hole_play_pinned(),
    {
        let mut b = self;
        b.rules.num_players = n;
        b
    }

    /// Sets the hole cards per player; unless the range was set explicitly, the
    /// range becomes "play any of them", `0..=n`.
    pub fn hole_cards(self, n: usize) -> (b: Self)
        ensures
            hole_cards_set(self, n, b),
    {
        let mut b = self;
        b.rules.hole_cards_per_player = n;
        if !b.hole_play_explicit {
            b.rules.hole_cards_to_play = 0..=n;
        }
        b
    }

    /// Constrains how many hole cards a player may use, e.g. `2..=2` for Omaha; later
    /// calls of [`GameRulesBuilder::hole_cards`] keep it.
    pub fn hole_cards_to_play(self, range: RangeInclusive<usize>) -> (b: Self)
        ensures
            hole_play_set(self, range, b),
    {
        let mut b = self;
        b.rules.hole_cards_to_play = range;
        b.hole_play_explicit = true;
        b
    }

    pub fn community_cards(self, n: usize) -> (b: Self)
        ensures
            b.draft() == (GameRules { community_cards: n, ..self.draft() }),
            b.hole_play_pinned() == self.hole_play_pinned(),
    {
        let mut b = self;
        b.rules.community_cards = n;
        b
    }

    pub fn decks(self, n: usize) -> (b: Self)
        ensures
            b.draft() == (GameRules { num_decks: n, ..self.draft() }),
            b.hole_play_pinned() == self.hole_play_pinned(),
    {
        let mut b = self;
        b.rules.num_decks = n;
        b
    }

    /// Replaces the wild cards.
    pub fn wild_cards(self, cards: Vec<Card>) -> (b: Self)
        ensures
            b.draft() == (GameRules { wild_cards: cards, ..self.draft() }),
            b.hole_play_pinned() == self.hole_play_pinned(),
    {
        let mut b = self;
        b.rules.wild_cards = cards;
        b
    }

    /// Adds one wild card.
    pub fn add_wild_card(self, card: Card) -> (b: Self)
        ensures
            b.draft().wild_cards@ == self.draft().wild_cards@.push(card),
            b.draft().num_players == self.draft().num_players,
            b.draft().hole_cards_per_player == self.draft().hole_cards_per_player,
            b.draft().community_cards == self.draft().community_cards,
            b.draft().num_decks == self.draft().num_decks,
            b.draft().hole_cards_to_play == self.draft().hole_cards_to_play,
            b.hole_play_pinned() == self.hole_play_pinned(),
    {
        let mut b = self;
        b.rules.wild_cards.push(card);
        b
    }

    /// The rules, if they pass [`GameRules::validate`]; else its error.
    pub fn build(self) -> (res: Result<GameRules, RulesError>)
        requires
            validation_fits(self.draft()),
        ensures
            match res {
                Ok(r) => r == self.draft() && rules_check(self.draft()) is Ok,
                Err(e) => rules_check(self.draft()) == Err::<(), RulesError>(e),
            },
    {
        match self.rules.validate() {
            Ok(()) => Ok(self.rules),
            Err(e) => Err(e),
        }
    }
}

impl Default for GameRulesBuilder {
    fn default() -> (b: Self)
        ensures
            preset(b.draft(), 2, 2, 5, 0, 2),
            !b.hole_play_pinned(),
    {
        GameRules::builder()
    }
}

/// Texas hold'em can be played by 1 to 23 players from one deck: 23 players take
/// 46 hole cards, and with the 5 board cards that is 51 of the 52 cards.
pub proof fn law_texas_holdem_seats(r: GameRules, n: usize)
    requires
        preset(r, n, 2, 5, 0, 2),
    ensures
        rules_check(r) is Ok <==> 1 <= n <= 23,
{
    assert(hole_play_possible(0, 2, 2, 5)) by {
        assert(0 <= 2 <= 2 && 2 <= 5 && 2 <= 2 && (5 - 2) <= 5);
    }
}

/// Omaha can be played by 1 to 11 players from one deck.
pub proof fn law_omaha_seats(r: GameRules, n: usize)
    requires
        preset(r, n, 4, 5, 2, 2),
    ensures
        rules_check(r) is Ok <==> 1 <= n <= 11,
{
    assert(hole_play_possible(2, 2, 4, 5)) by {
        assert(2 <= 2 <= 2 && 2 <= 5 && 2 <= 4 && (5 - 2) <= 5);
    }
}

/// Five-card draw can be played by 1 to 10 players from one deck.
pub proof fn law_five_card_draw_seats(r: GameRules, n: usize)
    requires
        preset(r, n, 5, 0, 5, 5),
    ensures
        rules_check(r) is Ok <==> 1 <= n <= 10,
{
    assert(hole_play_possible(5, 5, 5, 0)) by {
        assert(5 <= 5 <= 5 && 5 <= 5 && 5 <= 5 && (5 - 5) <= 0);
    }
}

/// The two sides of a hole-card range in text: split at the first `..=`, else at the
/// first `..`, else at the first `-`; with none of them, the whole text is both sides.
pub open spec fn range_sides(t: Seq<char>) -> (Seq<char>, Seq<char>) {
    match find_from(t, seq!['.', '.', '='], 0) {
        Some(i) => (t.subrange(0, i), t.subrange(i + 3, t.len() as int)),
        None => match find_from(t, seq!['.', '.'], 0) {
            Some(i) => (t.subrange(0, i), t.subrange(i + 2, t.len() as int)),
            None => match find_from(t, seq!['-'], 0) {
                Some(i) => (t.subrange(0, i), t.subrange(i + 1, t.len() as int)),
                None => (t, t),
            },
        },
    }
}

/// The inclusive range of hole cards that the text `s` writes: `lo..=hi`, `lo..hi` or
/// `lo-hi`, both bounds inclusive, or one number for both bounds. Whitespace around the
/// text and around each bound is ignored; each bound is read as `usize::from_str` reads it.
pub open spec fn hole_range_from_text(s: Seq<char>) -> Option<(usize, usize)> {
    let sides = range_sides(trimmed(s));
    match (usize_from_text(trimmed(sides.0)), usize_from_text(trimmed(sides.1))) {
        (Some(lo), Some(hi)) => Some((lo, hi)),
        _ => None,
    }
}

/// Reads a hole-card range such as `0..=2`, `2..2`, `2-2` or `2`; the bounds come back
/// as `(lo, hi)`, both inclusive.
pub fn parse_hole_range(s: &str) -> (r: Option<(usize, usize)>)
    ensures
        r == hole_range_from_text(s@),
{
    proof {
        reveal_strlit("..=");
        reveal_strlit("..");
        reveal_strlit("-");
    }
    let n = s.unicode_len();
    let (a, b) = trim_range(s, 0, n);
    let ghost t = trimmed(s@);
    assert(s@.subrange(0, n as int) =~= s@);
    assert(t == s@.subrange(a as int, b as int));
    assert("..="@ =~= seq!['.', '.', '=']);
    assert(".."@ =~= seq!['.', '.']);
    assert("-"@ =~= seq!['-']);
    let (p0, p1, q0) = match find_in(s, a, b, "..=") {
        Some(i) => (a, a + i, a + i + 3),
        None => match find_in(s, a, b, "..") {
            Some(i) => (a, a + i, a + i + 2),
            None => match find_in(s, a, b, "-") {
                Some(i) => (a, a + i, a + i + 1),
                None => (a, b, a),
            },
        },
    };
    let ghost sides = range_sides(t);
    assert(s@.subrange(p0 as int, p1 as int) =~= sides.0);
    assert(s@.subrange(q0 as int, b as int) =~= sides.1);
    let (x0, x1) = trim_range(s, p0, p1);
    let first = parse_usize(s, x0, x1);
    let (y0, y1) = trim_range(s, q0, b);
    let second = parse_usize(s, y0, y1);
    match (first, second) {
        (Some(lo), Some(hi)) => Some((lo, hi)),
        _ => None,
    }
}

/// A hole-card range written `lo..=hi` in decimal reads back as `(lo, hi)`.
pub proof fn law_hole_range_round_trip(lo: usize, hi: usize)
    ensures
        hole_range_from_text(decimal(lo as nat) + seq!['.', '.', '='] + decimal(hi as nat)) == Some(
            (lo, hi),
        ),
{
    let d1 = decimal(lo as nat);
    let d2 = decimal(hi as nat);
    let sep = seq!['.', '.', '='];
    let t = d1 + sep + d2;
    lemma_decimal_reads_back(lo as nat);
    lemma_decimal_reads_back(hi as nat);
    lemma_digits_read(d1);
    lemma_digits_read(d2);
    assert(t[0] == d1[0]);
    assert(t.last() == d2.last());
    assert(trim_start(t) == t);
    assert(trim_end(t) == t);
    let n = d1.len() as int;
    assert(t.subrange(n, n + 3) =~= sep);
    assert forall|k: int| 0 <= k < n implies !occurs_at(t, sep, k) by {
        assert(t.subrange(k, k + 3)[0] == d1[k]);
    }
    lemma_find_first(t, sep, 0, n);
    assert(t.subrange(0, n) =~= d1);
    assert(t.subrange(n + 3, t.len() as int) =~= d2);
}

/// Rules that pass validation let a hand be made: some number `h` of hole cards in the
/// range, no more than the hole cards dealt and no more than five, leaves `5 - h` cards
/// that the board supplies.
pub proof fn law_valid_rules_allow_a_hand(r: GameRules) -> (h: int)
    requires
        rules_check(r) is Ok,
    ensures
        r.hole_cards_to_play@.start <= h <= r.hole_cards_to_play@.end,
        0 <= h <= 5,
        h <= r.hole_cards_per_player,
        5 - h <= r.community_cards,
{
    let lo = r.hole_cards_to_play@.start as int;
    let hi = r.hole_cards_to_play@.end as int;
    let hole = r.hole_cards_per_player as int;
    let community = r.community_cards as int;
    assert(hole_play_possible(lo, hi, hole, community));
    choose|h: int| lo <= h <= hi && h <= 5 && h <= hole && #[trigger] (5 - h) <= community
}

/// Each written form of a hole-card range reads back as the numbers written: `lo..=hi`,
/// `lo..hi` and `lo-hi` give `(lo, hi)`, and a single number `n` gives `(n, n)`.
pub proof fn law_hole_range_forms(lo: usize, hi: usize)
    ensures
        hole_range_from_text(decimal(lo as nat) + seq!['.', '.', '='] + decimal(hi as nat)) == Some(
            (lo, hi),
        ),
        hole_range_from_text(decimal(lo as nat) + seq!['.', '.'] + decimal(hi as nat)) == Some(
            (lo, hi),
        ),
        hole_range_from_text(decimal(lo as nat) + seq!['-'] + decimal(hi as nat)) == Some(
            (lo, hi),
        ),
        hole_range_from_text(decimal(lo as nat)) == Some((lo, lo)),
{
    law_hole_range_round_trip(lo, hi);
    let d1 = decimal(lo as nat);
    let d2 = decimal(hi as nat);
    lemma_decimal_reads_back(lo as nat);
    lemma_decimal_reads_back(hi as nat);
    lemma_digits_read(d1);
    lemma_digits_read(d2);
    let n = d1.len() as int;
    let full = seq!['.', '.', '='];
    let dots = seq!['.', '.'];
    let dash = seq!['-'];
    // `lo..hi`: no `..=` anywhere, as no `=` is written; the first `..` follows the digits.
    let t = d1 + dots + d2;
    assert(t[0] == d1[0] && t.last() == d2.last());
    assert(trim_start(t) == t && trim_end(t) == t);
    assert forall|k: int| 0 <= k implies !occurs_at(t, full, k) by {
        if occurs_at(t, full, k) {
            assert(t.subrange(k, k + 3)[2] == t[k + 2]);
            if k + 2 < n {
                assert(t[k + 2] == d1[k + 2]);
            } else if k + 2 >= n + 2 {
                assert(t[k + 2] == d2[k + 2 - n - 2]);
            }
        }
    }
    lemma_find_none(t, full, 0);
    assert(t.subrange(n, n + 2) =~= dots);
    assert forall|k: int| 0 <= k < n implies !occurs_at(t, dots, k) by {
        assert(t.subrange(k, k + 2)[0] == d1[k]);
    }
    lemma_find_first(t, dots, 0, n);
    assert(t.subrange(0, n) =~= d1);
    assert(t.subrange(n + 2, t.len() as int) =~= d2);
    // `lo-hi`: no `.` anywhere; the first `-` follows the digits.
    let u = d1 + dash + d2;
    assert(u[0] == d1[0] && u.last() == d2.last());
    assert(trim_start(u) == u && trim_end(u) == u);
    assert forall|k: int| 0 <= k < u.len() implies u[k] != '.' by {
        if k < n {
            assert(u[k] == d1[k]);
        } else if k > n {
            assert(u[k] == d2[k - n - 1]);
        }
    }
    assert forall|k: int| 0 <= k implies !occurs_at(u, full, k) by {
        if occurs_at(u, full, k) {
            assert(u.subrange(k, k + 3)[0] == u[k]);
        }
    }
    lemma_find_none(u, full, 0);
    assert forall|k: int| 0 <= k implies !occurs_at(u, dots, k) by {
        if occurs_at(u, dots, k) {
            assert(u.subrange(k, k + 2)[0] == u[k]);
        }
    }
    lemma_find_none(u, dots, 0);
    assert(u.subrange(n, n + 1) =~= dash);
    assert forall|k: int| 0 <= k < n implies !occurs_at(u, dash, k) by {
        assert(u.subrange(k, k + 1)[0] == d1[k]);
    }
    lemma_find_first(u, dash, 0, n);
    assert(u.subrange(0, n) =~= d1);
    assert(u.subrange(n + 1, u.len() as int) =~= d2);
    // `n`: digits alone hold no separator, so the number is both bounds.
    assert forall|k: int| 0 <= k implies !occurs_at(d1, full, k) by {
        if occurs_at(d1, full, k) {
            assert(d1.subrange(k, k + 3)[0] == d1[k]);
        }
    }
    lemma_find_none(d1, full, 0);
    assert forall|k: int| 0 <= k implies !occurs_at(d1, dots, k) by {
        if occurs_at(d1, dots, k) {
            assert(d1.subrange(k, k + 2)[0] == d1[k]);
        }
    }
    lemma_find_none(d1, dots, 0);
    assert forall|k: int| 0 <= k implies !occurs_at(d1, dash, k) by {
        if occurs_at(d1, dash, k) {
            assert(d1.subrange(k, k + 1)[0] == d1[k]);
        }
    }
    lemma_find_none(d1, dash, 0);
}

/// Validation refuses a hole-card range as unsatisfiable only when no number `h` in it,
/// no more than five, is both at most the hole cards dealt and leaves `5 - h` cards that
/// the board supplies.
pub proof fn law_unsatisfiable_means_no_hand(r: GameRules, h: int)
    requires
        rules_check(r) is Err,
        rules_check(r)->Err_0 is HolePlayUnsatisfiable,
        r.hole_cards_to_play@.start <= h <= r.hole_cards_to_play@.end,
        h <= 5,
    ensures
        h > r.hole_cards_per_player || 5 - h > r.community_cards,
{
    let lo = r.hole_cards_to_play@.start as int;
    let hi = r.hole_cards_to_play@.end as int;
    assert(!hole_play_possible(lo, hi, r.hole_cards_per_player as int, r.community_cards as int));
    if h <= r.hole_cards_per_player && 5 - h <= r.community_cards {
        assert(lo <= h <= hi && h <= 5 && h <= r.hole_cards_per_player && (5 - h) <= r.community_cards);
    }
}

} // verus!
