use card_mentat::deck::fresh_deck_cards;
use card_mentat::rules::RulesError;
use card_mentat::{
    combinations, parse_hole_range, Card, CardParseError, Deck, GameRules, Hand, HandRank, Player,
    PokerSimulator, Rank, Suit,
};
use card_mentat::Rank::{
    Ace, Eight, Five, Four, Jack, King, Nine, Queen, Seven, Six, Ten, Three, Two,
};
use card_mentat::Suit::{Clubs, Diamonds, Hearts, Spades};
use std::collections::HashSet;

fn c(rank: Rank, suit: Suit) -> Card {
    Card::new(rank, suit)
}

fn hand_of(cards: Vec<Card>) -> Hand {
    Hand::new(cards, &[])
}

#[test]
fn ranks_every_category() {
    let cases: Vec<(Vec<Card>, HandRank, Vec<u8>)> = vec![
        (vec![c(Ace, Hearts), c(Jack, Spades), c(Nine, Clubs), c(Six, Diamonds), c(Three, Hearts)], HandRank::HighCard, vec![14]),
        (vec![c(Eight, Hearts), c(Eight, Spades), c(Ace, Clubs), c(King, Diamonds), c(Two, Hearts)], HandRank::OnePair, vec![8]),
        (vec![c(Jack, Hearts), c(Four, Spades), c(Jack, Clubs), c(Nine, Diamonds), c(Four, Hearts)], HandRank::TwoPair, vec![11, 4]),
        (vec![c(Queen, Hearts), c(Queen, Spades), c(Queen, Clubs), c(Five, Diamonds), c(Three, Hearts)], HandRank::ThreeOfAKind, vec![12]),
        (vec![c(Nine, Hearts), c(Eight, Spades), c(Seven, Clubs), c(Six, Diamonds), c(Five, Hearts)], HandRank::Straight, vec![9]),
        (vec![c(Two, Hearts), c(Five, Hearts), c(Eight, Hearts), c(Jack, Hearts), c(Ace, Hearts)], HandRank::Flush, vec![14]),
        (vec![c(King, Hearts), c(King, Spades), c(King, Clubs), c(Two, Diamonds), c(Two, Hearts)], HandRank::FullHouse, vec![13]),
        (vec![c(Seven, Hearts), c(Seven, Spades), c(Seven, Clubs), c(Seven, Diamonds), c(King, Hearts)], HandRank::FourOfAKind, vec![7]),
        (vec![c(King, Clubs), c(Queen, Clubs), c(Jack, Clubs), c(Ten, Clubs), c(Nine, Clubs)], HandRank::StraightFlush, vec![13]),
        (vec![c(Ten, Spades), c(Jack, Spades), c(Queen, Spades), c(King, Spades), c(Ace, Spades)], HandRank::RoyalFlush, vec![14]),
    ];
    for (cards, rank, values) in cases {
        let hand = hand_of(cards);
        assert_eq!(hand.rank, rank);
        assert_eq!(hand.rank_values, values);
    }
}

#[test]
fn wheel_is_a_straight_topped_by_the_ace() {
    let hand = hand_of(vec![c(Ace, Hearts), c(Two, Diamonds), c(Three, Clubs), c(Four, Spades), c(Five, Hearts)]);
    assert_eq!(hand.rank, HandRank::Straight);
    assert_eq!(hand.rank_values, vec![14]);
    let steel = hand_of(vec![c(Ace, Clubs), c(Two, Clubs), c(Three, Clubs), c(Four, Clubs), c(Five, Clubs)]);
    assert_eq!(steel.rank, HandRank::StraightFlush);
    assert_eq!(steel.rank_values, vec![14]);
}

#[test]
fn cards_are_sorted_highest_first_and_stably() {
    let hand = hand_of(vec![c(Two, Hearts), c(King, Spades), c(Two, Clubs), c(Ace, Diamonds), c(King, Hearts)]);
    assert_eq!(
        hand.cards,
        vec![c(Ace, Diamonds), c(King, Spades), c(King, Hearts), c(Two, Hearts), c(Two, Clubs)]
    );
    assert_eq!(hand.rank, HandRank::TwoPair);
    assert_eq!(hand.rank_values, vec![13, 2]);
}

#[test]
fn other_count_patterns_are_a_high_card() {
    // Six cards: four kings, a queen and a jack is no pattern the evaluator knows.
    let hand = hand_of(vec![
        c(King, Hearts), c(King, Spades), c(King, Clubs), c(King, Diamonds), c(Queen, Hearts), c(Jack, Clubs),
    ]);
    assert_eq!(hand.rank, HandRank::HighCard);
    assert_eq!(hand.rank_values, vec![13]);
    let empty = hand_of(vec![]);
    assert_eq!(empty.rank, HandRank::HighCard);
    assert!(empty.rank_values.is_empty());
}

#[test]
fn wild_cards_stand_for_the_best_card() {
    let wild = [c(Two, Clubs)];
    // The wild card becomes a third king: a full house, kings over queens.
    let hand = Hand::new(vec![c(King, Hearts), c(King, Spades), c(Queen, Clubs), c(Queen, Diamonds), c(Two, Clubs)], &wild);
    assert_eq!(hand.rank, HandRank::FullHouse);
    assert_eq!(hand.rank_values, vec![13]);
    // With nothing better to make, the wild card pairs the ace.
    let pair = Hand::new(vec![c(Ace, Hearts), c(Four, Diamonds), c(Seven, Clubs), c(Nine, Spades), c(Two, Clubs)], &wild);
    assert_eq!(pair.rank, HandRank::OnePair);
    assert_eq!(pair.rank_values, vec![14]);
    let low = Hand::new(vec![c(Three, Hearts), c(Four, Diamonds), c(Seven, Clubs), c(Nine, Spades), c(Two, Clubs)], &wild);
    assert_eq!(low.rank, HandRank::OnePair);
    assert_eq!(low.rank_values, vec![9]);
    // The hand keeps the wild card itself among its cards.
    assert_eq!(low.cards[4], c(Two, Clubs));
    // King to ten of hearts and a wild card: the wild card is the ace of hearts.
    let royal = Hand::new(vec![c(King, Hearts), c(Queen, Hearts), c(Jack, Hearts), c(Ten, Hearts), c(Two, Clubs)], &wild);
    assert_eq!(royal.rank, HandRank::RoyalFlush);
    assert_eq!(royal.rank_values, vec![14]);
    // Wild cards absent from the hand change nothing.
    let plain = Hand::new(vec![c(Ace, Hearts), c(Four, Diamonds), c(Seven, Clubs), c(Nine, Spades), c(Three, Clubs)], &wild);
    assert_eq!(plain.rank, HandRank::HighCard);
    assert_eq!(plain.rank_values, vec![14]);
}

#[test]
fn marking_cards_wild_never_lowers_a_hand() {
    let kings = vec![c(King, Hearts), c(King, Hearts), c(King, Spades), c(King, Diamonds), c(King, Clubs)];
    assert_eq!(Hand::new(kings.clone(), &[]).rank, HandRank::FiveOfAKind);
    let wild = Hand::new(kings, &[c(King, Hearts)]);
    assert_eq!(wild.rank, HandRank::FiveOfAKind);
    assert_eq!(wild.rank_values, vec![13]);
    let two_wild = Hand::new(
        vec![c(Two, Hearts), c(Seven, Diamonds), c(Nine, Clubs), c(Jack, Spades), c(Four, Clubs)],
        &[c(Two, Hearts), c(Four, Clubs)],
    );
    // Seven, nine and jack with two wild cards: the wild cards fill in the eight and the ten.
    assert_eq!(two_wild.rank, HandRank::Straight);
    assert_eq!(two_wild.rank_values, vec![11]);
}

#[test]
fn combinations_in_order() {
    let items = [1u8, 2, 3, 4, 5];
    let three = combinations(&items, 3);
    assert_eq!(three.len(), 10);
    assert_eq!(three[0], vec![1, 2, 3]);
    assert_eq!(three[1], vec![1, 2, 4]);
    assert_eq!(three[9], vec![3, 4, 5]);
    assert!(three.iter().all(|c| c.len() == 3));
    assert_eq!(combinations(&items, 0), vec![Vec::<u8>::new()]);
    assert!(combinations(&items, 6).is_empty());
    assert_eq!(combinations(&[0u8; 0], 0).len(), 1);
    assert_eq!(combinations(&[7u8, 8, 9, 10, 11, 12, 13], 2).len(), 21);
}

#[test]
fn fresh_deck_order_and_dealing() {
    let mut deck = Deck::new(1);
    assert_eq!(deck.remaining(), 52);
    assert_eq!(deck.deal(), Some(c(Rank::Ace, Suit::Spades)));
    assert_eq!(deck.deal(), Some(c(Rank::King, Suit::Spades)));
    assert_eq!(deck.remaining(), 50);
    let mut empty = Deck::new(0);
    assert_eq!(empty.remaining(), 0);
    assert_eq!(empty.deal(), None);
    assert_eq!(empty.remaining(), 0);
}

#[test]
fn fresh_deck_holds_each_card_once() {
    let mut deck = Deck::new(1);
    let mut seen = HashSet::new();
    let mut first = Vec::new();
    while let Some(card) = deck.deal() {
        first.push(card);
        assert!(seen.insert(card));
    }
    assert_eq!(seen.len(), 52);
    assert_eq!(first[51], c(Rank::Two, Suit::Hearts));
    assert_eq!(first[12], c(Rank::Two, Suit::Spades));
    assert_eq!(first[13], c(Rank::Ace, Suit::Clubs));
}

#[test]
fn shuffle_keeps_the_cards_and_moves_them() {
    let mut fresh = Deck::new(2);
    let mut shuffled = Deck::new(2);
    shuffled.shuffle();
    assert_eq!(shuffled.remaining(), 104);
    let mut a = Vec::new();
    let mut b = Vec::new();
    while let Some(card) = fresh.deal() {
        a.push(card);
    }
    while let Some(card) = shuffled.deal() {
        b.push(card);
    }
    assert_ne!(a, b);
    let key = |c: &Card| (c.rank, c.suit);
    a.sort_by_key(key);
    b.sort_by_key(key);
    assert_eq!(a, b);
}

#[test]
fn player_uses_the_allowed_number_of_hole_cards() {
    let mut player = Player::new(3);
    player.add_hole_card(c(Ace, Spades));
    player.add_hole_card(c(Ace, Clubs));
    let board = vec![c(Two, Hearts), c(Seven, Diamonds), c(Nine, Clubs), c(Jack, Hearts), c(Four, Spades)];
    player.evaluate_hand(&board, &[], &(0..=0));
    assert_eq!(player.best_hand.as_ref().unwrap().rank, HandRank::HighCard);
    player.evaluate_hand(&board, &[], &(2..=2));
    let best = player.best_hand.as_ref().unwrap();
    assert_eq!(best.rank, HandRank::OnePair);
    assert_eq!(best.rank_values, vec![14]);
    // Five hole cards are more than the player holds: no hand at all.
    player.evaluate_hand(&board, &[], &(5..=5));
    assert!(player.best_hand.is_none());
    // An inverted range allows nothing.
    player.evaluate_hand(&board, &[], &(2..=1));
    assert!(player.best_hand.is_none());
    // A board too small for the split: no hand.
    player.evaluate_hand(&board[..2], &[], &(0..=2));
    assert!(player.best_hand.is_none());
    assert_eq!(player.id, 3);
    assert_eq!(player.hole_cards.len(), 2);
}

#[test]
fn wider_hole_play_is_never_worse() {
    let hole = [c(Nine, Hearts), c(Nine, Spades), c(Two, Clubs), c(Three, Diamonds)];
    let board = vec![c(Nine, Clubs), c(Nine, Diamonds), c(King, Hearts), c(Five, Spades), c(Six, Hearts)];
    let mut narrow = Player::new(1);
    let mut wide = Player::new(2);
    for card in hole {
        narrow.add_hole_card(card);
        wide.add_hole_card(card);
    }
    narrow.evaluate_hand(&board, &[], &(2..=2));
    wide.evaluate_hand(&board, &[], &(0..=4));
    let n = narrow.best_hand.as_ref().unwrap().rank;
    let w = wide.best_hand.as_ref().unwrap().rank;
    assert_eq!(n, HandRank::FourOfAKind);
    assert!(w.strength() >= n.strength());
}

#[test]
fn rules_errors_each_variant() {
    let base = || GameRules::builder();
    assert_eq!(base().players(0).build().unwrap_err(), RulesError::NoPlayers);
    assert_eq!(base().decks(0).build().unwrap_err(), RulesError::NoDecks);
    assert_eq!(
        base().hole_cards(1).community_cards(3).build().unwrap_err(),
        RulesError::HandTooSmall { available: 4 }
    );
    assert_eq!(
        base().hole_cards_to_play(3..=1).build().unwrap_err(),
        RulesError::EmptyHolePlayRange { min: 3, max: 1 }
    );
    assert_eq!(
        base().hole_cards(2).community_cards(3).hole_cards_to_play(0..=1).build().unwrap_err(),
        RulesError::HolePlayUnsatisfiable { min: 0, max: 1, hole: 2, community: 3 }
    );
    assert_eq!(
        base().players(24).build().unwrap_err(),
        RulesError::NotEnoughCards { needed: 53, available: 52 }
    );
    assert!(base().players(23).build().is_ok());
}

#[test]
fn preset_seat_limits() {
    assert!(GameRules::texas_holdem(23).validate().is_ok());
    assert!(GameRules::texas_holdem(24).validate().is_err());
    assert!(GameRules::omaha(11).validate().is_ok());
    assert!(GameRules::omaha(12).validate().is_err());
    assert!(GameRules::five_card_draw(10).validate().is_ok());
    assert!(GameRules::five_card_draw(11).validate().is_err());
    assert_eq!(GameRules::texas_holdem(0).validate(), Err(RulesError::NoPlayers));
}

#[test]
fn presets_and_formulas() {
    let t = GameRules::texas_holdem(4);
    assert_eq!((t.hole_cards_per_player, t.community_cards, t.num_decks), (2, 5, 1));
    assert_eq!(t.hole_cards_to_play, 0..=2);
    let o = GameRules::omaha(3);
    assert_eq!(o.hole_cards_to_play, 2..=2);
    let d = GameRules::five_card_draw(2);
    assert_eq!((d.hole_cards_per_player, d.community_cards), (5, 0));
    assert_eq!(d.hole_cards_to_play, 5..=5);
    assert_eq!(t.cards_needed(), 13);
    assert_eq!(GameRules::builder().decks(3).build().unwrap().deck_size(), 156);
    let default = GameRules::default();
    assert_eq!(default.num_players, 2);
    assert_eq!(default.hole_cards_to_play, 0..=2);
}

#[test]
fn explicit_hole_play_survives_hole_cards() {
    let pinned = GameRules::builder().hole_cards_to_play(2..=2).hole_cards(4).build().unwrap();
    assert_eq!(pinned.hole_cards_to_play, 2..=2);
    assert_eq!(pinned.hole_cards_per_player, 4);
    let free = GameRules::builder().hole_cards(4).build().unwrap();
    assert_eq!(free.hole_cards_to_play, 0..=4);
}

#[test]
fn builder_wild_cards() {
    let ace = c(Rank::Ace, Suit::Spades);
    let two = c(Rank::Two, Suit::Clubs);
    let rules = GameRules::builder().wild_cards(vec![ace]).add_wild_card(two).build().unwrap();
    assert_eq!(rules.wild_cards, vec![ace, two]);
}

#[test]
fn error_messages() {
    assert_eq!(RulesError::NoPlayers.message(), "at least one player is required");
    assert_eq!(RulesError::NoDecks.message(), "at least one deck is required");
    assert_eq!(
        RulesError::HandTooSmall { available: 2 }.message(),
        "a 5-card hand is impossible: only 2 card(s) per player (hole + community)"
    );
    assert_eq!(
        RulesError::NotEnoughCards { needed: 65, available: 52 }.message(),
        "not enough cards: the deal needs 65 but the shoe holds 52"
    );
    assert_eq!(
        RulesError::EmptyHolePlayRange { min: 3, max: 1 }.message(),
        "hole cards to play range is empty: min 3 is greater than max 1"
    );
    assert_eq!(
        RulesError::HolePlayUnsatisfiable { min: 0, max: 2, hole: 5, community: 0 }.message(),
        "cannot form a 5-card hand playing 0..=2 hole cards from 5 hole + 0 community"
    );
}

#[test]
fn names_and_notation() {
    assert_eq!(HandRank::FullHouse.name(), "Full House");
    assert_eq!(HandRank::FiveOfAKind.name(), "Five of a Kind");
    assert_eq!(c(Rank::Ten, Suit::Hearts).text(), "10H");
    assert_eq!(c(Rank::Ace, Suit::Spades).text(), "AS");
    assert_eq!(Rank::from_symbol("10"), Some(Rank::Ten));
    assert_eq!(Rank::from_symbol("T"), Some(Rank::Ten));
    assert_eq!(Rank::from_symbol("K"), Some(Rank::King));
    assert_eq!(Rank::from_symbol("1"), None);
    assert_eq!(Rank::from_symbol("k"), None);
    assert_eq!(Suit::from_symbol("D"), Some(Suit::Diamonds));
    assert_eq!(Suit::from_symbol("X"), None);
    assert_eq!(Suit::from_symbol("HH"), None);
    assert_eq!(Rank::Queen.value(), 12);
    assert_eq!(Rank::from_value(14), Some(Rank::Ace));
    assert_eq!(Rank::from_value(1), None);
    let royal = hand_of(vec![
        c(Rank::Ten, Suit::Hearts), c(Rank::Jack, Suit::Hearts), c(Rank::Queen, Suit::Hearts),
        c(Rank::King, Suit::Hearts), c(Rank::Ace, Suit::Hearts),
    ]);
    assert_eq!(royal.text(), "AH KH QH JH 10H (Royal Flush)");
    let mut player = Player::new(12);
    assert_eq!(player.text(), "Player 12: ");
    player.add_hole_card(c(Rank::King, Suit::Spades));
    player.add_hole_card(c(Rank::Two, Suit::Clubs));
    assert_eq!(player.text(), "Player 12: KS 2C");
    player.best_hand = Some(royal);
    assert_eq!(player.text(), "Player 12: KS 2C -> AH KH QH JH 10H (Royal Flush)");
}

#[test]
fn strengths_are_ordered() {
    let order = [
        HandRank::HighCard, HandRank::OnePair, HandRank::TwoPair, HandRank::ThreeOfAKind,
        HandRank::Straight, HandRank::Flush, HandRank::FullHouse, HandRank::FourOfAKind,
        HandRank::StraightFlush, HandRank::RoyalFlush, HandRank::FiveOfAKind,
    ];
    for (i, r) in order.iter().enumerate() {
        assert_eq!(r.strength() as usize, i);
        if i > 0 {
            assert!(r.beats(&order[i - 1]));
            assert!(!order[i - 1].beats(r));
        }
    }
}

#[test]
fn dealing_from_an_unshuffled_shoe() {
    let mut sim = PokerSimulator::new(GameRules::texas_holdem(2));
    assert_eq!(sim.players[0].id, 1);
    assert_eq!(sim.players[1].id, 2);
    assert_eq!(sim.deck.remaining(), 52);
    sim.deal_hole_cards();
    assert_eq!(sim.players[0].hole_cards, vec![c(Ace, Spades), c(Queen, Spades)]);
    assert_eq!(sim.players[1].hole_cards, vec![c(King, Spades), c(Jack, Spades)]);
    sim.deal_community_cards(5);
    assert_eq!(
        sim.community_cards,
        vec![c(Ten, Spades), c(Nine, Spades), c(Eight, Spades), c(Seven, Spades), c(Six, Spades)]
    );
    assert_eq!(sim.deck.remaining(), 43);
    sim.evaluate_all_hands();
    // The board alone is a straight flush; of equal categories the first found stays.
    for p in &sim.players {
        let best = p.best_hand.as_ref().unwrap();
        assert_eq!(best.rank, HandRank::StraightFlush);
        assert_eq!(best.rank_values, vec![10]);
    }
    let winners = sim.get_winners();
    assert_eq!(winners.len(), 2);
    assert_eq!(sim.get_hand_types(), vec![HandRank::StraightFlush, HandRank::StraightFlush]);
}

#[test]
fn dealing_runs_out_gracefully() {
    let rules = GameRules::builder().players(30).build();
    assert!(rules.is_err());
    let mut raw = GameRules::texas_holdem(30);
    raw.num_decks = 1;
    let mut sim = PokerSimulator::new(raw);
    sim.deal_hole_cards();
    let dealt: usize = sim.players.iter().map(|p| p.hole_cards.len()).sum();
    assert_eq!(dealt, 52);
    assert_eq!(sim.players[0].hole_cards.len(), 2);
    assert_eq!(sim.players[29].hole_cards.len(), 1);
    sim.deal_community_cards(5);
    assert!(sim.community_cards.is_empty());
    assert_eq!(sim.deck.remaining(), 0);
}

#[test]
fn winners_share_the_top_category() {
    let mut sim = PokerSimulator::new(GameRules::texas_holdem(3));
    sim.players[0].best_hand = Some(hand_of(vec![c(Two, Hearts), c(Two, Spades), c(Five, Clubs), c(Nine, Diamonds), c(Jack, Hearts)]));
    sim.players[2].best_hand = Some(hand_of(vec![c(Three, Hearts), c(Three, Spades), c(Six, Clubs), c(Ten, Diamonds), c(Queen, Hearts)]));
    let winners = sim.get_winners();
    assert_eq!(winners.iter().map(|p| p.id).collect::<Vec<_>>(), vec![1, 3]);
    assert_eq!(sim.get_hand_types(), vec![HandRank::OnePair, HandRank::OnePair]);
    sim.players[1].best_hand = Some(hand_of(vec![c(Four, Hearts), c(Four, Spades), c(Four, Clubs), c(Ten, Diamonds), c(Queen, Hearts)]));
    let winners = sim.get_winners();
    assert_eq!(winners.iter().map(|p| p.id).collect::<Vec<_>>(), vec![2]);
    let empty = PokerSimulator::new(GameRules::texas_holdem(2));
    assert!(empty.get_winners().is_empty());
    assert!(empty.get_hand_types().is_empty());
}

#[test]
fn high_cards_can_win() {
    let mut sim = PokerSimulator::new(GameRules::texas_holdem(2));
    sim.players[1].best_hand = Some(hand_of(vec![c(Two, Hearts), c(Four, Spades), c(Six, Clubs), c(Nine, Diamonds), c(Jack, Hearts)]));
    let winners = sim.get_winners();
    assert_eq!(winners.len(), 1);
    assert_eq!(winners[0].id, 2);
}

#[test]
fn complete_hands_deal_in_full() {
    for rules in [GameRules::texas_holdem(6), GameRules::omaha(4), GameRules::five_card_draw(5)] {
        assert!(rules.validate().is_ok());
        let holes = rules.hole_cards_per_player;
        let board = rules.community_cards;
        let players = rules.num_players;
        let mut sim = PokerSimulator::new(rules);
        sim.simulate_complete_hand();
        let mut seen = HashSet::new();
        for p in &sim.players {
            assert_eq!(p.hole_cards.len(), holes);
            assert!(p.best_hand.is_some());
            for card in &p.hole_cards {
                assert!(seen.insert(*card));
            }
        }
        assert_eq!(sim.community_cards.len(), board);
        for card in &sim.community_cards {
            assert!(seen.insert(*card));
        }
        assert_eq!(sim.deck.remaining(), 52 - players * holes - board);
        assert_eq!(sim.get_hand_types().len(), players);
    }
}

#[test]
fn single_deck_never_five_of_a_kind() {
    for _ in 0..200 {
        let mut sim = PokerSimulator::new(GameRules::texas_holdem(9));
        sim.simulate_complete_hand();
        for t in sim.get_hand_types() {
            assert_ne!(t, HandRank::FiveOfAKind);
        }
    }
}

#[test]
fn deal_hand_clears_the_previous_hand() {
    let mut sim = PokerSimulator::new(GameRules::texas_holdem(3));
    sim.simulate_complete_hand();
    sim.deal_hand();
    assert!(sim.community_cards.is_empty());
    for p in &sim.players {
        assert!(p.best_hand.is_none());
        assert_eq!(p.hole_cards.len(), 2);
    }
    assert_eq!(sim.deck.remaining(), 46);
}

#[test]
fn order_of_five_cards_is_irrelevant() {
    let cards = vec![c(Nine, Hearts), c(Nine, Clubs), c(Four, Spades), c(Four, Diamonds), c(Ace, Hearts)];
    let mut reversed = cards.clone();
    reversed.reverse();
    let rotated = vec![cards[2], cards[3], cards[4], cards[0], cards[1]];
    let wild = [c(Ace, Hearts)];
    for wilds in [&[][..], &wild[..]] {
        let a = Hand::new(cards.clone(), wilds);
        let b = Hand::new(reversed.clone(), wilds);
        let r = Hand::new(rotated.clone(), wilds);
        assert_eq!(a.rank, b.rank);
        assert_eq!(a.rank, r.rank);
        assert_eq!(a.rank_values, b.rank_values);
        assert_eq!(a.rank_values, r.rank_values);
    }
    assert_eq!(Hand::new(cards.clone(), &[]).rank, HandRank::TwoPair);
    assert_eq!(Hand::new(cards, &wild).rank, HandRank::FullHouse);
}

#[test]
fn dealing_conserves_the_shoe() {
    let mut sim = PokerSimulator::new(GameRules::omaha(5));
    sim.simulate_complete_hand();
    let mut all: Vec<Card> = Vec::new();
    for p in &sim.players {
        all.extend(p.hole_cards.iter().copied());
    }
    all.extend(sim.community_cards.iter().copied());
    while let Some(card) = sim.deck.deal() {
        all.push(card);
    }
    let mut fresh = Deck::new(1);
    let mut expected = Vec::new();
    while let Some(card) = fresh.deal() {
        expected.push(card);
    }
    let key = |c: &Card| (c.rank, c.suit);
    all.sort_by_key(key);
    expected.sort_by_key(key);
    assert_eq!(all, expected);
}

#[test]
fn validation_arithmetic_limits() {
    assert!(GameRules::texas_holdem(6).can_validate());
    let mut huge = GameRules::texas_holdem(usize::MAX);
    assert!(!huge.can_validate());
    huge.num_players = 0;
    assert!(huge.can_validate());
    let mut big_board = GameRules::texas_holdem(2);
    big_board.community_cards = usize::MAX;
    assert!(!big_board.can_validate());
    big_board.num_decks = 0;
    assert!(big_board.can_validate());
    let mut shoe = GameRules::texas_holdem(2);
    shoe.num_decks = usize::MAX;
    assert!(!shoe.can_validate());
}

#[test]
fn card_notation_is_read_in_either_case() {
    assert_eq!(Card::parse("AS"), Ok(c(Ace, Spades)));
    assert_eq!(Card::parse("kd"), Ok(c(King, Diamonds)));
    assert_eq!(Card::parse("2c"), Ok(c(Two, Clubs)));
    assert_eq!(Card::parse("10H"), Ok(c(Ten, Hearts)));
    assert_eq!(Card::parse("10h"), Ok(c(Ten, Hearts)));
    assert_eq!(Card::parse("tS"), Ok(c(Ten, Spades)));
    assert_eq!(Card::parse("  qh\t"), Ok(c(Queen, Hearts)));
    assert_eq!(Card::parse("\u{3000}Jc\n"), Ok(c(Jack, Clubs)));
    // The long s upper-cases to S.
    assert_eq!(Card::parse("A\u{17F}"), Ok(c(Ace, Spades)));
}

#[test]
fn card_notation_errors() {
    assert_eq!(Card::parse(""), Err(CardParseError::TooShort));
    assert_eq!(Card::parse("  A  "), Err(CardParseError::TooShort));
    assert_eq!(Card::parse("AX"), Err(CardParseError::UnknownSuit));
    assert_eq!(Card::parse("A S"), Err(CardParseError::UnknownRank));
    assert_eq!(Card::parse("1S"), Err(CardParseError::UnknownRank));
    assert_eq!(Card::parse("11S"), Err(CardParseError::UnknownRank));
    assert_eq!(Card::parse("100S"), Err(CardParseError::UnknownRank));
    assert_eq!(Card::parse("ZZ"), Err(CardParseError::UnknownSuit));
    assert_eq!(Card::parse("\u{e9}S"), Err(CardParseError::UnknownRank));
    // Upper-casing can lengthen the text: the sharp s becomes `SS`, a ligature two letters.
    assert_eq!(Card::parse("\u{df}"), Err(CardParseError::UnknownRank));
    assert_eq!(Card::parse("A\u{df}"), Err(CardParseError::UnknownRank));
    assert_eq!(Card::parse("\u{fb00}"), Err(CardParseError::UnknownSuit));
    assert_eq!(Card::parse("K\u{fb01}"), Err(CardParseError::UnknownSuit));
    assert_eq!(Card::parse("\u{131}"), Err(CardParseError::TooShort));
    assert_eq!(Card::parse("\u{17f}"), Err(CardParseError::TooShort));
}

#[test]
fn card_notation_round_trips() {
    for card in fresh_deck_cards() {
        assert_eq!(Card::parse(&card.text()), Ok(card));
        assert_eq!(Card::parse(&card.text().to_lowercase()), Ok(card));
    }
}

#[test]
fn hole_ranges_in_text() {
    assert_eq!(parse_hole_range("0..=2"), Some((0, 2)));
    assert_eq!(parse_hole_range("2..=2"), Some((2, 2)));
    assert_eq!(parse_hole_range("2..2"), Some((2, 2)));
    assert_eq!(parse_hole_range("2-2"), Some((2, 2)));
    assert_eq!(parse_hole_range("2"), Some((2, 2)));
    assert_eq!(parse_hole_range(" 1 ..= 3 "), Some((1, 3)));
    assert_eq!(parse_hole_range("+1..+4"), Some((1, 4)));
    assert_eq!(parse_hole_range("3..=1"), Some((3, 1)));
    assert_eq!(parse_hole_range("18446744073709551615"), Some((usize::MAX, usize::MAX)));
}

#[test]
fn hole_ranges_that_do_not_read() {
    assert_eq!(parse_hole_range(""), None);
    assert_eq!(parse_hole_range("two"), None);
    assert_eq!(parse_hole_range("1..=x"), None);
    assert_eq!(parse_hole_range("..=2"), None);
    assert_eq!(parse_hole_range("1..=2..=3"), None);
    assert_eq!(parse_hole_range("-1..=2"), None);
    assert_eq!(parse_hole_range("+"), None);
    assert_eq!(parse_hole_range("1 2"), None);
    assert_eq!(parse_hole_range("18446744073709551616"), None);
    assert_eq!(parse_hole_range("99999999999999999999999"), None);
}

#[test]
fn presets_are_overridden_by_explicit_settings() {
    let base = GameRules::omaha(4);
    let same = base.clone().with_overrides(None, None, None, None, vec![], None);
    assert_eq!(same.num_players, 4);
    assert_eq!(same.hole_cards_per_player, 4);
    assert_eq!(same.hole_cards_to_play, 2..=2);
    let more = GameRules::texas_holdem(2).with_overrides(Some(6), Some(3), Some(4), Some(2), vec![c(Ace, Spades)], None);
    assert_eq!(more.num_players, 6);
    assert_eq!(more.hole_cards_per_player, 3);
    assert_eq!(more.community_cards, 4);
    assert_eq!(more.num_decks, 2);
    assert_eq!(more.wild_cards, vec![c(Ace, Spades)]);
    assert_eq!(more.hole_cards_to_play, 0..=3);
    let pinned = GameRules::texas_holdem(2).with_overrides(None, Some(6), None, None, vec![], Some((2, 4)));
    assert_eq!(pinned.hole_cards_per_player, 6);
    assert_eq!(pinned.hole_cards_to_play, 2..=4);
    let range_only = GameRules::five_card_draw(3).with_overrides(None, None, None, None, vec![], Some((1, 2)));
    assert_eq!(range_only.hole_cards_per_player, 5);
    assert_eq!(range_only.hole_cards_to_play, 1..=2);
}

#[test]
fn table_in_writing() {
    let mut rules = GameRules::texas_holdem(2);
    rules.wild_cards = vec![c(Two, Clubs)];
    let mut sim = PokerSimulator::new(rules);
    assert_eq!(
        sim.state_text(),
        "=== Poker Hand Simulation ===\nPlayers: 2\nHole cards per player: 2\nWild cards: 2C\n\n--- Players ---\nPlayer 1: \nPlayer 2: \n\nCards remaining in deck: 52\n"
    );
    sim.simulate_complete_hand();
    let text = sim.state_text();
    assert!(text.contains("Community cards: "));
    assert!(text.contains("\n--- Winners ---\n"));
    assert!(text.ends_with("\nCards remaining in deck: 43\n"));
}
