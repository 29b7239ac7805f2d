//! A player: hole cards and the best five-card hand they make with the board.

use vstd::prelude::*;
use core::ops::RangeInclusive;
use crate::card::Card;
use crate::hand::{
    Hand, HandRank, cards_text, combinations, combos, evaluates, hand_text, level,
    push_cards_text, sorted_by_rank, views_as, wild_evaluation,
};
use crate::text::{decimal, push_decimal};

verus! {

/// A seat at the table.
#[derive(Debug)]
pub struct Player {
    pub id: usize,
    pub hole_cards: Vec<Card>,
    pub best_hand: Option<Hand>,
}

/// Every hand of one card list from `hcs` followed by one from `bcs`, taking the
/// lists of `hcs` in order and, for each, the lists of `bcs` in order.
pub open spec fn pair_up(hcs: Seq<Seq<Card>>, bcs: Seq<Seq<Card>>) -> Seq<Seq<Card>>
    decreases hcs.len(),
{
    if hcs.len() == 0 {
        Seq::empty()
    } else {
        pair_up(hcs.drop_last(), bcs) + bcs.map_values(|b: Seq<Card>| hcs.last() + b)
    }
}

/// The five-card hands that use exactly `h` hole cards and `5 - h` board cards.
pub open spec fn hands_using(hole: Seq<Card>, board: Seq<Card>, h: int) -> Seq<Seq<Card>> {
    pair_up(combos(hole, h as nat), combos(board, (5 - h) as nat))
}

/// The five-card hands that use `lo`, `lo + 1`, ..., `hi` hole cards, in that order.
pub open spec fn hands_using_between(hole: Seq<Card>, board: Seq<Card>, lo: int, hi: int) -> Seq<
    Seq<Card>,
>
    decreases hi + 1 - lo,
{
    if hi < lo {
        Seq::empty()
    } else {
        hands_using_between(hole, board, lo, hi - 1) + hands_using(hole, board, hi)
    }
}

/// The most hole cards a hand may use: the range's end, but no more than the player
/// holds and no more than five.
pub open spec fn hole_use_limit(hole_len: int, end: int) -> int {
    let m = if end < hole_len { end } else { hole_len };
    if m < 5 { m } else { 5 }
}

/// The five-card hands a player may make: `h` hole cards and `5 - h` board cards
/// for each `h` from `lo` up to `hole_use_limit`.
pub open spec fn five_card_hands(hole: Seq<Card>, board: Seq<Card>, lo: int, hi: int) -> Seq<
    Seq<Card>,
> {
    hands_using_between(hole, board, lo, hole_use_limit(hole.len() as int, hi))
}

/// The category of the cards `cards` with the wild cards `wilds`.
pub open spec fn category(cards: Seq<Card>, wilds: Seq<Card>) -> HandRank {
    wild_evaluation(sorted_by_rank(cards), wilds).0
}

/// `cands[j]` is the first of `cands` whose category is the highest among them.
pub open spec fn first_best(cands: Seq<Seq<Card>>, wilds: Seq<Card>, j: int) -> bool {
    &&& 0 <= j < cands.len()
    &&& forall|i: int|
        0 <= i < cands.len() ==> level(#[trigger] category(cands[i], wilds)) <= level(
            category(cands[j], wilds),
        )
    &&& forall|i: int|
        0 <= i < j ==> level(#[trigger] category(cands[i], wilds)) < level(
            category(cands[j], wilds),
        )
}

/// `p.best_hand` is the best five-card hand `p` makes from its hole cards and the
/// board `board`, with the cards among `wilds` wild and `lo..=hi` hole cards used:
/// none if no such hand exists, else the first one found of the highest category.
pub open spec fn holds_best_hand(p: Player, board: Seq<Card>, wilds: Seq<Card>, lo: int, hi: int) -> bool {
    let cands = five_card_hands(p.hole_cards@, board, lo, hi);
    &&& p.best_hand is None <==> cands.len() == 0
    &&& p.best_hand matches Some(b) ==> exists|j: int|
        first_best(cands, wilds, j) && #[trigger] evaluates(b, cands[j], wilds)
}

/// The lists `a[i] + b[j]` for every `i`, and for each `i` every `j`.
fn join_all(a: &Vec<Vec<Card>>, b: &Vec<Vec<Card>>) -> (out: Vec<Vec<Card>>)
    ensures
        forall|sa: Seq<Seq<Card>>, sb: Seq<Seq<Card>>|
            views_as(a@, sa) && views_as(b@, sb) ==> #[trigger] views_as(out@, pair_up(sa, sb)),
{
    let ghost sa = Seq::new(a@.len(), |i: int| a@[i]@);
    let ghost sb = Seq::new(b@.len(), |i: int| b@[i]@);
    let mut out: Vec<Vec<Card>> = Vec::new();
    let mut i: usize = 0;
    while i < a.len()
        invariant
            i <= a@.len(),
            sa == Seq::new(a@.len(), |i: int| a@[i]@),
            sb == Seq::new(b@.len(), |i: int| b@[i]@),
            views_as(out@, pair_up(sa.take(i as int), sb)),
        decreases a@.len() - i,
    {
        let ghost before = out@;
        let mut j: usize = 0;
        while j < b.len()
            invariant
                i < a@.len(),
                j <= b@.len(),
                sa == Seq::new(a@.len(), |i: int| a@[i]@),
                sb == Seq::new(b@.len(), |i: int| b@[i]@),
                views_as(before, pair_up(sa.take(i as int), sb)),
                out@.len() == before.len() + j,
                forall|x: int| 0 <= x < before.len() ==> #[trigger] out@[x] == before[x],
                forall|y: int|
                    0 <= y < j ==> #[trigger] out@[before.len() + y]@ == a@[i as int]@ + b@[y]@,
            decreases b@.len() - j,
        {
            let mut joined: Vec<Card> = Vec::new();
            let mut x: usize = 0;
            while x < a[i].len()
                invariant
                    i < a@.len(),
                    x <= a@[i as int]@.len(),
                    joined@ == a@[i as int]@.take(x as int),
                decreases a@[i as int]@.len() - x,
            {
                joined.push(a[i][x]);
                x = x + 1;
                assert(joined@ =~= a@[i as int]@.take(x as int));
            }
            let mut y: usize = 0;
            while y < b[j].len()
                invariant
                    i < a@.len(),
                    j < b@.len(),
                    x == a@[i as int]@.len(),
                    y <= b@[j as int]@.len(),
                    joined@ == a@[i as int]@ + b@[j as int]@.take(y as int),
                decreases b@[j as int]@.len() - y,
            {
                joined.push(b[j][y]);
                y = y + 1;
                assert(joined@ =~= a@[i as int]@ + b@[j as int]@.take(y as int));
            }
            assert(b@[j as int]@.take(y as int) =~= b@[j as int]@);
            assert(a@[i as int]@.take(x as int) =~= a@[i as int]@);
            out.push(joined);
            j = j + 1;
        }
        proof {
            let p = sa.take(i + 1);
            assert(p.drop_last() =~= sa.take(i as int));
            assert(p.last() == a@[i as int]@);
            let tail = sb.map_values(|bb: Seq<Card>| p.last() + bb);
            assert(pair_up(p, sb) == pair_up(sa.take(i as int), sb) + tail);
            assert forall|x: int| 0 <= x < out@.len() implies #[trigger] out@[x]@ == pair_up(p, sb)[x] by {
                if x < before.len() {
                } else {
                    assert(out@[before.len() + (x - before.len())]@ == a@[i as int]@ + b@[x - before.len()]@);
                }
            }
        }
        i = i + 1;
    }
    assert(sa.take(a@.len() as int) =~= sa);
    assert forall|ta: Seq<Seq<Card>>, tb: Seq<Seq<Card>>|
        views_as(a@, ta) && views_as(b@, tb) implies #[trigger] views_as(out@, pair_up(ta, tb)) by {
        assert(ta =~= sa);
        assert(tb =~= sb);
    }
    out
}

/// The five-card hands using `lo..=hi` hole cards.
fn five_card_candidates(hole: &Vec<Card>, board: &[Card], lo: usize, hi: usize) -> (out: Vec<
    Vec<Card>,
>)
    requires
        hi <= 5,
    ensures
        views_as(out@, hands_using_between(hole@, board@, lo as int, hi as int)),
{
    let mut out: Vec<Vec<Card>> = Vec::new();
    if lo > hi {
        return out;
    }
    let mut h: usize = lo;
    while h <= hi
        invariant
            lo <= h <= hi + 1,
            hi <= 5,
            views_as(out@, hands_using_between(hole@, board@, lo as int, h - 1)),
        decreases hi + 1 - h,
    {
        let hole_combos = combinations(hole.as_slice(), h);
        let board_combos = combinations(board, 5 - h);
        let mut block = join_all(&hole_combos, &board_combos);
        let ghost left = out@;
        let ghost right = block@;
        let ghost hcs = combos(hole@, h as nat);
        let ghost bcs = combos(board@, (5 - h) as nat);
        assert(views_as(block@, pair_up(hcs, bcs)));
        out.append(&mut block);
        proof {
            let want = hands_using_between(hole@, board@, lo as int, h as int);
            assert(want == hands_using_between(hole@, board@, lo as int, h - 1) + hands_using(hole@, board@, h as int));
            assert forall|x: int| 0 <= x < out@.len() implies #[trigger] out@[x]@ == want[x] by {
                if x < left.len() {
                    assert(out@[x] == left[x]);
                } else {
                    assert(out@[x] == right[x - left.len()]);
                }
            }
        }
        h = h + 1;
    }
    out
}

/// A copy of `cards`.
fn copy_cards(cards: &Vec<Card>) -> (out: Vec<Card>)
    ensures
        out@ == cards@,
{
    let mut out: Vec<Card> = Vec::new();
    let mut i: usize = 0;
    while i < cards.len()
        invariant
            i <= cards@.len(),
            out@ == cards@.take(i as int),
        decreases cards@.len() - i,
    {
        out.push(cards[i]);
        i = i + 1;
        assert(out@ =~= cards@.take(i as int));
    }
    assert(cards@.take(i as int) =~= cards@);
    out
}

/// A player in writing: number and hole cards, then the best hand if any, as in
/// `Player 1: AS KD -> AS AH KD KC 2H (Two Pair)`.
pub open spec fn player_text(p: Player) -> Seq<char> {
    let head = "Player "@ + decimal(p.id as nat) + ": "@ + cards_text(p.hole_cards@);
    match p.best_hand {
        Some(h) => head + " -> "@ + hand_text(h),
        None => head,
    }
}

impl Player {
    /// The player in writing: number and hole cards, then the best hand if any.
    pub fn text(&self) -> (t: String)
        ensures
            t@ == player_text(*self),
    {
        let mut t = String::from_str("Player ");
        push_decimal(&mut t, self.id);
        t.append(": ");
        push_cards_text(&mut t, &self.hole_cards);
        match &self.best_hand {
            Some(hand) => {
                t.append(" -> ");
                let h = hand.text();
                t.append(h.as_str());
            },
            None => {},
        }
        assert(t@ =~= player_text(*self));
        t
    }

    pub fn new(id: usize) -> (p: Player)
        ensures
            p.id == id,
            p.hole_cards@ == Seq::<Card>::empty(),
            p.best_hand is None,
    {
        Player { id, hole_cards: Vec::new(), best_hand: None }
    }

    /// Gives the player one more hole card.
    pub fn add_hole_card(&mut self, card: Card)
        ensures
            final(self).id == old(self).id,
            final(self).hole_cards@ == old(self).hole_cards@.push(card),
            final(self).best_hand == old(self).best_hand,
    {
        self.hole_cards.push(card);
    }

    /// Finds the player's best five-card hand: `h` hole cards and `5 - h` community
    /// cards, for every `h` the range allows (capped at the hole cards held and at
    /// five), with the cards among `wild_cards` wild. Of equally ranked hands the
    /// first found is kept. With no such hand the player has none.
    pub fn evaluate_hand(
        &mut self,
        community_cards: &[Card],
        wild_cards: &[Card],
        hole_cards_to_play: &RangeInclusive<usize>,
    )
        ensures
            final(self).id == old(self).id,
            final(self).hole_cards@ == old(self).hole_cards@,
            holds_best_hand(
                *final(self),
                community_cards@,
                wild_cards@,
                hole_cards_to_play@.start as int,
                hole_cards_to_play@.end as int,
            ),
    {
        let min_hole = *hole_cards_to_play.start();
        let mut max_hole = *hole_cards_to_play.end();
        if self.hole_cards.len() < max_hole {
            max_hole = self.hole_cards.len();
        }
        if 5 < max_hole {
            max_hole = 5;
        }
        let ghost cands_spec = five_card_hands(
            self.hole_cards@,
            community_cards@,
            min_hole as int,
            hole_cards_to_play@.end as int,
        );
        let cands = five_card_candidates(&self.hole_cards, community_cards, min_hole, max_hole);
        assert(views_as(cands@, cands_spec));
        let mut best: Option<Hand> = None;
        let ghost mut best_idx: int = 0;
        let mut i: usize = 0;
        while i < cands.len()
            invariant
                i <= cands@.len(),
                views_as(cands@, cands_spec),
                best is None <==> i == 0,
                best matches Some(b) ==> {
                    &&& 0 <= best_idx < i
                    &&& evaluates(b, cands_spec[best_idx], wild_cards@)
                    &&& forall|x: int|
                        0 <= x < i ==> level(#[trigger] category(cands_spec[x], wild_cards@))
                            <= level(category(cands_spec[best_idx], wild_cards@))
                    &&& forall|x: int|
                        0 <= x < best_idx ==> level(#[trigger] category(cands_spec[x], wild_cards@))
                            < level(category(cands_spec[best_idx], wild_cards@))
                },
            decreases cands@.len() - i,
        {
            let hand = Hand::new(copy_cards(&cands[i]), wild_cards);
            assert(hand.rank == category(cands_spec[i as int], wild_cards@));
            let better = match &best {
                None => true,
                Some(b) => hand.rank.beats(&b.rank),
            };
            if better {
                best = Some(hand);
                proof {
                    best_idx = i as int;
                }
            }
            i = i + 1;
        }
        assert(best matches Some(b) ==> first_best(cands_spec, wild_cards@, best_idx) && evaluates(b, cands_spec[best_idx], wild_cards@));
        self.best_hand = best;
    }
}

/// A hand is among those using `lo..=hi` hole cards exactly when it is among those
/// using some `h` of them.
proof fn lemma_between_contains(hole: Seq<Card>, board: Seq<Card>, lo: int, hi: int, x: Seq<Card>)
    ensures
        hands_using_between(hole, board, lo, hi).contains(x) <==> exists|h: int|
            lo <= h <= hi && #[trigger] hands_using(hole, board, h).contains(x),
    decreases hi + 1 - lo,
{
    if hi >= lo {
        lemma_between_contains(hole, board, lo, hi - 1, x);
        let a = hands_using_between(hole, board, lo, hi - 1);
        let b = hands_using(hole, board, hi);
        assert(hands_using_between(hole, board, lo, hi) == a + b);
        if a.contains(x) {
            let i = choose|i: int| 0 <= i < a.len() && a[i] == x;
            assert((a + b)[i] == x);
        } else if b.contains(x) {
            let i = choose|i: int| 0 <= i < b.len() && b[i] == x;
            assert((a + b)[a.len() + i] == x);
            assert(lo <= hi <= hi && hands_using(hole, board, hi).contains(x));
        }
        if (a + b).contains(x) {
            let i = choose|i: int| 0 <= i < (a + b).len() && (a + b)[i] == x;
            if i < a.len() {
                assert(a[i] == x);
            } else {
                assert(b[i - a.len()] == x);
            }
        }
    }
}

/// Allowing more ways to use the hole cards never makes the best hand worse: with the
/// same hole cards, board and wild cards, the best hand for a range of hole-card counts
/// is at least as strong as that for a narrower range within it, and exists whenever
/// that one does.
pub proof fn law_wider_hole_play_never_worse(
    wide: Player,
    narrow: Player,
    board: Seq<Card>,
    wilds: Seq<Card>,
    lo1: int,
    hi1: int,
    lo2: int,
    hi2: int,
)
    requires
        wide.hole_cards@ == narrow.hole_cards@,
        lo1 <= lo2,
        hi2 <= hi1,
        holds_best_hand(wide, board, wilds, lo1, hi1),
        holds_best_hand(narrow, board, wilds, lo2, hi2),
    ensures
        narrow.best_hand is Some ==> wide.best_hand is Some && level(wide.best_hand->0.rank) >= level(
            narrow.best_hand->0.rank,
        ),
{
    let hole = wide.hole_cards@;
    let m1 = hole_use_limit(hole.len() as int, hi1);
    let m2 = hole_use_limit(hole.len() as int, hi2);
    let c1 = five_card_hands(hole, board, lo1, hi1);
    let c2 = five_card_hands(hole, board, lo2, hi2);
    if narrow.best_hand is Some {
        let b2 = narrow.best_hand->0;
        let j2 = choose|j: int| first_best(c2, wilds, j) && #[trigger] evaluates(b2, c2[j], wilds);
        let x = c2[j2];
        assert(c2.contains(x));
        lemma_between_contains(hole, board, lo2, m2, x);
        let h = choose|h: int| lo2 <= h <= m2 && #[trigger] hands_using(hole, board, h).contains(x);
        assert(lo1 <= h <= m1 && hands_using(hole, board, h).contains(x));
        lemma_between_contains(hole, board, lo1, m1, x);
        assert(c1.contains(x));
        let i = choose|i: int| 0 <= i < c1.len() && c1[i] == x;
        assert(c1.len() > 0);
        let b1 = wide.best_hand->0;
        let j1 = choose|j: int| first_best(c1, wilds, j) && #[trigger] evaluates(b1, c1[j], wilds);
        assert(level(category(c1[i], wilds)) <= level(category(c1[j1], wilds)));
    }
}

/// `pair_up` holds every list of `hcs` joined with every list of `bcs`.
proof fn lemma_pair_up_contains(hcs: Seq<Seq<Card>>, bcs: Seq<Seq<Card>>, i: int, j: int)
    requires
        0 <= i < hcs.len(),
        0 <= j < bcs.len(),
    ensures
        pair_up(hcs, bcs).contains(hcs[i] + bcs[j]),
    decreases hcs.len(),
{
    let rest = pair_up(hcs.drop_last(), bcs);
    let last = bcs.map_values(|b: Seq<Card>| hcs.last() + b);
    assert(pair_up(hcs, bcs) == rest + last);
    if i == hcs.len() - 1 {
        assert((rest + last)[rest.len() + j] == hcs[i] + bcs[j]);
    } else {
        lemma_pair_up_contains(hcs.drop_last(), bcs, i, j);
        assert(hcs.drop_last()[i] == hcs[i]);
        let k = choose|k: int| 0 <= k < rest.len() && rest[k] == hcs[i] + bcs[j];
        assert((rest + last)[k] == hcs[i] + bcs[j]);
    }
}

/// There is a way to choose `k` items of `s` whenever `s` holds at least `k`.
proof fn lemma_combos_exist<T>(s: Seq<T>, k: nat)
    requires
        k <= s.len(),
    ensures
        combos(s, k).len() > 0,
    decreases s.len(),
{
    if k > 0 {
        lemma_combos_exist(s.drop_first(), (k - 1) as nat);
    }
}

/// Every split is a candidate: for each number `h` of hole cards in the range, no more
/// than the player holds and no more than five, every choice of `h` hole cards joined
/// with every choice of `5 - h` board cards is among the hands the player may make.
pub proof fn law_every_split_is_a_candidate(
    hole: Seq<Card>,
    board: Seq<Card>,
    lo: int,
    hi: int,
    h: int,
    i: int,
    j: int,
)
    requires
        lo <= h <= hi,
        0 <= h <= 5,
        h <= hole.len(),
        0 <= i < combos(hole, h as nat).len(),
        0 <= j < combos(board, (5 - h) as nat).len(),
    ensures
        five_card_hands(hole, board, lo, hi).contains(
            combos(hole, h as nat)[i] + combos(board, (5 - h) as nat)[j],
        ),
{
    let x = combos(hole, h as nat)[i] + combos(board, (5 - h) as nat)[j];
    lemma_pair_up_contains(combos(hole, h as nat), combos(board, (5 - h) as nat), i, j);
    assert(hands_using(hole, board, h).contains(x));
    let m = hole_use_limit(hole.len() as int, hi);
    lemma_between_contains(hole, board, lo, m, x);
}

/// A player's best hand is at least as strong as any hand of `h` of their hole cards and
/// `5 - h` board cards, for each `h` that the range allows (and no more than the player
/// holds or five): so such a player always has a best hand.
pub proof fn law_best_hand_beats_every_split(
    p: Player,
    board: Seq<Card>,
    wilds: Seq<Card>,
    lo: int,
    hi: int,
    h: int,
    i: int,
    j: int,
)
    requires
        holds_best_hand(p, board, wilds, lo, hi),
        lo <= h <= hi,
        0 <= h <= 5,
        h <= p.hole_cards@.len(),
        0 <= i < combos(p.hole_cards@, h as nat).len(),
        0 <= j < combos(board, (5 - h) as nat).len(),
    ensures
        p.best_hand is Some,
        level(p.best_hand->0.rank) >= level(
            category(combos(p.hole_cards@, h as nat)[i] + combos(board, (5 - h) as nat)[j], wilds),
        ),
{
    let hole = p.hole_cards@;
    let x = combos(hole, h as nat)[i] + combos(board, (5 - h) as nat)[j];
    let cands = five_card_hands(hole, board, lo, hi);
    law_every_split_is_a_candidate(hole, board, lo, hi, h, i, j);
    let k = choose|k: int| 0 <= k < cands.len() && cands[k] == x;
    assert(cands.len() > 0);
    let b = p.best_hand->0;
    let jb = choose|jj: int| first_best(cands, wilds, jj) && #[trigger] evaluates(b, cands[jj], wilds);
    assert(level(category(cands[k], wilds)) <= level(category(cands[jb], wilds)));
}

/// A player who holds at least `h` hole cards, with at least `5 - h` cards on the board,
/// for some `h` in the range and no more than five, has a best hand.
pub proof fn law_a_possible_split_gives_a_hand(
    p: Player,
    board: Seq<Card>,
    wilds: Seq<Card>,
    lo: int,
    hi: int,
    h: int,
)
    requires
        holds_best_hand(p, board, wilds, lo, hi),
        lo <= h <= hi,
        0 <= h <= 5,
        h <= p.hole_cards@.len(),
        5 - h <= board.len(),
    ensures
        p.best_hand is Some,
{
    lemma_combos_exist(p.hole_cards@, h as nat);
    lemma_combos_exist(board, (5 - h) as nat);
    law_best_hand_beats_every_split(p, board, wilds, lo, hi, h, 0, 0);
}

/// Everything in `pair_up(hcs, bcs)` is a list of `hcs` joined with a list of `bcs`.
proof fn lemma_pair_up_parts(hcs: Seq<Seq<Card>>, bcs: Seq<Seq<Card>>, x: Seq<Card>)
    requires
        pair_up(hcs, bcs).contains(x),
    ensures
        exists|i: int, j: int|
            0 <= i < hcs.len() && 0 <= j < bcs.len() && x == #[trigger] hcs[i] + #[trigger] bcs[j],
    decreases hcs.len(),
{
    let rest = pair_up(hcs.drop_last(), bcs);
    let last = bcs.map_values(|b: Seq<Card>| hcs.last() + b);
    assert(pair_up(hcs, bcs) == rest + last);
    let k = choose|k: int| 0 <= k < (rest + last).len() && (rest + last)[k] == x;
    if k < rest.len() {
        assert(rest[k] == x);
        lemma_pair_up_parts(hcs.drop_last(), bcs, x);
        let (i, j) = choose|i: int, j: int|
            0 <= i < hcs.drop_last().len() && 0 <= j < bcs.len() && x == #[trigger] hcs.drop_last()[i]
                + #[trigger] bcs[j];
        assert(hcs.drop_last()[i] == hcs[i]);
        assert(x == hcs[i] + bcs[j]);
    } else {
        let j = k - rest.len();
        assert(last[j] == x);
        assert(x == hcs[hcs.len() - 1] + bcs[j]);
    }
}

/// Every hand a player may make is a split: `h` of the hole cards and `5 - h` of the
/// board cards, for some `h` in the range, no more than the player holds and no more
/// than five.
pub proof fn law_every_candidate_is_a_split(
    hole: Seq<Card>,
    board: Seq<Card>,
    lo: int,
    hi: int,
    x: Seq<Card>,
)
    requires
        five_card_hands(hole, board, lo, hi).contains(x),
    ensures
        exists|h: int, i: int, j: int|
            lo <= h <= hi && h <= 5 && h <= hole.len() && 0 <= i < combos(hole, h as nat).len()
                && 0 <= j < combos(board, (5 - h) as nat).len() && x == #[trigger] combos(
                hole,
                h as nat,
            )[i] + #[trigger] combos(board, (5 - h) as nat)[j],
{
    let m = hole_use_limit(hole.len() as int, hi);
    lemma_between_contains(hole, board, lo, m, x);
    let h = choose|h: int| lo <= h <= m && #[trigger] hands_using(hole, board, h).contains(x);
    lemma_pair_up_parts(combos(hole, h as nat), combos(board, (5 - h) as nat), x);
    let (i, j) = choose|i: int, j: int|
        0 <= i < combos(hole, h as nat).len() && 0 <= j < combos(board, (5 - h) as nat).len() && x
            == #[trigger] combos(hole, h as nat)[i] + #[trigger] combos(board, (5 - h) as nat)[j];
    assert(lo <= h <= hi && h <= 5 && h <= hole.len());
}

} // verus!
