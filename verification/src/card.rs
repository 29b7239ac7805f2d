//! Playing cards: ranks, suits and the card itself.

use crate::text::{is_space, trim_end, trim_range, trim_start, trimmed};
use vstd::prelude::*;

verus! {

/// The thirteen ranks, from deuce up to ace.
#[derive(Clone, Copy, Debug, PartialEq, Eq, Structural, PartialOrd, Ord, Hash)]
pub enum Rank {
    Two,
    Three,
    Four,
    Five,
    Six,
    Seven,
    Eight,
    Nine,
    Ten,
    Jack,
    Queen,
    King,
    Ace,
}

/// The four suits.
#[derive(Clone, Copy, Debug, PartialEq, Eq, Structural, PartialOrd, Ord, Hash)]
pub enum Suit {
    Hearts,
    Diamonds,
    Clubs,
    Spades,
}

/// A single playing card.
#[derive(Clone, Copy, Debug, PartialEq, Eq, Structural, Hash)]
pub struct Card {
    pub rank: Rank,
    pub suit: Suit,
}

/// The numeric value of a rank: 2 for a deuce up to 14 for an ace.
pub open spec fn rank_num(r: Rank) -> int {
    match r {
        Rank::Two => 2,
        Rank::Three => 3,
        Rank::Four => 4,
        Rank::Five => 5,
        Rank::Six => 6,
        Rank::Seven => 7,
        Rank::Eight => 8,
        Rank::Nine => 9,
        Rank::Ten => 10,
        Rank::Jack => 11,
        Rank::Queen => 12,
        Rank::King => 13,
        Rank::Ace => 14,
    }
}

/// The rank whose value is `v` (meaningful for `2 <= v <= 14`).
pub open spec fn rank_of_num(v: int) -> Rank {
    if v <= 2 {
        Rank::Two
    } else if v == 3 {
        Rank::Three
    } else if v == 4 {
        Rank::Four
    } else if v == 5 {
        Rank::Five
    } else if v == 6 {
        Rank::Six
    } else if v == 7 {
        Rank::Seven
    } else if v == 8 {
        Rank::Eight
    } else if v == 9 {
        Rank::Nine
    } else if v == 10 {
        Rank::Ten
    } else if v == 11 {
        Rank::Jack
    } else if v == 12 {
        Rank::Queen
    } else if v == 13 {
        Rank::King
    } else {
        Rank::Ace
    }
}

/// Every rank value lies in `2..=14`, and the value determines the rank.
pub broadcast proof fn lemma_rank_num_bounds(r: Rank)
    ensures
        2 <= #[trigger] rank_num(r) <= 14,
        rank_of_num(rank_num(r)) == r,
{
}

/// The symbol of a rank in card notation: `2` to `10`, `J`, `Q`, `K`, `A`.
pub open spec fn rank_symbol(r: Rank) -> Seq<char> {
    match r {
        Rank::Two => seq!['2'],
        Rank::Three => seq!['3'],
        Rank::Four => seq!['4'],
        Rank::Five => seq!['5'],
        Rank::Six => seq!['6'],
        Rank::Seven => seq!['7'],
        Rank::Eight => seq!['8'],
        Rank::Nine => seq!['9'],
        Rank::Ten => seq!['1', '0'],
        Rank::Jack => seq!['J'],
        Rank::Queen => seq!['Q'],
        Rank::King => seq!['K'],
        Rank::Ace => seq!['A'],
    }
}

/// `s` names rank `r`: its symbol, or `T` for a ten.
pub open spec fn names_rank(r: Rank, s: Seq<char>) -> bool {
    s == rank_symbol(r) || (r == Rank::Ten && s == seq!['T'])
}

/// The symbol of a suit: `H`, `D`, `C`, `S`.
pub open spec fn suit_symbol(s: Suit) -> Seq<char> {
    match s {
        Suit::Hearts => seq!['H'],
        Suit::Diamonds => seq!['D'],
        Suit::Clubs => seq!['C'],
        Suit::Spades => seq!['S'],
    }
}

/// A card in notation: rank symbol then suit symbol, as in `AS` or `10H`.
pub open spec fn card_text(c: Card) -> Seq<char> {
    rank_symbol(c.rank) + suit_symbol(c.suit)
}

/// What can be wrong with a card written in notation.
#[derive(Clone, Copy, Debug, PartialEq, Eq, Structural)]
pub enum CardParseError {
    /// Fewer than two characters are left once the whitespace is trimmed.
    TooShort,
    /// The last character names no suit.
    UnknownSuit,
    /// What comes before the suit names no rank.
    UnknownRank,
}

/// The upper case of `c` as `char::to_uppercase` gives it, for every character whose
/// upper case holds an ASCII character: the ASCII letters, and the few others listed
/// here (the sharp s becomes `SS`, the long s `S`, the ligatures two or three letters).
/// Any other character is kept as it is: its upper case holds no ASCII character, so
/// none that card notation uses.
pub open spec fn upper_text(c: char) -> Seq<char> {
    let v = c as u32;
    if 97 <= v <= 122 {
        seq![((v - 32) as u8) as char]
    } else if v == 0xDF {
        seq!['S', 'S']
    } else if v == 0x131 {
        seq!['I']
    } else if v == 0x149 {
        seq!['\u{2BC}', 'N']
    } else if v == 0x17F {
        seq!['S']
    } else if v == 0x1F0 {
        seq!['J', '\u{30C}']
    } else if v == 0x1E96 {
        seq!['H', '\u{331}']
    } else if v == 0x1E97 {
        seq!['T', '\u{308}']
    } else if v == 0x1E98 {
        seq!['W', '\u{30A}']
    } else if v == 0x1E99 {
        seq!['Y', '\u{30A}']
    } else if v == 0x1E9A {
        seq!['A', '\u{2BE}']
    } else if v == 0xFB00 {
        seq!['F', 'F']
    } else if v == 0xFB01 {
        seq!['F', 'I']
    } else if v == 0xFB02 {
        seq!['F', 'L']
    } else if v == 0xFB03 {
        seq!['F', 'F', 'I']
    } else if v == 0xFB04 {
        seq!['F', 'F', 'L']
    } else if v == 0xFB05 {
        seq!['S', 'T']
    } else if v == 0xFB06 {
        seq!['S', 'T']
    } else {
        seq![c]
    }
}

/// The upper case of the text `t`: the upper case of each character in turn.
pub open spec fn upper_all(t: Seq<char>) -> Seq<char>
    decreases t.len(),
{
    if t.len() == 0 {
        Seq::empty()
    } else {
        upper_all(t.drop_last()) + upper_text(t.last())
    }
}

/// The suit that the character `c` names, if any.
pub open spec fn suit_named(c: char) -> Option<Suit> {
    if c == 'H' {
        Some(Suit::Hearts)
    } else if c == 'D' {
        Some(Suit::Diamonds)
    } else if c == 'C' {
        Some(Suit::Clubs)
    } else if c == 'S' {
        Some(Suit::Spades)
    } else {
        None
    }
}

/// The rank that the text `t` names, if any: `2` to `10`, `T` for a ten, `J`, `Q`, `K`, `A`.
pub open spec fn rank_named(t: Seq<char>) -> Option<Rank> {
    if t.len() == 1 {
        let c = t[0];
        if c == '2' {
            Some(Rank::Two)
        } else if c == '3' {
            Some(Rank::Three)
        } else if c == '4' {
            Some(Rank::Four)
        } else if c == '5' {
            Some(Rank::Five)
        } else if c == '6' {
            Some(Rank::Six)
        } else if c == '7' {
            Some(Rank::Seven)
        } else if c == '8' {
            Some(Rank::Eight)
        } else if c == '9' {
            Some(Rank::Nine)
        } else if c == 'T' {
            Some(Rank::Ten)
        } else if c == 'J' {
            Some(Rank::Jack)
        } else if c == 'Q' {
            Some(Rank::Queen)
        } else if c == 'K' {
            Some(Rank::King)
        } else if c == 'A' {
            Some(Rank::Ace)
        } else {
            None
        }
    } else if t == seq!['1', '0'] {
        Some(Rank::Ten)
    } else {
        None
    }
}

/// The card that the text `s` writes, in any case and with whitespace around it allowed,
/// as in `AS`, `10h` or ` kd `: the text is trimmed and upper-cased, then its last
/// character names the suit and the rest the rank.
pub open spec fn card_from_notation(s: Seq<char>) -> Result<Card, CardParseError> {
    let t = upper_all(trimmed(s));
    if t.len() < 2 {
        Err(CardParseError::TooShort)
    } else {
        match suit_named(t.last()) {
            None => Err(CardParseError::UnknownSuit),
            Some(suit) => match rank_named(t.drop_last()) {
                None => Err(CardParseError::UnknownRank),
                Some(rank) => Ok(Card { rank, suit }),
            },
        }
    }
}

/// Appends the upper case of `c` to `out`.
fn push_upper(out: &mut Vec<char>, c: char)
    ensures
        final(out)@ == old(out)@ + upper_text(c),
{
    let v = c as u32;
    if 97 <= v && v <= 122 {
        out.push(((v - 32) as u8) as char);
    } else if v == 0xDF {
        out.push('S');
        out.push('S');
    } else if v == 0x131 {
        out.push('I');
    } else if v == 0x149 {
        out.push('\u{2BC}');
        out.push('N');
    } else if v == 0x17F {
        out.push('S');
    } else if v == 0x1F0 {
        out.push('J');
        out.push('\u{30C}');
    } else if v == 0x1E96 {
        out.push('H');
        out.push('\u{331}');
    } else if v == 0x1E97 {
        out.push('T');
        out.push('\u{308}');
    } else if v == 0x1E98 {
        out.push('W');
        out.push('\u{30A}');
    } else if v == 0x1E99 {
        out.push('Y');
        out.push('\u{30A}');
    } else if v == 0x1E9A {
        out.push('A');
        out.push('\u{2BE}');
    } else if v == 0xFB00 {
        out.push('F');
        out.push('F');
    } else if v == 0xFB01 {
        out.push('F');
        out.push('I');
    } else if v == 0xFB02 {
        out.push('F');
        out.push('L');
    } else if v == 0xFB03 {
        out.push('F');
        out.push('F');
        out.push('I');
    } else if v == 0xFB04 {
        out.push('F');
        out.push('F');
        out.push('L');
    } else if v == 0xFB05 {
        out.push('S');
        out.push('T');
    } else if v == 0xFB06 {
        out.push('S');
        out.push('T');
    } else {
        out.push(c);
    }
    assert(final(out)@ =~= old(out)@ + upper_text(c));
}

fn suit_of_char(c: char) -> (r: Option<Suit>)
    ensures
        r == suit_named(c),
{
    match c {
        'H' => Some(Suit::Hearts),
        'D' => Some(Suit::Diamonds),
        'C' => Some(Suit::Clubs),
        'S' => Some(Suit::Spades),
        _ => None,
    }
}

fn rank_of_char(c: char) -> (r: Option<Rank>)
    ensures
        r == rank_named(seq![c]),
{
    match c {
        '2' => Some(Rank::Two),
        '3' => Some(Rank::Three),
        '4' => Some(Rank::Four),
        '5' => Some(Rank::Five),
        '6' => Some(Rank::Six),
        '7' => Some(Rank::Seven),
        '8' => Some(Rank::Eight),
        '9' => Some(Rank::Nine),
        'T' => Some(Rank::Ten),
        'J' => Some(Rank::Jack),
        'Q' => Some(Rank::Queen),
        'K' => Some(Rank::King),
        'A' => Some(Rank::Ace),
        _ => None,
    }
}

impl Rank {
    /// The numeric value of the rank, 2 for a deuce up to 14 for an ace.
    pub fn value(&self) -> (v: u8)
        ensures
            v == rank_num(*self),
    {
        match self {
            Rank::Two => 2,
            Rank::Three => 3,
            Rank::Four => 4,
            Rank::Five => 5,
            Rank::Six => 6,
            Rank::Seven => 7,
            Rank::Eight => 8,
            Rank::Nine => 9,
            Rank::Ten => 10,
            Rank::Jack => 11,
            Rank::Queen => 12,
            Rank::King => 13,
            Rank::Ace => 14,
        }
    }

    /// The rank with the given value, if `2 <= v <= 14`.
    pub fn from_value(v: u8) -> (r: Option<Rank>)
        ensures
            r is Some <==> 2 <= v <= 14,
            r matches Some(rank) ==> rank_num(rank) == v,
    {
        match v {
            2 => Some(Rank::Two),
            3 => Some(Rank::Three),
            4 => Some(Rank::Four),
            5 => Some(Rank::Five),
            6 => Some(Rank::Six),
            7 => Some(Rank::Seven),
            8 => Some(Rank::Eight),
            9 => Some(Rank::Nine),
            10 => Some(Rank::Ten),
            11 => Some(Rank::Jack),
            12 => Some(Rank::Queen),
            13 => Some(Rank::King),
            14 => Some(Rank::Ace),
            _ => None,
        }
    }
}

impl Rank {
    /// The rank's symbol: `2` to `10`, `J`, `Q`, `K`, `A`.
    pub fn symbol(&self) -> (s: &'static str)
        ensures
            s@ == rank_symbol(*self),
    {
        proof {
            reveal_strlit("2");
            reveal_strlit("3");
            reveal_strlit("4");
            reveal_strlit("5");
            reveal_strlit("6");
            reveal_strlit("7");
            reveal_strlit("8");
            reveal_strlit("9");
            reveal_strlit("10");
            reveal_strlit("J");
            reveal_strlit("Q");
            reveal_strlit("K");
            reveal_strlit("A");
        }
        match self {
            Rank::Two => "2",
            Rank::Three => "3",
            Rank::Four => "4",
            Rank::Five => "5",
            Rank::Six => "6",
            Rank::Seven => "7",
            Rank::Eight => "8",
            Rank::Nine => "9",
            Rank::Ten => "10",
            Rank::Jack => "J",
            Rank::Queen => "Q",
            Rank::King => "K",
            Rank::Ace => "A",
        }
    }

    /// The rank that `s` names (`2` to `10` or `T`, `J`, `Q`, `K`, `A`, upper case), if any.
    pub fn from_symbol(s: &str) -> (r: Option<Rank>)
        ensures
            r matches Some(rank) ==> names_rank(rank, s@),
            r is None ==> forall|rank: Rank| !names_rank(rank, s@),
    {
        let n = s.unicode_len();
        if n == 1 {
            let c = s.get_char(0);
            assert(s@ =~= seq![c]);
            match c {
                '2' => Some(Rank::Two),
                '3' => Some(Rank::Three),
                '4' => Some(Rank::Four),
                '5' => Some(Rank::Five),
                '6' => Some(Rank::Six),
                '7' => Some(Rank::Seven),
                '8' => Some(Rank::Eight),
                '9' => Some(Rank::Nine),
                'T' => Some(Rank::Ten),
                'J' => Some(Rank::Jack),
                'Q' => Some(Rank::Queen),
                'K' => Some(Rank::King),
                'A' => Some(Rank::Ace),
                _ => None,
            }
        } else if n == 2 {
            let c0 = s.get_char(0);
            let c1 = s.get_char(1);
            assert(s@ =~= seq![c0, c1]);
            if c0 == '1' && c1 == '0' {
                Some(Rank::Ten)
            } else {
                None
            }
        } else {
            None
        }
    }
}

impl Suit {
    /// The suit's symbol: `H`, `D`, `C`, `S`.
    pub fn symbol(&self) -> (s: &'static str)
        ensures
            s@ == suit_symbol(*self),
    {
        proof {
            reveal_strlit("H");
            reveal_strlit("D");
            reveal_strlit("C");
            reveal_strlit("S");
        }
        match self {
            Suit::Hearts => "H",
            Suit::Diamonds => "D",
            Suit::Clubs => "C",
            Suit::Spades => "S",
        }
    }

    /// The suit that `s` names (`H`, `D`, `C` or `S`, upper case), if any.
    pub fn from_symbol(s: &str) -> (r: Option<Suit>)
        ensures
            r matches Some(suit) ==> s@ == suit_symbol(suit),
            r is None ==> forall|suit: Suit| s@ != suit_symbol(suit),
    {
        if s.unicode_len() != 1 {
            return None;
        }
        let c = s.get_char(0);
        assert(s@ =~= seq![c]);
        match c {
            'H' => Some(Suit::Hearts),
            'D' => Some(Suit::Diamonds),
            'C' => Some(Suit::Clubs),
            'S' => Some(Suit::Spades),
            _ => None,
        }
    }
}

impl Card {
    pub fn new(rank: Rank, suit: Suit) -> (c: Card)
        ensures
            c.rank == rank,
            c.suit == suit,
    {
        Card { rank, suit }
    }

    /// Reads a card written in notation, such as `AS`, `10h` or `kd`: whitespace around
    /// it is ignored, letters may be of either case, the last character names the suit
    /// and the rest the rank.
    pub fn parse(s: &str) -> (r: Result<Card, CardParseError>)
        ensures
            r == card_from_notation(s@),
    {
        let (a, b) = trim_range(s, 0, s.unicode_len());
        assert(s@.subrange(0, s@.len() as int) =~= s@);
        let mut u: Vec<char> = Vec::new();
        let mut i: usize = a;
        while i < b
            invariant
                a <= i <= b <= s@.len(),
                u@ == upper_all(s@.subrange(a as int, i as int)),
            decreases b - i,
        {
            let ghost before = s@.subrange(a as int, i as int);
            push_upper(&mut u, s.get_char(i));
            proof {
                let after = s@.subrange(a as int, i + 1);
                assert(after.drop_last() =~= before);
                assert(after.last() == s@[i as int]);
            }
            i += 1;
        }
        let ghost t = upper_all(trimmed(s@));
        assert(u@ == t);
        let n = u.len();
        if n < 2 {
            return Err(CardParseError::TooShort);
        }
        let suit = match suit_of_char(u[n - 1]) {
            Some(suit) => suit,
            None => return Err(CardParseError::UnknownSuit),
        };
        let rank = if n == 2 {
            assert(t.drop_last() =~= seq![u@[0]]);
            rank_of_char(u[0])
        } else if n == 3 {
            assert(t.drop_last() =~= seq![u@[0], u@[1]]);
            if u[0] == '1' && u[1] == '0' {
                Some(Rank::Ten)
            } else {
                None
            }
        } else {
            None
        };
        match rank {
            Some(rank) => Ok(Card { rank, suit }),
            None => Err(CardParseError::UnknownRank),
        }
    }

    /// The card in notation, as in `AS` or `10H`.
    pub fn text(&self) -> (t: String)
        ensures
            t@ == card_text(*self),
    {
        let mut t = String::from_str(self.rank.symbol());
        t.append(self.suit.symbol());
        t
    }
}

/// Reading a card's own notation gives the card back.
pub proof fn law_card_notation_round_trip(c: Card)
    ensures
        card_from_notation(card_text(c)) == Ok::<Card, CardParseError>(c),
{
    let s = card_text(c);
    assert(!is_space(s[0]) && !is_space(s.last()));
    assert(trim_start(s) == s);
    assert(trim_end(s) == s);
    reveal_with_fuel(upper_all, 4);
    let t = upper_all(trimmed(s));
    assert(t =~= s);
    assert(s.drop_last() =~= rank_symbol(c.rank));
}

/// The lower case of an ASCII letter; any other character is left as it is.
pub open spec fn lower(c: char) -> char {
    let v = c as u32;
    if 65 <= v <= 90 {
        ((v + 32) as u8) as char
    } else {
        c
    }
}

/// Card notation is read in either case: a card's notation in lower case, as in `kd`
/// or `10h`, reads back as the card.
pub proof fn law_card_notation_ignores_case(c: Card)
    ensures
        card_from_notation(card_text(c).map_values(|ch: char| lower(ch))) == Ok::<Card, CardParseError>(c),
{
    let s = card_text(c).map_values(|ch: char| lower(ch));
    assert(!is_space(s[0]) && !is_space(s.last()));
    assert(trim_start(s) == s);
    assert(trim_end(s) == s);
    reveal_with_fuel(upper_all, 4);
    let t = upper_all(trimmed(s));
    assert(t =~= card_text(c));
    assert(t.drop_last() =~= rank_symbol(c.rank));
}

} // verus!
