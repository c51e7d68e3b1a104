//! Cards: suits, ranks, their text form and their bit encodings.

use vstd::arithmetic::power2::pow2;
use vstd::arithmetic::power2::lemma2_to64;
use vstd::prelude::*;

verus! {

/// One of the four suits. The order is used only to make textual output
/// deterministic, never for hand strength.
#[allow(non_camel_case_types)]
#[derive(Copy, Clone, PartialEq, Eq, Structural, Debug, PartialOrd, Ord, Hash)]
pub enum Suit {
    CLUBS,
    DIAMONDS,
    HEARTS,
    SPADES,
}

/// One of the thirteen ranks, two lowest and ace highest.
#[allow(non_camel_case_types)]
#[derive(Copy, Clone, PartialEq, Eq, Structural, Debug, PartialOrd, Ord, Hash)]
pub enum Rank {
    TWO,
    THREE,
    FOUR,
    FIVE,
    SIX,
    SEVEN,
    EIGHT,
    NINE,
    TEN,
    JACK,
    QUEEN,
    KING,
    ACE,
}

/// Why a card's text was refused.
#[derive(Copy, Clone, PartialEq, Eq, Structural, Debug)]
pub enum CardError {
    /// The text is not exactly two characters long.
    WrongLength,
    /// The first character is not one of `23456789TJQKA`.
    InvalidRank,
    /// The second character is not one of `cdhs`.
    InvalidSuit,
}

impl Suit {
    /// Position of the suit in clubs, diamonds, hearts, spades.
    pub open spec fn index(self) -> int {
        match self {
            Suit::CLUBS => 0,
            Suit::DIAMONDS => 1,
            Suit::HEARTS => 2,
            Suit::SPADES => 3,
        }
    }

    pub open spec fn symbol(self) -> char {
        match self {
            Suit::CLUBS => 'c',
            Suit::DIAMONDS => 'd',
            Suit::HEARTS => 'h',
            Suit::SPADES => 's',
        }
    }

    /// The one-hot four-bit mask of the suit.
    pub open spec fn mask(self) -> u8 {
        pow2(self.index() as nat) as u8
    }

    /// The one-character text of the suit.
    pub fn to_string(&self) -> (r: &'static str)
        ensures
            r@ == seq![self.symbol()],
    {
        match self {
            Suit::CLUBS => {
                proof {
                    reveal_strlit("c");
                }
                "c"
            },
            Suit::DIAMONDS => {
                proof {
                    reveal_strlit("d");
                }
                "d"
            },
            Suit::HEARTS => {
                proof {
                    reveal_strlit("h");
                }
                "h"
            },
            Suit::SPADES => {
                proof {
                    reveal_strlit("s");
                }
                "s"
            },
        }
    }

    /// All suits, in order.
    pub fn iterator() -> (r: Vec<Suit>)
        ensures
            r@ == seq![Suit::CLUBS, Suit::DIAMONDS, Suit::HEARTS, Suit::SPADES],
            forall|i: int| 0 <= i < r@.len() ==> (#[trigger] r@[i]).index() == i,
    {
        let mut r: Vec<Suit> = Vec::new();
        r.push(Suit::CLUBS);
        r.push(Suit::DIAMONDS);
        r.push(Suit::HEARTS);
        r.push(Suit::SPADES);
        r
    }
}

/// The suit whose text is `c`, if any.
pub open spec fn suit_of_symbol(c: char) -> Option<Suit> {
    if c == 'c' {
        Some(Suit::CLUBS)
    } else if c == 'd' {
        Some(Suit::DIAMONDS)
    } else if c == 'h' {
        Some(Suit::HEARTS)
    } else if c == 's' {
        Some(Suit::SPADES)
    } else {
        None
    }
}

/// The suit at position `i` of clubs, diamonds, hearts, spades.
pub open spec fn suit_at(i: int) -> Suit {
    if i == 0 {
        Suit::CLUBS
    } else if i == 1 {
        Suit::DIAMONDS
    } else if i == 2 {
        Suit::HEARTS
    } else {
        Suit::SPADES
    }
}

impl Rank {
    /// Position of the rank from two (0) to ace (12).
    pub open spec fn index(self) -> int {
        match self {
            Rank::TWO => 0,
            Rank::THREE => 1,
            Rank::FOUR => 2,
            Rank::FIVE => 3,
            Rank::SIX => 4,
            Rank::SEVEN => 5,
            Rank::EIGHT => 6,
            Rank::NINE => 7,
            Rank::TEN => 8,
            Rank::JACK => 9,
            Rank::QUEEN => 10,
            Rank::KING => 11,
            Rank::ACE => 12,
        }
    }

    pub open spec fn symbol(self) -> char {
        match self {
            Rank::TWO => '2',
            Rank::THREE => '3',
            Rank::FOUR => '4',
            Rank::FIVE => '5',
            Rank::SIX => '6',
            Rank::SEVEN => '7',
            Rank::EIGHT => '8',
            Rank::NINE => '9',
            Rank::TEN => 'T',
            Rank::JACK => 'J',
            Rank::QUEEN => 'Q',
            Rank::KING => 'K',
            Rank::ACE => 'A',
        }
    }

    /// The one-hot thirteen-bit mask of the rank.
    pub open spec fn mask(self) -> u16 {
        pow2(self.index() as nat) as u16
    }

    /// The one-character text of the rank.
    pub fn to_string(&self) -> (r: &'static str)
        ensures
            r@ == seq![self.symbol()],
    {
        match self {
            Rank::TWO => {
                proof {
                    reveal_strlit("2");
                }
                "2"
            },
            Rank::THREE => {
                proof {
                    reveal_strlit("3");
                }
                "3"
            },
            Rank::FOUR => {
                proof {
                    reveal_strlit("4");
                }
                "4"
            },
            Rank::FIVE => {
                proof {
                    reveal_strlit("5");
                }
                "5"
            },
            Rank::SIX => {
                proof {
                    reveal_strlit("6");
                }
                "6"
            },
            Rank::SEVEN => {
                proof {
                    reveal_strlit("7");
                }
                "7"
            },
            Rank::EIGHT => {
                proof {
                    reveal_strlit("8");
                }
                "8"
            },
            Rank::NINE => {
                proof {
                    reveal_strlit("9");
                }
                "9"
            },
            Rank::TEN => {
                proof {
                    reveal_strlit("T");
                }
                "T"
            },
            Rank::JACK => {
                proof {
                    reveal_strlit("J");
                }
                "J"
            },
            Rank::QUEEN => {
                proof {
                    reveal_strlit("Q");
                }
                "Q"
            },
            Rank::KING => {
                proof {
                    reveal_strlit("K");
                }
                "K"
            },
            Rank::ACE => {
                proof {
                    reveal_strlit("A");
                }
                "A"
            },
        }
    }

    /// The face value: 2 for two up to 14 for ace.
    pub fn to_int(&self) -> (r: u8)
        ensures
            r == self.index() + 2,
    {
        match self {
            Rank::TWO => 2,
            Rank::THREE => 3,
            Rank::FOUR => 4,
            Rank::FIVE => 5,
            Rank::SIX => 6,
            Rank::SEVEN => 7,
            Rank::EIGHT => 8,
            Rank::NINE => 9,
            Rank::TEN => 10,
            Rank::JACK => 11,
            Rank::QUEEN => 12,
            Rank::KING => 13,
            Rank::ACE => 14,
        }
    }

    /// All ranks, from two up to ace.
    pub fn iterator() -> (r: Vec<Rank>)
        ensures
            r@.len() == 13,
            forall|i: int| 0 <= i < 13 ==> #[trigger] r@[i] == rank_at(i),
    {
        let mut r: Vec<Rank> = Vec::new();
        r.push(Rank::TWO);
        r.push(Rank::THREE);
        r.push(Rank::FOUR);
        r.push(Rank::FIVE);
        r.push(Rank::SIX);
        r.push(Rank::SEVEN);
        r.push(Rank::EIGHT);
        r.push(Rank::NINE);
        r.push(Rank::TEN);
        r.push(Rank::JACK);
        r.push(Rank::QUEEN);
        r.push(Rank::KING);
        r.push(Rank::ACE);
        r
    }
}

/// The rank at position `k`, two being 0 and ace 12.
pub open spec fn rank_at(k: int) -> Rank {
    if k == 0 {
        Rank::TWO
    } else if k == 1 {
        Rank::THREE
    } else if k == 2 {
        Rank::FOUR
    } else if k == 3 {
        Rank::FIVE
    } else if k == 4 {
        Rank::SIX
    } else if k == 5 {
        Rank::SEVEN
    } else if k == 6 {
        Rank::EIGHT
    } else if k == 7 {
        Rank::NINE
    } else if k == 8 {
        Rank::TEN
    } else if k == 9 {
        Rank::JACK
    } else if k == 10 {
        Rank::QUEEN
    } else if k == 11 {
        Rank::KING
    } else {
        Rank::ACE
    }
}

/// The rank whose text is `c`, if any.
pub open spec fn rank_of_symbol(c: char) -> Option<Rank> {
    if c == '2' {
        Some(Rank::TWO)
    } else if c == '3' {
        Some(Rank::THREE)
    } else if c == '4' {
        Some(Rank::FOUR)
    } else if c == '5' {
        Some(Rank::FIVE)
    } else if c == '6' {
        Some(Rank::SIX)
    } else if c == '7' {
        Some(Rank::SEVEN)
    } else if c == '8' {
        Some(Rank::EIGHT)
    } else if c == '9' {
        Some(Rank::NINE)
    } else if c == 'T' {
        Some(Rank::TEN)
    } else if c == 'J' {
        Some(Rank::JACK)
    } else if c == 'Q' {
        Some(Rank::QUEEN)
    } else if c == 'K' {
        Some(Rank::KING)
    } else if c == 'A' {
        Some(Rank::ACE)
    } else {
        None
    }
}

fn suit_from_char(c: char) -> (r: Option<Suit>)
    ensures
        r == suit_of_symbol(c),
{
    match c {
        'c' => Some(Suit::CLUBS),
        'd' => Some(Suit::DIAMONDS),
        'h' => Some(Suit::HEARTS),
        's' => Some(Suit::SPADES),
        _ => None,
    }
}

fn rank_from_char(c: char) -> (r: Option<Rank>)
    ensures
        r == rank_of_symbol(c),
{
    match c {
        '2' => Some(Rank::TWO),
        '3' => Some(Rank::THREE),
        '4' => Some(Rank::FOUR),
        '5' => Some(Rank::FIVE),
        '6' => Some(Rank::SIX),
        '7' => Some(Rank::SEVEN),
        '8' => Some(Rank::EIGHT),
        '9' => Some(Rank::NINE),
        'T' => Some(Rank::TEN),
        'J' => Some(Rank::JACK),
        'Q' => Some(Rank::QUEEN),
        'K' => Some(Rank::KING),
        'A' => Some(Rank::ACE),
        _ => None,
    }
}

/// A playing card. Two cards are equal when suit and rank are.
#[derive(Copy, Clone, PartialEq, Eq, Structural, Debug, Hash)]
pub struct Card {
    pub suit: Suit,
    pub rank: Rank,
}

/// What a card's text denotes: a rank character, then a suit character.
pub open spec fn parse_card(s: Seq<char>) -> Result<Card, CardError> {
    if s.len() != 2 {
        Err(CardError::WrongLength)
    } else if rank_of_symbol(s[0]) is None {
        Err(CardError::InvalidRank)
    } else if suit_of_symbol(s[1]) is None {
        Err(CardError::InvalidSuit)
    } else {
        Ok(Card { suit: suit_of_symbol(s[1])->0, rank: rank_of_symbol(s[0])->0 })
    }
}

/// The card at position `i` of the deck: suits outermost, ranks innermost.
pub open spec fn card_at(i: int) -> Card {
    Card { suit: suit_at(i / 13), rank: rank_at(i % 13) }
}

impl Card {
    /// The card's two-character text.
    pub open spec fn text(self) -> Seq<char> {
        seq![self.rank.symbol(), self.suit.symbol()]
    }

    /// The card's place in the order by rank, then suit: cards compare as
    /// these numbers do.
    pub open spec fn order_key(self) -> int {
        self.rank.index() * 4 + self.suit.index()
    }

    /// The card's position in the deck, from 0 to 51.
    pub open spec fn index(self) -> int {
        self.suit.index() * 13 + self.rank.index()
    }

    /// The card's suit mask and rank mask as one number, distinct for
    /// distinct cards.
    pub open spec fn key(self) -> int {
        self.suit.mask() * 0x2000 + self.rank.mask()
    }

    /// The card's equivalence code, a value below 2^27. The codes are chosen
    /// so that the XOR of the codes of five distinct cards identifies the
    /// five-card combination.
    pub open spec fn code(self) -> u32 {
        match self.suit {
            Suit::CLUBS => match self.rank {
                Rank::TWO => 1,
                Rank::THREE => 2,
                Rank::FOUR => 4,
                Rank::FIVE => 8,
                Rank::SIX => 16,
                Rank::SEVEN => 32,
                Rank::EIGHT => 64,
                Rank::NINE => 128,
                Rank::TEN => 256,
                Rank::JACK => 512,
                Rank::QUEEN => 1024,
                Rank::KING => 2048,
                Rank::ACE => 4096,
            },
            Suit::DIAMONDS => match self.rank {
                Rank::TWO => 8192,
                Rank::THREE => 16384,
                Rank::FOUR => 32768,
                Rank::FIVE => 65536,
                Rank::SIX => 131072,
                Rank::SEVEN => 262144,
                Rank::EIGHT => 524288,
                Rank::NINE => 1048576,
                Rank::TEN => 2097152,
                Rank::JACK => 2781920,
                Rank::QUEEN => 4194304,
                Rank::KING => 8109704,
                Rank::ACE => 8388608,
            },
            Suit::HEARTS => match self.rank {
                Rank::TWO => 14486720,
                Rank::THREE => 16777216,
                Rank::FOUR => 18423568,
                Rank::FIVE => 28682752,
                Rank::SIX => 33554432,
                Rank::SEVEN => 46487664,
                Rank::EIGHT => 53141048,
                Rank::NINE => 60478720,
                Rank::TEN => 63825204,
                Rank::JACK => 67108864,
                Rank::QUEEN => 75991814,
                Rank::KING => 77304384,
                Rank::ACE => 82667776,
            },
            Suit::SPADES => match self.rank {
                Rank::TWO => 88115619,
                Rank::THREE => 90823064,
                Rank::FOUR => 90920448,
                Rank::FIVE => 99726952,
                Rank::SIX => 101451626,
                Rank::SEVEN => 104451072,
                Rank::EIGHT => 110836741,
                Rank::NINE => 113779648,
                Rank::TEN => 118997632,
                Rank::JACK => 128070680,
                Rank::QUEEN => 128184096,
                Rank::KING => 130150400,
                Rank::ACE => 134086656,
            },
        }
    }

    /// Reads a card from its two-character text.
    pub fn new_from_string(s: String) -> (r: Result<Card, CardError>)
        ensures
            r == parse_card(s@),
    {
        let t = s.as_str();
        let n = t.unicode_len();
        if n != 2 {
            return Err(CardError::WrongLength);
        }
        let rank = rank_from_char(t.get_char(0));
        let suit = suit_from_char(t.get_char(1));
        match rank {
            None => Err(CardError::InvalidRank),
            Some(rank) => match suit {
                None => Err(CardError::InvalidSuit),
                Some(suit) => Ok(Card { suit, rank }),
            },
        }
    }

    /// The suit mask and the rank mask of the card.
    pub fn to_byte_int(&self) -> (r: (u8, u16))
        ensures
            r.0 == self.suit.mask(),
            r.1 == self.rank.mask(),
    {
        proof {
            lemma2_to64();
        }
        let suit_bits: u8 = match self.suit {
            Suit::CLUBS => 0b0001,
            Suit::DIAMONDS => 0b0010,
            Suit::HEARTS => 0b0100,
            Suit::SPADES => 0b1000,
        };
        let rank_bits: u16 = match self.rank {
            Rank::TWO => 0b0000000000001,
            Rank::THREE => 0b0000000000010,
            Rank::FOUR => 0b0000000000100,
            Rank::FIVE => 0b0000000001000,
            Rank::SIX => 0b0000000010000,
            Rank::SEVEN => 0b0000000100000,
            Rank::EIGHT => 0b0000001000000,
            Rank::NINE => 0b0000010000000,
            Rank::TEN => 0b0000100000000,
            Rank::JACK => 0b0001000000000,
            Rank::QUEEN => 0b0010000000000,
            Rank::KING => 0b0100000000000,
            Rank::ACE => 0b1000000000000,
        };
        (suit_bits, rank_bits)
    }

    /// The card's place in the order by rank, then suit.
    pub(crate) fn order(&self) -> (r: u8)
        ensures
            r == self.order_key(),
    {
        let s: u8 = match self.suit {
            Suit::CLUBS => 0,
            Suit::DIAMONDS => 1,
            Suit::HEARTS => 2,
            Suit::SPADES => 3,
        };
        (self.rank.to_int() - 2) * 4 + s
    }

    /// The card's two-character text.
    pub fn to_string(&self) -> (r: String)
        ensures
            r@ == self.text(),
    {
        let mut r = String::from_str(self.rank.to_string());
        r.append(self.suit.to_string());
        r
    }

    /// The card's equivalence code.
    pub fn to_special_int(&self) -> (r: u32)
        ensures
            r == self.code(),
            r < 0x800_0000,
    {
        match self.suit {
            Suit::CLUBS => match self.rank {
                Rank::TWO => 1,
                Rank::THREE => 2,
                Rank::FOUR => 4,
                Rank::FIVE => 8,
                Rank::SIX => 16,
                Rank::SEVEN => 32,
                Rank::EIGHT => 64,
                Rank::NINE => 128,
                Rank::TEN => 256,
                Rank::JACK => 512,
                Rank::QUEEN => 1024,
                Rank::KING => 2048,
                Rank::ACE => 4096,
            },
            Suit::DIAMONDS => match self.rank {
                Rank::TWO => 8192,
                Rank::THREE => 16384,
                Rank::FOUR => 32768,
                Rank::FIVE => 65536,
                Rank::SIX => 131072,
                Rank::SEVEN => 262144,
                Rank::EIGHT => 524288,
                Rank::NINE => 1048576,
                Rank::TEN => 2097152,
                Rank::JACK => 2781920,
                Rank::QUEEN => 4194304,
                Rank::KING => 8109704,
                Rank::ACE => 8388608,
            },
            Suit::HEARTS => match self.rank {
                Rank::TWO => 14486720,
                Rank::THREE => 16777216,
                Rank::FOUR => 18423568,
                Rank::FIVE => 28682752,
                Rank::SIX => 33554432,
                Rank::SEVEN => 46487664,
                Rank::EIGHT => 53141048,
                Rank::NINE => 60478720,
                Rank::TEN => 63825204,
                Rank::JACK => 67108864,
                Rank::QUEEN => 75991814,
                Rank::KING => 77304384,
                Rank::ACE => 82667776,
            },
            Suit::SPADES => match self.rank {
                Rank::TWO => 88115619,
                Rank::THREE => 90823064,
                Rank::FOUR => 90920448,
                Rank::FIVE => 99726952,
                Rank::SIX => 101451626,
                Rank::SEVEN => 104451072,
                Rank::EIGHT => 110836741,
                Rank::NINE => 113779648,
                Rank::TEN => 118997632,
                Rank::JACK => 128070680,
                Rank::QUEEN => 128184096,
                Rank::KING => 130150400,
                Rank::ACE => 134086656,
            },
        }
    }
}

pub proof fn lemma_card_at_index(c: Card)
    ensures
        0 <= c.index() < 52,
        card_at(c.index()) == c,
{
}

impl PartialOrd for Card {
    fn partial_cmp(&self, other: &Card) -> Option<core::cmp::Ordering> {
        let a = self.order();
        let b = other.order();
        if a < b {
            Some(core::cmp::Ordering::Less)
        } else if a > b {
            Some(core::cmp::Ordering::Greater)
        } else {
            Some(core::cmp::Ordering::Equal)
        }
    }
}

impl vstd::std_specs::cmp::PartialOrdSpecImpl for Card {
    open spec fn obeys_partial_cmp_spec() -> bool {
        true
    }

    /// Cards are ordered by rank, then by suit.
    open spec fn partial_cmp_spec(&self, other: &Card) -> Option<core::cmp::Ordering> {
        if self.order_key() < other.order_key() {
            Some(core::cmp::Ordering::Less)
        } else if self.order_key() > other.order_key() {
            Some(core::cmp::Ordering::Greater)
        } else {
            Some(core::cmp::Ordering::Equal)
        }
    }
}

/// Distinct cards have distinct keys.
pub proof fn lemma_key_injective(a: Card, b: Card)
    requires
        a.key() == b.key(),
    ensures
        a == b,
{
    lemma2_to64();
}

/// The text of a card reads back as the same card.
pub proof fn lemma_card_text_round_trip(c: Card)
    ensures
        parse_card(c.text()) == Ok::<Card, CardError>(c),
{
}

} // verus!
