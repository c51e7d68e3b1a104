//! Five-card hands: classification into categories and comparison.

use crate::card::{parse_card, rank_at, Card, CardError, Rank, Suit};
use crate::card_set::{key_set_contents, KeySet};
use core::cmp::Ordering;
use vstd::arithmetic::power2::{
    lemma2_to64, lemma_pow2_pos, lemma_pow2_strictly_increases, lemma_pow2_unfold, pow2,
};
use vstd::prelude::*;

verus! {

/// Why a hand's text was refused.
#[derive(Copy, Clone, PartialEq, Eq, Structural, Debug)]
pub enum HandError {
    /// The text does not hold exactly five space-separated tokens.
    WrongCardCount,
    /// A token is not a card.
    BadCard(CardError),
}

/// The pieces of `s` between single spaces, as `str::split(" ")` gives
/// them: an empty text is one empty piece.
pub open spec fn split_spaces(s: Seq<char>) -> Seq<Seq<char>>
    decreases s.len(),
{
    if s.len() == 0 {
        seq![Seq::<char>::empty()]
    } else {
        let t = split_spaces(s.drop_last());
        if s.last() == ' ' {
            t.push(Seq::<char>::empty())
        } else {
            t.update(t.len() - 1, t.last().push(s.last()))
        }
    }
}

pub proof fn lemma_split_spaces_nonempty(s: Seq<char>)
    ensures
        split_spaces(s).len() >= 1,
    decreases s.len(),
{
    if s.len() > 0 {
        lemma_split_spaces_nonempty(s.drop_last());
    }
}

/// The position of the first of the tokens `t[0..n]` that is not a card,
/// or `n` if all are cards.
pub open spec fn first_bad_token(t: Seq<Seq<char>>, n: int) -> int
    decreases n,
{
    if n <= 0 {
        0
    } else if first_bad_token(t, n - 1) < n - 1 {
        first_bad_token(t, n - 1)
    } else if parse_card(t[n - 1]) is Err {
        n - 1
    } else {
        n
    }
}

/// The text of a run of cards, separated by single spaces.
pub open spec fn cards_text(c: Seq<Card>) -> Seq<char>
    decreases c.len(),
{
    if c.len() == 0 {
        Seq::<char>::empty()
    } else if c.len() == 1 {
        c[0].text()
    } else {
        cards_text(c.drop_last()) + seq![' '] + c.last().text()
    }
}

/// Five cards. Nothing stops two of them from being equal; see
/// `check_repeating_cards`.
#[derive(Copy, Clone, Debug)]
pub struct Hand {
    pub cards: [Card; 5],
}

/// The nine hand categories, strongest first. A lower `to_int` means a
/// stronger hand.
#[allow(non_camel_case_types)]
#[derive(Copy, Clone, PartialEq, Eq, Structural, Debug, PartialOrd, Ord, Hash)]
pub enum HandRank {
    STRAIGHT_FLUSH,
    FOUR_OF_A_KIND,
    FULL_HOUSE,
    FLUSH,
    STRAIGHT,
    THREE_OF_A_KIND,
    TWO_PAIRS,
    PAIR,
    HIGH_CARD,
}

impl HandRank {
    /// 1 for a straight flush up to 9 for a high card.
    pub open spec fn value(self) -> int {
        match self {
            HandRank::STRAIGHT_FLUSH => 1,
            HandRank::FOUR_OF_A_KIND => 2,
            HandRank::FULL_HOUSE => 3,
            HandRank::FLUSH => 4,
            HandRank::STRAIGHT => 5,
            HandRank::THREE_OF_A_KIND => 6,
            HandRank::TWO_PAIRS => 7,
            HandRank::PAIR => 8,
            HandRank::HIGH_CARD => 9,
        }
    }

    /// Whether hands of this category are ordered by the set of their ranks
    /// alone, rather than by groups of equal rank.
    pub open spec fn is_plain(self) -> bool {
        self is STRAIGHT_FLUSH || self is FLUSH || self is STRAIGHT || self is HIGH_CARD
    }

    /// 1 for a straight flush up to 9 for a high card.
    pub fn to_int(&self) -> (r: u8)
        ensures
            r == self.value(),
    {
        match self {
            HandRank::STRAIGHT_FLUSH => 1,
            HandRank::FOUR_OF_A_KIND => 2,
            HandRank::FULL_HOUSE => 3,
            HandRank::FLUSH => 4,
            HandRank::STRAIGHT => 5,
            HandRank::THREE_OF_A_KIND => 6,
            HandRank::TWO_PAIRS => 7,
            HandRank::PAIR => 8,
            HandRank::HIGH_CARD => 9,
        }
    }
}

/// The high card of the straight whose rank mask is `mask`, if it is one:
/// five consecutive ranks, or ace to five, where the ace plays low.
pub open spec fn straight_high(mask: nat) -> Option<Rank> {
    if mask == 0x1F {
        Some(Rank::SIX)
    } else if mask == 0x3E {
        Some(Rank::SEVEN)
    } else if mask == 0x7C {
        Some(Rank::EIGHT)
    } else if mask == 0xF8 {
        Some(Rank::NINE)
    } else if mask == 0x1F0 {
        Some(Rank::TEN)
    } else if mask == 0x3E0 {
        Some(Rank::JACK)
    } else if mask == 0x7C0 {
        Some(Rank::QUEEN)
    } else if mask == 0xF80 {
        Some(Rank::KING)
    } else if mask == 0x1F00 {
        Some(Rank::ACE)
    } else if mask == 0x100F {
        Some(Rank::FIVE)
    } else {
        None
    }
}

/// Weight of the category in a hand's strength: 2^52.
pub const CATEGORY_WEIGHT: u64 = 0x10_0000_0000_0000;

/// 1 when `b` holds, else 0.
pub open spec fn indicator(b: bool) -> nat {
    if b {
        1
    } else {
        0
    }
}

/// How many of the first `n` entries of `f` equal `v`.
pub open spec fn count_entries(f: Seq<u8>, v: u8, n: int) -> nat
    decreases n,
{
    if n <= 0 {
        0
    } else {
        count_entries(f, v, n - 1) + indicator(f[n - 1] == v)
    }
}

impl Hand {
    /// How many of the first `n` cards have the rank at position `k`.
    pub open spec fn rank_count_upto(self, n: int, k: int) -> nat
        decreases n,
    {
        if n <= 0 {
            0
        } else {
            self.rank_count_upto(n - 1, k) + indicator(self.cards@[n - 1].rank.index() == k)
        }
    }

    /// How many of the five cards have the rank at position `k`.
    pub open spec fn rank_count(self, k: int) -> nat {
        self.rank_count_upto(5, k)
    }

    /// Whether all five cards share one suit.
    pub open spec fn is_flush(self) -> bool {
        forall|i: int| 0 <= i < 5 ==> #[trigger] self.cards@[i].suit == self.cards@[0].suit
    }

    /// The sum (equivalently the OR) of the masks of the ranks below
    /// position `n` that occur in the hand exactly `c` times.
    pub open spec fn group_mask(self, c: nat, n: nat) -> nat
        decreases n,
    {
        if n == 0 {
            0
        } else {
            self.group_mask(c, (n - 1) as nat) + if self.rank_count(n - 1) == c {
                pow2((n - 1) as nat)
            } else {
                0
            }
        }
    }

    /// The sum (equivalently the OR) of the masks of the ranks below
    /// position `n` that occur in the hand.
    pub open spec fn present_mask(self, n: nat) -> nat
        decreases n,
    {
        if n == 0 {
            0
        } else {
            self.present_mask((n - 1) as nat) + if self.rank_count(n - 1) > 0 {
                pow2((n - 1) as nat)
            } else {
                0
            }
        }
    }

    /// The OR of the rank masks of the five cards.
    pub open spec fn rank_mask(self) -> nat {
        self.present_mask(13)
    }

    /// How many ranks below position `n` occur in the hand exactly `c` times.
    pub open spec fn groups(self, c: nat, n: nat) -> nat
        decreases n,
    {
        if n == 0 {
            0
        } else {
            self.groups(c, (n - 1) as nat) + indicator(self.rank_count(n - 1) == c)
        }
    }

    /// Whether some rank occurs four times, whether some rank occurs three
    /// times, and how many ranks occur twice.
    pub open spec fn freq_tuple(self) -> (bool, bool, nat) {
        (self.groups(4, 13) > 0, self.groups(3, 13) > 0, self.groups(2, 13))
    }

    /// Whether two of the five cards are equal.
    pub open spec fn has_repeats(self) -> bool {
        exists|i: int, j: int| 0 <= i < j < 5 && self.cards@[i] == self.cards@[j]
    }

    /// Whether two of the first `n` cards are equal.
    pub open spec fn repeats_upto(self, n: int) -> bool {
        exists|i: int, j: int| 0 <= i < j < n && self.cards@[i] == self.cards@[j]
    }

    /// The XOR of the equivalence codes of the five cards.
    pub open spec fn key(self) -> u32 {
        self.cards@[0].code() ^ self.cards@[1].code() ^ self.cards@[2].code()
            ^ self.cards@[3].code() ^ self.cards@[4].code()
    }

    /// The category of the hand.
    pub open spec fn category(self) -> HandRank {
        let flush = self.is_flush();
        let straight = straight_high(self.rank_mask()) is Some;
        if flush && straight {
            HandRank::STRAIGHT_FLUSH
        } else if flush {
            HandRank::FLUSH
        } else if straight {
            HandRank::STRAIGHT
        } else if self.groups(4, 13) > 0 {
            HandRank::FOUR_OF_A_KIND
        } else if self.groups(3, 13) > 0 && self.groups(2, 13) == 1 {
            HandRank::FULL_HOUSE
        } else if self.groups(3, 13) > 0 {
            HandRank::THREE_OF_A_KIND
        } else if self.groups(2, 13) == 2 {
            HandRank::TWO_PAIRS
        } else if self.groups(2, 13) == 1 {
            HandRank::PAIR
        } else {
            HandRank::HIGH_CARD
        }
    }

    /// The four tie-break slots: the masks of the ranks held four times,
    /// three times, twice and once.
    pub open spec fn slots(self) -> Seq<nat> {
        seq![
            self.group_mask(4, 13),
            self.group_mask(3, 13),
            self.group_mask(2, 13),
            self.group_mask(1, 13),
        ]
    }

    /// What orders hands within a category: the position of the high card
    /// for straights and straight flushes (five for ace to five, where the
    /// ace plays low), the rank mask for flushes and high cards, else the
    /// slots read as one number, four-of-a-kind slot most significant.
    pub open spec fn tiebreak(self) -> int {
        if self.category() is STRAIGHT || self.category() is STRAIGHT_FLUSH {
            straight_high(self.rank_mask())->0.index()
        } else if self.category().is_plain() {
            self.rank_mask() as int
        } else {
            (self.slots()[0] * 0x80_0000_0000 + self.slots()[1] * 0x400_0000 + self.slots()[2]
                * 0x2000 + self.slots()[3]) as int
        }
    }

    /// The hand's strength: a larger number is a stronger hand, equal
    /// numbers are hands of equal strength.
    pub open spec fn strength(self) -> int {
        (9 - self.category().value()) * CATEGORY_WEIGHT + self.tiebreak()
    }
}

/// How `a` compares with `b` in strength.
pub open spec fn compare_hands(a: Hand, b: Hand) -> Ordering {
    if a.strength() > b.strength() {
        Ordering::Greater
    } else if a.strength() < b.strength() {
        Ordering::Less
    } else {
        Ordering::Equal
    }
}

proof fn lemma_present_mask_bound(h: Hand, n: nat)
    ensures
        h.present_mask(n) < pow2(n),
    decreases n,
{
    lemma_pow2_pos(n);
    if n > 0 {
        lemma_pow2_unfold(n);
        lemma_present_mask_bound(h, (n - 1) as nat);
    }
}

proof fn lemma_group_mask_bound(h: Hand, c: nat, n: nat)
    ensures
        h.group_mask(c, n) < pow2(n),
    decreases n,
{
    lemma_pow2_pos(n);
    if n > 0 {
        lemma_pow2_unfold(n);
        lemma_group_mask_bound(h, c, (n - 1) as nat);
    }
}

/// Every mask of the hand is a thirteen-bit number.
pub proof fn lemma_mask_bounds(h: Hand)
    ensures
        h.rank_mask() < 0x2000,
        h.group_mask(1, 13) < 0x2000,
        h.group_mask(2, 13) < 0x2000,
        h.group_mask(3, 13) < 0x2000,
        h.group_mask(4, 13) < 0x2000,
        0 <= h.tiebreak() < CATEGORY_WEIGHT,
{
    lemma2_to64();
    lemma_present_mask_bound(h, 13);
    lemma_group_mask_bound(h, 1, 13);
    lemma_group_mask_bound(h, 2, 13);
    lemma_group_mask_bound(h, 3, 13);
    lemma_group_mask_bound(h, 4, 13);
}

impl Hand {
    /// How many cards of each rank the hand holds, indexed by rank
    /// position (two at 0, ace at 12).
    pub fn check_same_kind(&self) -> (r: [u8; 13])
        ensures
            forall|k: int| 0 <= k < 13 ==> #[trigger] r[k] == self.rank_count(k),
    {
        let mut counts: [u8; 13] = [0u8; 13];
        let mut i: usize = 0;
        while i < 5
            invariant
                i <= 5,
                forall|k: int| 0 <= k < 13 ==> #[trigger] counts[k] == self.rank_count_upto(i as int, k),
                forall|k: int| 0 <= k < 13 ==> #[trigger] counts[k] <= i,
            decreases 5 - i,
        {
            let k = (self.cards[i].rank.to_int() - 2) as usize;
            counts[k] = counts[k] + 1;
            i = i + 1;
        }
        counts
    }

    /// Whether some entry of the frequency table `freq` is 4, whether some
    /// entry is 3, and how many entries are 2. For the hand's own table that
    /// is its frequency tuple.
    pub fn get_freq_tuple(&self, freq: &[u8; 13]) -> (r: (bool, bool, u8))
        ensures
            r.0 == exists|k: int| 0 <= k < 13 && #[trigger] freq[k] == 4,
            r.1 == exists|k: int| 0 <= k < 13 && #[trigger] freq[k] == 3,
            r.2 == count_entries(freq@, 2, 13),
            (forall|k: int| 0 <= k < 13 ==> #[trigger] freq[k] == self.rank_count(k)) ==> r.0
                == self.freq_tuple().0 && r.1 == self.freq_tuple().1 && r.2
                == self.freq_tuple().2,
    {
        let ghost own = forall|k: int| 0 <= k < 13 ==> #[trigger] freq[k] == self.rank_count(k);
        let mut four = false;
        let mut three = false;
        let mut pairs: u8 = 0;
        let mut k: usize = 0;
        while k < 13
            invariant
                k <= 13,
                own == forall|j: int| 0 <= j < 13 ==> #[trigger] freq[j] == self.rank_count(j),
                four == exists|j: int| 0 <= j < k && #[trigger] freq[j] == 4,
                three == exists|j: int| 0 <= j < k && #[trigger] freq[j] == 3,
                pairs == count_entries(freq@, 2, k as int),
                own ==> four == (self.groups(4, k as nat) > 0),
                own ==> three == (self.groups(3, k as nat) > 0),
                own ==> pairs == self.groups(2, k as nat),
                pairs <= k,
            decreases 13 - k,
        {
            if freq[k] == 4 {
                four = true;
            }
            if freq[k] == 3 {
                three = true;
            }
            if freq[k] == 2 {
                pairs = pairs + 1;
            }
            proof {
                if own {
                    assert(freq[k as int] == self.rank_count(k as int));
                }
            }
            k = k + 1;
        }
        (four, three, pairs)
    }

    /// Whether some rank occurs four times, whether some rank occurs three
    /// times, and how many ranks occur twice.
    pub fn check_same_kind_tuple(&self) -> (r: (bool, bool, u8))
        ensures
            r.0 == self.freq_tuple().0,
            r.1 == self.freq_tuple().1,
            r.2 == self.freq_tuple().2,
    {
        let freq = self.check_same_kind();
        self.get_freq_tuple(&freq)
    }

    /// Whether all five cards share one suit.
    pub fn check_flush(&self) -> (r: bool)
        ensures
            r == self.is_flush(),
    {
        let suit = self.cards[0].suit;
        let mut i: usize = 1;
        while i < 5
            invariant
                1 <= i <= 5,
                suit == self.cards@[0].suit,
                forall|j: int| 0 <= j < i ==> #[trigger] self.cards@[j].suit == suit,
            decreases 5 - i,
        {
            if self.cards[i].suit != suit {
                return false;
            }
            i = i + 1;
        }
        true
    }

    /// The sum (equivalently the OR) of the masks of the ranks that occur
    /// `c` times, or that occur at all when `c` is 0.
    fn group_bits(&self, freq: &[u8; 13], c: u8) -> (r: u16)
        requires
            forall|k: int| 0 <= k < 13 ==> #[trigger] freq[k] == self.rank_count(k),
        ensures
            c == 0 ==> r == self.rank_mask(),
            c > 0 ==> r == self.group_mask(c as nat, 13),
            r < 0x2000,
    {
        proof {
            lemma2_to64();
        }
        let mut m: u16 = 0;
        let mut bit: u16 = 1;
        let mut k: usize = 0;
        while k < 13
            invariant
                k <= 13,
                forall|j: int| 0 <= j < 13 ==> #[trigger] freq[j] == self.rank_count(j),
                bit == pow2(k as nat),
                pow2(13) == 0x2000,
                m < bit,
                c == 0 ==> m == self.present_mask(k as nat),
                c > 0 ==> m == self.group_mask(c as nat, k as nat),
            decreases 13 - k,
        {
            proof {
                lemma_pow2_unfold((k + 1) as nat);
                lemma_pow2_strictly_increases(k as nat, 13);
            }
            if (c == 0 && freq[k] > 0) || (c > 0 && freq[k] == c) {
                m = m + bit;
            }
            bit = bit * 2;
            k = k + 1;
        }
        m
    }

    /// Whether the hand is a straight, and if so its high card (five for
    /// ace to five, where the ace plays low). A hand that is not a straight
    /// gives `(false, Rank::TWO)`.
    pub fn check_straight(&self) -> (r: (bool, Rank))
        ensures
            r == (match straight_high(self.rank_mask()) {
                Some(x) => (true, x),
                None => (false, Rank::TWO),
            }),
    {
        proof {
            lemma2_to64();
        }
        let freq = self.check_same_kind();
        let rank_bytes = self.group_bits(&freq, 0);
        let mut straight_pattern: u16 = 0b11111;
        let mut j: usize = 0;
        while j < 9
            invariant
                j <= 9,
                rank_bytes == self.rank_mask(),
                straight_pattern == 0x1F * pow2(j as nat),
                pow2(0) == 1 && pow2(1) == 2 && pow2(2) == 4 && pow2(3) == 8 && pow2(4) == 16
                    && pow2(5) == 32 && pow2(6) == 64 && pow2(7) == 128 && pow2(8) == 256
                    && pow2(9) == 512,
                forall|i: nat| i < j ==> rank_bytes != 0x1F * #[trigger] pow2(i),
            decreases 9 - j,
        {
            if rank_bytes == straight_pattern {
                return (true, window_high(j));
            }
            proof {
                lemma_pow2_unfold((j + 1) as nat);
            }
            straight_pattern = straight_pattern * 2;
            j = j + 1;
        }
        // ace as one
        if rank_bytes == 0b1000000001111 {
            return (true, Rank::FIVE);
        }
        proof {
            assert(rank_bytes != 0x1F * pow2(0));
            assert(rank_bytes != 0x1F * pow2(1));
            assert(rank_bytes != 0x1F * pow2(2));
            assert(rank_bytes != 0x1F * pow2(3));
            assert(rank_bytes != 0x1F * pow2(4));
            assert(rank_bytes != 0x1F * pow2(5));
            assert(rank_bytes != 0x1F * pow2(6));
            assert(rank_bytes != 0x1F * pow2(7));
            assert(rank_bytes != 0x1F * pow2(8));
        }
        (false, Rank::TWO)
    }

    /// Reads a hand from five card texts separated by single spaces.
    pub fn new_from_string(s: String) -> (r: Result<Hand, HandError>)
        ensures
            split_spaces(s@).len() != 5 ==> r == Err::<Hand, HandError>(HandError::WrongCardCount),
            split_spaces(s@).len() == 5 && first_bad_token(split_spaces(s@), 5) < 5 ==> r
                == Err::<Hand, HandError>(
                HandError::BadCard(
                    parse_card(split_spaces(s@)[first_bad_token(split_spaces(s@), 5)])->Err_0,
                ),
            ),
            split_spaces(s@).len() == 5 && first_bad_token(split_spaces(s@), 5) == 5 ==> r is Ok
                && forall|i: int|
                0 <= i < 5 ==> parse_card(split_spaces(s@)[i]) == Ok::<Card, CardError>(
                    #[trigger] r->Ok_0.cards@[i],
                ),
    {
        let t = s.as_str();
        let n = t.unicode_len();
        let mut tokens: Vec<String> = Vec::new();
        let mut start: usize = 0;
        let mut i: usize = 0;
        proof {
            assert(s@.subrange(0, 0) =~= Seq::<char>::empty());
        }
        while i < n
            invariant
                t@ == s@,
                n == s@.len(),
                start <= i <= n,
                split_spaces(s@.subrange(0, i as int)).len() == tokens@.len() + 1,
                forall|j: int|
                    0 <= j < tokens@.len() ==> #[trigger] tokens@[j]@ == split_spaces(
                        s@.subrange(0, i as int),
                    )[j],
                split_spaces(s@.subrange(0, i as int)).last() == s@.subrange(
                    start as int,
                    i as int,
                ),
            decreases n - i,
        {
            let c = t.get_char(i);
            proof {
                let pre = s@.subrange(0, i + 1);
                assert(pre.drop_last() =~= s@.subrange(0, i as int));
                assert(pre.last() == c);
                lemma_split_spaces_nonempty(s@.subrange(0, i as int));
            }
            if c == ' ' {
                tokens.push(String::from_str(t.substring_char(start, i)));
                start = i + 1;
                proof {
                    assert(s@.subrange(start as int, i + 1) =~= Seq::<char>::empty());
                }
            } else {
                proof {
                    assert(s@.subrange(start as int, i + 1) =~= s@.subrange(start as int, i as int).push(c));
                }
            }
            i = i + 1;
        }
        tokens.push(String::from_str(t.substring_char(start, n)));
        proof {
            assert(s@.subrange(0, n as int) =~= s@);
        }
        if tokens.len() != 5 {
            return Err(HandError::WrongCardCount);
        }
        let mut cards: [Card; 5] = [Card { suit: Suit::CLUBS, rank: Rank::TWO }; 5];
        let mut k: usize = 0;
        while k < 5
            invariant
                k <= 5,
                tokens@.len() == 5,
                split_spaces(s@).len() == 5,
                forall|j: int| 0 <= j < 5 ==> #[trigger] tokens@[j]@ == split_spaces(s@)[j],
                first_bad_token(split_spaces(s@), k as int) == k,
                forall|j: int|
                    0 <= j < k ==> parse_card(split_spaces(s@)[j]) == Ok::<Card, CardError>(
                        #[trigger] cards@[j],
                    ),
            decreases 5 - k,
        {
            let tok = tokens[k].clone();
            match Card::new_from_string(tok) {
                Ok(card) => {
                    cards[k] = card;
                },
                Err(e) => {
                    proof {
                        lemma_first_bad_token_stays(split_spaces(s@), k as int + 1, 5);
                    }
                    return Err(HandError::BadCard(e));
                },
            }
            k = k + 1;
        }
        Ok(Hand { cards })
    }

    /// The hand's text: its five cards in order, separated by single spaces.
    pub fn to_string(&self) -> (r: String)
        ensures
            r@ == cards_text(self.cards@),
    {
        let mut result_string = String::new();
        let mut i: usize = 0;
        while i < 5
            invariant
                i <= 5,
                result_string@ == cards_text(self.cards@.take(i as int)),
            decreases 5 - i,
        {
            proof {
                assert(self.cards@.take(i + 1).drop_last() =~= self.cards@.take(i as int));
            }
            if i > 0 {
                result_string.append(" ");
            }
            let card_string = self.cards[i].to_string();
            result_string.append(card_string.as_str());
            proof {
                reveal_strlit(" ");
                if i == 0 {
                    assert(result_string@ =~= cards_text(self.cards@.take(1)));
                } else {
                    assert(result_string@ =~= cards_text(self.cards@.take(i + 1)));
                }
            }
            i = i + 1;
        }
        proof {
            assert(self.cards@.take(5) =~= self.cards@);
        }
        result_string
    }

    /// The hand's text with its cards in ascending order of rank, then
    /// suit: the same text for every arrangement of the same cards.
    pub fn to_ordered_string(&self) -> (r: String)
        ensures
            exists|o: Hand|
                is_ordered_arrangement(*self, o) && r@ == cards_text(#[trigger] o.cards@),
    {
        let keys: [u8; 5] = [
            self.cards[0].order(),
            self.cards[1].order(),
            self.cards[2].order(),
            self.cards[3].order(),
            self.cards[4].order(),
        ];
        assert(forall|k: int| 0 <= k < 5 ==> #[trigger] keys[k] == self.cards@[k].order_key());
        let p = sort5(&keys);
        let ordered_hand = Hand {
            cards: [
                self.cards[p[0]],
                self.cards[p[1]],
                self.cards[p[2]],
                self.cards[p[3]],
                self.cards[p[4]],
            ],
        };
        proof {
            assert(ordered_hand.cards@[0] == self.cards@[p[0] as int]);
            assert(ordered_hand.cards@[1] == self.cards@[p[1] as int]);
            assert(ordered_hand.cards@[2] == self.cards@[p[2] as int]);
            assert(ordered_hand.cards@[3] == self.cards@[p[3] as int]);
            assert(ordered_hand.cards@[4] == self.cards@[p[4] as int]);
            assert forall|i: int| 0 <= i < 5 implies #[trigger] ordered_hand.cards@[i] == self.cards@[p@[i] as int] by {}
            assert forall|i: int, j: int| 0 <= i < j < 5 implies self.cards@[p@[i] as int].order_key() <= self.cards@[p@[j] as int].order_key() by {
                assert(keys[p[i] as int] <= keys[p[j] as int]);
            }
            lemma_sorted_arrangement(*self, ordered_hand, p@);
        }
        let r = ordered_hand.to_string();
        proof {
            assert(is_ordered_arrangement(*self, ordered_hand) && r@ == cards_text(ordered_hand.cards@));
        }
        r
    }

    /// The XOR of the equivalence codes of the five cards: the hand's key
    /// in the lookup table.
    pub fn to_int(&self) -> (r: usize)
        ensures
            r == self.key() as usize,
            r < 0x800_0000,
    {
        let c0 = self.cards[0].to_special_int();
        let c1 = self.cards[1].to_special_int();
        let c2 = self.cards[2].to_special_int();
        let c3 = self.cards[3].to_special_int();
        let c4 = self.cards[4].to_special_int();
        proof {
            lemma_xor_bound(c0, c1);
            lemma_xor_bound(c0 ^ c1, c2);
            lemma_xor_bound(c0 ^ c1 ^ c2, c3);
            lemma_xor_bound(c0 ^ c1 ^ c2 ^ c3, c4);
        }
        (c0 ^ c1 ^ c2 ^ c3 ^ c4) as usize
    }

    /// Whether two of the five cards are equal.
    pub fn check_repeating_cards(&self) -> (r: bool)
        ensures
            r == self.has_repeats(),
    {
        let mut uniq = KeySet::new();
        let mut i: usize = 0;
        while i < 5
            invariant
                i <= 5,
                key_set_contents(uniq).finite(),
                forall|x: u32|
                    key_set_contents(uniq).contains(x) <==> exists|j: int|
                        0 <= j < i && x == #[trigger] self.cards@[j].key(),
                key_set_contents(uniq).len() <= i,
                !self.repeats_upto(i as int) ==> key_set_contents(uniq).len() == i,
                self.repeats_upto(i as int) ==> key_set_contents(uniq).len() < i,
            decreases 5 - i,
        {
            let card = self.cards[i];
            let card_byte_int = card.to_byte_int();
            let key = (card_byte_int.0 as u32) * 0x2000 + card_byte_int.1 as u32;
            proof {
                lemma2_to64();
                assert(key == card.key());
                let old_set = key_set_contents(uniq);
                if old_set.contains(key) {
                    let j = choose|j: int| 0 <= j < i && key == #[trigger] self.cards@[j].key();
                    crate::card::lemma_key_injective(self.cards@[j], card);
                    assert(self.repeats_upto(i + 1));
                } else {
                    assert forall|j: int| 0 <= j < i implies self.cards@[j] != self.cards@[i as int] by {
                        if self.cards@[j] == self.cards@[i as int] {
                            assert(old_set.contains(self.cards@[j].key() as u32));
                        }
                    }
                    if !self.repeats_upto(i as int) {
                        assert(!self.repeats_upto(i + 1));
                    }
                }
            }
            uniq.insert(key);
            proof {
                assert forall|x: u32|
                    key_set_contents(uniq).contains(x) <==> exists|j: int|
                        0 <= j < i + 1 && x == #[trigger] self.cards@[j].key() by {
                    if x == key {
                        assert(x == self.cards@[i as int].key());
                    }
                }
            }
            i = i + 1;
        }
        uniq.len() != 5
    }

    /// The hand's category, with its frequency table for the categories
    /// that are neither flushes nor straights.
    pub fn get_hand_rank(&self) -> (r: (HandRank, Option<[u8; 13]>))
        ensures
            r.0 == self.category(),
            r.1 is None <==> (self.is_flush() || straight_high(self.rank_mask()) is Some),
            r.1 matches Some(f) ==> forall|k: int| 0 <= k < 13 ==> #[trigger] f[k] == self.rank_count(k),
    {
        if self.check_flush() {
            if self.check_straight().0 {
                (HandRank::STRAIGHT_FLUSH, None)
            } else {
                (HandRank::FLUSH, None)
            }
        } else {
            if self.check_straight().0 {
                (HandRank::STRAIGHT, None)
            } else {
                let same_kind = self.check_same_kind();
                let freq = self.get_freq_tuple(&same_kind);
                if freq.0 {
                    (HandRank::FOUR_OF_A_KIND, Some(same_kind))
                } else if freq.1 && freq.2 == 1 {
                    (HandRank::FULL_HOUSE, Some(same_kind))
                } else if freq.1 {
                    (HandRank::THREE_OF_A_KIND, Some(same_kind))
                } else if freq.2 == 2 {
                    (HandRank::TWO_PAIRS, Some(same_kind))
                } else if freq.2 == 1 {
                    (HandRank::PAIR, Some(same_kind))
                } else {
                    (HandRank::HIGH_CARD, Some(same_kind))
                }
            }
        }
    }

    /// The hand's category.
    pub fn classify(&self) -> (r: HandRank)
        ensures
            r == self.category(),
    {
        self.get_hand_rank().0
    }

    /// The four tie-break slots: the masks of the ranks held four times,
    /// three times, twice and once.
    fn slot_bits(&self, freq: &[u8; 13]) -> (r: [u16; 4])
        requires
            forall|k: int| 0 <= k < 13 ==> #[trigger] freq[k] == self.rank_count(k),
        ensures
            forall|i: int| 0 <= i < 4 ==> #[trigger] r[i] == self.slots()[i],
    {
        [
            self.group_bits(freq, 4),
            self.group_bits(freq, 3),
            self.group_bits(freq, 2),
            self.group_bits(freq, 1),
        ]
    }

    /// Orders two hands by strength: first by category, then within a
    /// category by the high card of the run (straight flush, straight; ace
    /// to five counts as five-high), by the rank mask (flush, high card), or
    /// slot by slot from four of a kind down to single cards.
    pub fn compare(&self, other: &Hand) -> (r: Ordering)
        ensures
            r == compare_hands(*self, *other),
    {
        proof {
            lemma_mask_bounds(*self);
            lemma_mask_bounds(*other);
        }
        let self_hand_rank = self.classify().to_int();
        let other_hand_rank = other.classify().to_int();
        if self_hand_rank < other_hand_rank {
            return Ordering::Greater;
        } else if self_hand_rank > other_hand_rank {
            return Ordering::Less;
        }
        assert(self.category() == other.category());
        let self_freq = self.check_same_kind();
        let other_freq = other.check_same_kind();
        if self_hand_rank == 1 || self_hand_rank == 5 {
            let self_high = self.check_straight().1.to_int();
            let other_high = other.check_straight().1.to_int();
            compare_bits(self_high as u16, other_high as u16)
        } else if self_hand_rank == 4 || self_hand_rank == 9 {
            let self_combined_ranks = self.group_bits(&self_freq, 0);
            let other_combined_ranks = other.group_bits(&other_freq, 0);
            compare_bits(self_combined_ranks, other_combined_ranks)
        } else {
            let a = self.slot_bits(&self_freq);
            let b = other.slot_bits(&other_freq);
            let mut i: usize = 0;
            while i < 4
                invariant
                    i <= 4,
                    forall|j: int| 0 <= j < 4 ==> #[trigger] a[j] == self.slots()[j],
                    forall|j: int| 0 <= j < 4 ==> #[trigger] b[j] == other.slots()[j],
                    forall|j: int| 0 <= j < i ==> #[trigger] self.slots()[j] == other.slots()[j],
                    self.category() == other.category(),
                    !self.category().is_plain(),
                decreases 4 - i,
            {
                assert(a[i as int] == self.slots()[i as int] && b[i as int] == other.slots()[i as int]);
                if a[i] != b[i] {
                    proof {
                        lemma_slots_decide(*self, *other, i as int);
                    }
                    return compare_bits(a[i], b[i]);
                }
                i = i + 1;
            }
            assert(self.slots()[0] == other.slots()[0]);
            assert(self.slots()[1] == other.slots()[1]);
            assert(self.slots()[2] == other.slots()[2]);
            assert(self.slots()[3] == other.slots()[3]);
            Ordering::Equal
        }
    }

    /// The hand's strength as a number: larger is stronger.
    pub fn strength_key(&self) -> (r: u64)
        ensures
            r == self.strength(),
    {
        proof {
            lemma_mask_bounds(*self);
        }
        let cat = self.classify().to_int();
        let freq = self.check_same_kind();
        let tiebreak: u64 = if cat == 1 || cat == 5 {
            (self.check_straight().1.to_int() - 2) as u64
        } else if cat == 4 || cat == 9 {
            self.group_bits(&freq, 0) as u64
        } else {
            let a = self.slot_bits(&freq);
            a[0] as u64 * 0x80_0000_0000 + a[1] as u64 * 0x400_0000 + a[2] as u64 * 0x2000
                + a[3] as u64
        };
        (9 - cat) as u64 * CATEGORY_WEIGHT + tiebreak
    }
}

/// The high card of the straight whose lowest rank is at position `j`.
fn window_high(j: usize) -> (r: Rank)
    requires
        j < 9,
    ensures
        r == rank_at(j + 4),
{
    match j {
        0 => Rank::SIX,
        1 => Rank::SEVEN,
        2 => Rank::EIGHT,
        3 => Rank::NINE,
        4 => Rank::TEN,
        5 => Rank::JACK,
        6 => Rank::QUEEN,
        7 => Rank::KING,
        _ => Rank::ACE,
    }
}

impl PartialEq for Hand {
    fn eq(&self, other: &Hand) -> bool {
        match self.compare(other) {
            Ordering::Equal => true,
            _ => false,
        }
    }
}

impl vstd::std_specs::cmp::PartialEqSpecImpl for Hand {
    open spec fn obeys_eq_spec() -> bool {
        true
    }

    /// Two hands are equal when they are of equal strength, whatever their
    /// cards.
    open spec fn eq_spec(&self, other: &Hand) -> bool {
        self.strength() == other.strength()
    }
}

impl Eq for Hand {

}

impl PartialOrd for Hand {
    fn partial_cmp(&self, other: &Hand) -> Option<Ordering> {
        Some(self.compare(other))
    }
}

impl vstd::std_specs::cmp::PartialOrdSpecImpl for Hand {
    open spec fn obeys_partial_cmp_spec() -> bool {
        true
    }

    open spec fn partial_cmp_spec(&self, other: &Hand) -> Option<Ordering> {
        Some(compare_hands(*self, *other))
    }
}

/// Any two hands compare in exactly one way, and swapping them reverses
/// the answer.
pub proof fn lemma_compare_antisymmetric(a: Hand, b: Hand)
    ensures
        compare_hands(a, b) == Ordering::Greater <==> compare_hands(b, a) == Ordering::Less,
        compare_hands(a, b) == Ordering::Equal <==> compare_hands(b, a) == Ordering::Equal,
        compare_hands(a, b) == Ordering::Equal <==> a.strength() == b.strength(),
        compare_hands(a, a) == Ordering::Equal,
{
}

/// The order of hands is transitive, for strict and non-strict steps alike.
pub proof fn lemma_compare_transitive(a: Hand, b: Hand, c: Hand)
    ensures
        compare_hands(a, b) == Ordering::Greater && compare_hands(b, c) == Ordering::Greater
            ==> compare_hands(a, c) == Ordering::Greater,
        compare_hands(a, b) == Ordering::Less && compare_hands(b, c) == Ordering::Less
            ==> compare_hands(a, c) == Ordering::Less,
        compare_hands(a, b) == Ordering::Equal && compare_hands(b, c) == Ordering::Equal
            ==> compare_hands(a, c) == Ordering::Equal,
        compare_hands(a, b) != Ordering::Less && compare_hands(b, c) != Ordering::Less
            ==> compare_hands(a, c) != Ordering::Less,
        compare_hands(a, b) != Ordering::Greater && compare_hands(b, c) != Ordering::Greater
            ==> compare_hands(a, c) != Ordering::Greater,
{
}

/// `p` is an ordering of the five positions: `h2` holds at position `i`
/// the card that `h1` holds at position `p[i]`.
pub open spec fn is_rearrangement(h1: Hand, h2: Hand, p: Seq<int>) -> bool {
    &&& p.len() == 5
    &&& forall|i: int| 0 <= i < 5 ==> 0 <= #[trigger] p[i] < 5
    &&& forall|i: int, j: int| 0 <= i < j < 5 ==> p[i] != p[j]
    &&& forall|i: int| 0 <= i < 5 ==> #[trigger] h2.cards@[i] == h1.cards@[p[i]]
}

proof fn lemma_rearranged_sum(x: Seq<int>, p: Seq<int>)
    requires
        x.len() == 5,
        p.len() == 5,
        forall|i: int| 0 <= i < 5 ==> 0 <= #[trigger] p[i] < 5,
        forall|i: int, j: int| 0 <= i < j < 5 ==> p[i] != p[j],
    ensures
        x[p[0]] + x[p[1]] + x[p[2]] + x[p[3]] + x[p[4]] == x[0] + x[1] + x[2] + x[3] + x[4],
{
    assert(p[0] != p[1] && p[0] != p[2] && p[0] != p[3] && p[0] != p[4]);
    assert(p[1] != p[2] && p[1] != p[3] && p[1] != p[4]);
    assert(p[2] != p[3] && p[2] != p[4]);
    assert(p[3] != p[4]);
}

proof fn lemma_rank_count_unrolled(h: Hand, k: int)
    ensures
        h.rank_count(k) == indicator(h.cards@[0].rank.index() == k) + indicator(
            h.cards@[1].rank.index() == k,
        ) + indicator(h.cards@[2].rank.index() == k) + indicator(h.cards@[3].rank.index() == k)
            + indicator(h.cards@[4].rank.index() == k),
{
    reveal_with_fuel(Hand::rank_count_upto, 6);
}

proof fn lemma_masks_from_counts(h1: Hand, h2: Hand, n: nat)
    requires
        forall|k: int| 0 <= k < 13 ==> #[trigger] h1.rank_count(k) == h2.rank_count(k),
        n <= 13,
    ensures
        h1.present_mask(n) == h2.present_mask(n),
        forall|c: nat| #[trigger] h1.group_mask(c, n) == h2.group_mask(c, n),
        forall|c: nat| #[trigger] h1.groups(c, n) == h2.groups(c, n),
    decreases n,
{
    if n > 0 {
        let m = (n - 1) as nat;
        lemma_masks_from_counts(h1, h2, m);
        assert(h1.rank_count(m as int) == h2.rank_count(m as int));
        assert forall|c: nat| #[trigger] h1.group_mask(c, n) == h2.group_mask(c, n) by {
            assert(h1.group_mask(c, m) == h2.group_mask(c, m));
        }
        assert forall|c: nat| #[trigger] h1.groups(c, n) == h2.groups(c, n) by {
            assert(h1.groups(c, m) == h2.groups(c, m));
        }
    }
}

/// Classification depends on the set of five cards only, not on their
/// order: rearranging the cards keeps the category, flushness, the count of
/// every rank (the frequency table), the masks, the frequency tuple and the
/// strength.
pub proof fn lemma_classify_rearranged(h1: Hand, h2: Hand, p: Seq<int>)
    requires
        is_rearrangement(h1, h2, p),
    ensures
        h2.category() == h1.category(),
        h2.is_flush() == h1.is_flush(),
        forall|k: int| 0 <= k < 13 ==> #[trigger] h2.rank_count(k) == h1.rank_count(k),
        h2.rank_mask() == h1.rank_mask(),
        h2.slots() == h1.slots(),
        h2.freq_tuple() == h1.freq_tuple(),
        h2.strength() == h1.strength(),
        compare_hands(h1, h2) == Ordering::Equal,
{
    assert forall|k: int| 0 <= k < 13 implies #[trigger] h1.rank_count(k) == h2.rank_count(k) by {
        let x = Seq::new(5, |i: int| indicator(h1.cards@[i].rank.index() == k) as int);
        lemma_rearranged_sum(x, p);
        lemma_rank_count_unrolled(h1, k);
        lemma_rank_count_unrolled(h2, k);
        assert(h2.cards@[0] == h1.cards@[p[0]]);
        assert(h2.cards@[1] == h1.cards@[p[1]]);
        assert(h2.cards@[2] == h1.cards@[p[2]]);
        assert(h2.cards@[3] == h1.cards@[p[3]]);
        assert(h2.cards@[4] == h1.cards@[p[4]]);
    }
    lemma_masks_from_counts(h1, h2, 13);
    assert(h1.group_mask(1, 13) == h2.group_mask(1, 13));
    assert(h1.group_mask(2, 13) == h2.group_mask(2, 13));
    assert(h1.group_mask(3, 13) == h2.group_mask(3, 13));
    assert(h1.group_mask(4, 13) == h2.group_mask(4, 13));
    assert(h1.groups(2, 13) == h2.groups(2, 13));
    assert(h1.groups(3, 13) == h2.groups(3, 13));
    assert(h1.groups(4, 13) == h2.groups(4, 13));
    assert(h1.slots() =~= h2.slots());
    if h1.is_flush() {
        assert forall|i: int| 0 <= i < 5 implies #[trigger] h2.cards@[i].suit == h2.cards@[0].suit by {
            assert(h2.cards@[i] == h1.cards@[p[i]]);
            assert(h2.cards@[0] == h1.cards@[p[0]]);
        }
    }
    if h2.is_flush() {
        assert forall|j: int| 0 <= j < 5 implies #[trigger] h1.cards@[j].suit == h1.cards@[0].suit by {
            let i = choose_preimage(p, j);
            let i0 = choose_preimage(p, 0);
            assert(h2.cards@[i] == h1.cards@[p[i]]);
            assert(h2.cards@[i0] == h1.cards@[p[i0]]);
            assert(h2.cards@[i].suit == h2.cards@[0].suit);
            assert(h2.cards@[i0].suit == h2.cards@[0].suit);
        }
    }
}

/// The position that an ordering of five positions sends to `j`.
pub(crate) proof fn choose_preimage(p: Seq<int>, j: int) -> (i: int)
    requires
        p.len() == 5,
        forall|i: int| 0 <= i < 5 ==> 0 <= #[trigger] p[i] < 5,
        forall|i: int, k: int| 0 <= i < k < 5 ==> p[i] != p[k],
        0 <= j < 5,
    ensures
        0 <= i < 5,
        p[i] == j,
{
    let x = Seq::new(5, |k: int| if k == j { 1int } else { 0int });
    lemma_rearranged_sum(x, p);
    assert(x[0] + x[1] + x[2] + x[3] + x[4] == 1);
    assert(0 <= p[0] < 5 && 0 <= p[1] < 5 && 0 <= p[2] < 5 && 0 <= p[3] < 5 && 0 <= p[4] < 5);
    assert(x[p[0]] == if p[0] == j { 1int } else { 0int });
    assert(x[p[1]] == if p[1] == j { 1int } else { 0int });
    assert(x[p[2]] == if p[2] == j { 1int } else { 0int });
    assert(x[p[3]] == if p[3] == j { 1int } else { 0int });
    assert(x[p[4]] == if p[4] == j { 1int } else { 0int });
    if p[0] == j {
        0
    } else if p[1] == j {
        1
    } else if p[2] == j {
        2
    } else if p[3] == j {
        3
    } else {
        4
    }
}

proof fn lemma_first_bad_token_stays(t: Seq<Seq<char>>, m: int, n: int)
    requires
        0 < m <= n,
        first_bad_token(t, m) < m,
    ensures
        first_bad_token(t, n) == first_bad_token(t, m),
    decreases n - m,
{
    if n > m {
        lemma_first_bad_token_stays(t, m, n - 1);
    }
}

/// `o` holds the cards of `h` in ascending order of rank, then suit.
pub open spec fn is_ordered_arrangement(h: Hand, o: Hand) -> bool {
    &&& exists|p: Seq<int>| is_rearrangement(h, o, p)
    &&& forall|i: int| 0 <= i < 4 ==> #[trigger] o.cards@[i].order_key() <= o.cards@[i + 1].order_key()
}

proof fn lemma_sorted_arrangement(h: Hand, o: Hand, p: Seq<usize>)
    requires
        p.len() == 5,
        forall|i: int| 0 <= i < 5 ==> #[trigger] p[i] < 5,
        forall|i: int, j: int| 0 <= i < j < 5 ==> p[i] != p[j],
        forall|i: int, j: int|
            0 <= i < j < 5 ==> h.cards@[p[i] as int].order_key() <= h.cards@[p[j] as int].order_key(),
        forall|i: int| 0 <= i < 5 ==> #[trigger] o.cards@[i] == h.cards@[p[i] as int],
    ensures
        is_ordered_arrangement(h, o),
{
    let ps = Seq::new(5, |i: int| p[i] as int);
    assert(is_rearrangement(h, o, ps));
    assert forall|i: int| 0 <= i < 4 implies #[trigger] o.cards@[i].order_key() <= o.cards@[i
        + 1].order_key() by {
        assert(o.cards@[i] == h.cards@[p[i] as int]);
        assert(o.cards@[i + 1] == h.cards@[p[i + 1] as int]);
    }
}

/// An ordering of the five positions that sorts `keys` ascending.
pub(crate) fn sort5(keys: &[u8; 5]) -> (p: [usize; 5])
    ensures
        forall|i: int| 0 <= i < 5 ==> #[trigger] p[i] < 5,
        forall|i: int, j: int| 0 <= i < j < 5 ==> p[i] != p[j],
        forall|i: int, j: int| 0 <= i < j < 5 ==> keys[p[i] as int] <= keys[p[j] as int],
{
    let mut p: [usize; 5] = [0, 1, 2, 3, 4];
    let mut i: usize = 0;
    while i < 5
        invariant
            i <= 5,
            forall|a: int| 0 <= a < 5 ==> #[trigger] p[a] < 5,
            forall|a: int, b: int| 0 <= a < b < 5 ==> p[a] != p[b],
            forall|a: int, b: int| 0 <= a < b < i ==> keys[p[a] as int] <= keys[p[b] as int],
            forall|a: int, b: int|
                0 <= a < i && i <= b < 5 ==> keys[p[a] as int] <= keys[p[b] as int],
        decreases 5 - i,
    {
        let mut m: usize = i;
        let mut j: usize = i + 1;
        while j < 5
            invariant
                i < 5,
                i <= m < j,
                j <= 5,
                forall|a: int| 0 <= a < 5 ==> #[trigger] p[a] < 5,
                forall|b: int| i <= b < j ==> keys[p[m as int] as int] <= keys[p[b] as int],
            decreases 5 - j,
        {
            if keys[p[j]] < keys[p[m]] {
                m = j;
            }
            j = j + 1;
        }
        let tmp = p[i];
        p[i] = p[m];
        p[m] = tmp;
        i = i + 1;
    }
    p
}

proof fn lemma_split_cards_text(c: Seq<Card>)
    requires
        c.len() >= 1,
    ensures
        split_spaces(cards_text(c)) == c.map_values(|x: Card| x.text()),
    decreases c.len(),
{
    let last = c.last();
    let r = last.rank.symbol();
    let u = last.suit.symbol();
    assert(r != ' ' && u != ' ');
    if c.len() == 1 {
        let t = cards_text(c);
        assert(t == seq![r, u]);
        assert(t.drop_last() =~= seq![r]);
        assert(seq![r].drop_last() =~= Seq::<char>::empty());
        assert(Seq::<char>::empty().push(r) =~= seq![r]);
        assert(seq![r].push(u) =~= seq![r, u]);
        assert(split_spaces(Seq::<char>::empty()) == seq![Seq::<char>::empty()]);
        assert(split_spaces(seq![r]) =~= seq![seq![r]]);
        assert(split_spaces(t) =~= seq![seq![r, u]]);
        assert(split_spaces(t) =~= c.map_values(|x: Card| x.text()));
    } else {
        let front = c.drop_last();
        lemma_split_cards_text(front);
        let x = cards_text(front);
        let t = cards_text(c);
        assert(t == x + seq![' '] + seq![r, u]);
        let x1 = x + seq![' '];
        let x2 = x1.push(r);
        assert(x1.drop_last() =~= x);
        assert(x2.drop_last() =~= x1);
        assert(t =~= x2.push(u));
        assert(t.drop_last() =~= x2);
        lemma_split_spaces_nonempty(x);
        assert(split_spaces(x1) =~= split_spaces(x).push(Seq::<char>::empty()));
        assert(Seq::<char>::empty().push(r) =~= seq![r]);
        assert(seq![r].push(u) =~= seq![r, u]);
        assert(split_spaces(x2) =~= split_spaces(x).push(seq![r]));
        assert(split_spaces(t) =~= split_spaces(x).push(seq![r, u]));
        assert(c.map_values(|y: Card| y.text()) =~= front.map_values(|y: Card| y.text()).push(
            last.text(),
        ));
    }
}

/// A hand's text reads back as the same hand: five tokens, each the text
/// of the card at its position.
pub proof fn lemma_hand_text_round_trip(h: Hand)
    ensures
        split_spaces(cards_text(h.cards@)).len() == 5,
        first_bad_token(split_spaces(cards_text(h.cards@)), 5) == 5,
        forall|i: int|
            0 <= i < 5 ==> parse_card(#[trigger] split_spaces(cards_text(h.cards@))[i]) == Ok::<
                Card,
                CardError,
            >(h.cards@[i]),
{
    lemma_split_cards_text(h.cards@);
    let t = split_spaces(cards_text(h.cards@));
    assert forall|i: int| 0 <= i < 5 implies parse_card(#[trigger] t[i]) == Ok::<
        Card,
        CardError,
    >(h.cards@[i]) by {
        crate::card::lemma_card_text_round_trip(h.cards@[i]);
    }
    assert(first_bad_token(t, 0) == 0);
    assert(first_bad_token(t, 1) == 1);
    assert(first_bad_token(t, 2) == 2);
    assert(first_bad_token(t, 3) == 3);
    assert(first_bad_token(t, 4) == 4);
}

pub(crate) proof fn lemma_xor_bound(a: u32, b: u32)
    requires
        a < 0x800_0000,
        b < 0x800_0000,
    ensures
        a ^ b < 0x800_0000,
{
    assert(a < 0x800_0000 && b < 0x800_0000 ==> a ^ b < 0x800_0000) by (bit_vector);
}

/// Orders two masks as unsigned numbers.
fn compare_bits(a: u16, b: u16) -> (r: Ordering)
    ensures
        r == (if a > b {
            Ordering::Greater
        } else if a < b {
            Ordering::Less
        } else {
            Ordering::Equal
        }),
{
    if a > b {
        Ordering::Greater
    } else if a < b {
        Ordering::Less
    } else {
        Ordering::Equal
    }
}

/// Between hands of one non-plain category, the first slot that differs
/// decides the order of strength.
proof fn lemma_slots_decide(a: Hand, b: Hand, i: int)
    requires
        0 <= i < 4,
        a.category() == b.category(),
        !a.category().is_plain(),
        forall|j: int| 0 <= j < i ==> a.slots()[j] == b.slots()[j],
        a.slots()[i] != b.slots()[i],
    ensures
        compare_hands(a, b) == (if a.slots()[i] > b.slots()[i] {
            Ordering::Greater
        } else {
            Ordering::Less
        }),
{
    lemma_mask_bounds(a);
    lemma_mask_bounds(b);
    if i >= 1 {
        assert(a.slots()[0] == b.slots()[0]);
    }
    if i >= 2 {
        assert(a.slots()[1] == b.slots()[1]);
    }
    if i >= 3 {
        assert(a.slots()[2] == b.slots()[2]);
    }
}

} // verus!
