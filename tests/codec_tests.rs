use poker_hand::card::{Card, CardError, Rank, Suit};
use poker_hand::hand::{Hand, HandError, HandRank};

fn hand(s: &str) -> Hand {
    Hand::new_from_string(s.to_string()).unwrap()
}

#[test]
fn card_parses_rank_then_suit() {
    let c = Card::new_from_string("Td".to_string()).unwrap();
    assert_eq!(c, Card { suit: Suit::DIAMONDS, rank: Rank::TEN });
    let c = Card::new_from_string("2c".to_string()).unwrap();
    assert_eq!(c, Card { suit: Suit::CLUBS, rank: Rank::TWO });
    let c = Card::new_from_string("As".to_string()).unwrap();
    assert_eq!(c, Card { suit: Suit::SPADES, rank: Rank::ACE });
}

#[test]
fn card_rejects_bad_text() {
    assert_eq!(Card::new_from_string("1c".to_string()), Err(CardError::InvalidRank));
    assert_eq!(Card::new_from_string("tc".to_string()), Err(CardError::InvalidRank));
    assert_eq!(Card::new_from_string("Tx".to_string()), Err(CardError::InvalidSuit));
    assert_eq!(Card::new_from_string("TC".to_string()), Err(CardError::InvalidSuit));
    assert_eq!(Card::new_from_string("T".to_string()), Err(CardError::WrongLength));
    assert_eq!(Card::new_from_string("".to_string()), Err(CardError::WrongLength));
    assert_eq!(Card::new_from_string("Tcd".to_string()), Err(CardError::WrongLength));
}

#[test]
fn card_text_round_trips() {
    for s in ["2c", "9h", "Td", "Js", "Qc", "Kd", "Ah"] {
        let c = Card::new_from_string(s.to_string()).unwrap();
        assert_eq!(c.to_string(), s);
    }
    assert_eq!(Suit::HEARTS.to_string(), "h");
    assert_eq!(Rank::QUEEN.to_string(), "Q");
}

#[test]
fn rank_values_and_lists() {
    assert_eq!(Rank::TWO.to_int(), 2);
    assert_eq!(Rank::TEN.to_int(), 10);
    assert_eq!(Rank::ACE.to_int(), 14);
    let ranks = Rank::iterator();
    assert_eq!(ranks.len(), 13);
    assert_eq!(ranks[0], Rank::TWO);
    assert_eq!(ranks[12], Rank::ACE);
    assert_eq!(Suit::iterator(), vec![Suit::CLUBS, Suit::DIAMONDS, Suit::HEARTS, Suit::SPADES]);
}

#[test]
fn card_masks_and_codes() {
    let c = Card::new_from_string("5h".to_string()).unwrap();
    assert_eq!(c.to_byte_int(), (0b0100, 0b1000));
    let c = Card::new_from_string("As".to_string()).unwrap();
    assert_eq!(c.to_byte_int(), (0b1000, 0b1_0000_0000_0000));
    assert_eq!(Card::new_from_string("2c".to_string()).unwrap().to_special_int(), 1);
    assert_eq!(Card::new_from_string("Jd".to_string()).unwrap().to_special_int(), 2781920);
    assert_eq!(Card::new_from_string("As".to_string()).unwrap().to_special_int(), 134086656);
}

#[test]
fn hand_rejects_bad_text() {
    assert_eq!(
        Hand::new_from_string("6c 6s 8h 8d".to_string()).err(),
        Some(HandError::WrongCardCount)
    );
    assert_eq!(
        Hand::new_from_string("6c 6s 8h 8d 8c 9c".to_string()).err(),
        Some(HandError::WrongCardCount)
    );
    assert_eq!(
        Hand::new_from_string("6c  6s 8h 8d 8c".to_string()).err(),
        Some(HandError::WrongCardCount)
    );
    assert_eq!(
        Hand::new_from_string("6c 6s 8h 1d 8c".to_string()).err(),
        Some(HandError::BadCard(CardError::InvalidRank))
    );
    assert_eq!(
        Hand::new_from_string("6c 6s 8h 8d 8z".to_string()).err(),
        Some(HandError::BadCard(CardError::InvalidSuit))
    );
    assert_eq!(
        Hand::new_from_string("6c 6s 8h 8dd 8c".to_string()).err(),
        Some(HandError::BadCard(CardError::WrongLength))
    );
}

#[test]
fn hand_text_and_ordered_text() {
    let h = hand("Th 6c Ks 6d 2c");
    assert_eq!(h.to_string(), "Th 6c Ks 6d 2c");
    assert_eq!(h.to_ordered_string(), "2c 6c 6d Th Ks");
    let h = hand("As Ac Ah Ad 2s");
    assert_eq!(h.to_ordered_string(), "2s Ac Ad Ah As");
}

#[test]
fn duplicate_detection() {
    assert_eq!(hand("6c 6s 8h 8d 8c").check_repeating_cards(), false);
    assert_eq!(hand("6c 6s 8h 8h 8c").check_repeating_cards(), true);
    assert_eq!(hand("Ac Ac Ac Ac Ac").check_repeating_cards(), true);
}

#[test]
fn wheel_is_five_high_straight() {
    let h = hand("2h 3c 4d Ac 5c");
    assert_eq!(h.check_straight(), (true, Rank::FIVE));
    assert_eq!(h.classify(), HandRank::STRAIGHT);
}

#[test]
fn suit_does_not_break_ties() {
    assert!(hand("4c 5s 7s 9h Ad") == hand("4c 5s 7s 9h As"));
    assert_eq!(hand("4c 5s 7s 9h Ad").compare(&hand("4c 5s 7s 9h As")), std::cmp::Ordering::Equal);
}

#[test]
fn kicker_decides_two_pairs() {
    assert!(hand("6s Th Td 6c 3d") > hand("6s Th Td 6c 2d"));
    assert!(hand("6s Th Td 6c 2d") < hand("6s Th Td 6c 3d"));
}

#[test]
fn category_dominates_ranks() {
    assert!(hand("5s 5c 5h 5d Js") > hand("2s 2c Jh Jd Js"));
    assert_eq!(hand("5s 5c 5h 5d Js").classify(), HandRank::FOUR_OF_A_KIND);
    assert_eq!(hand("2s 2c Jh Jd Js").classify(), HandRank::FULL_HOUSE);
}

#[test]
fn categories_of_each_kind() {
    assert_eq!(hand("9c Tc Jc Qc Kc").classify(), HandRank::STRAIGHT_FLUSH);
    assert_eq!(hand("2c 7c Jc Qc Kc").classify(), HandRank::FLUSH);
    assert_eq!(hand("9c Td Jc Qc Kc").classify(), HandRank::STRAIGHT);
    assert_eq!(hand("9c 9d 9h Qc Kc").classify(), HandRank::THREE_OF_A_KIND);
    assert_eq!(hand("9c 9d Qh Qc Kc").classify(), HandRank::TWO_PAIRS);
    assert_eq!(hand("9c 9d 2h Qc Kc").classify(), HandRank::PAIR);
    assert_eq!(hand("9c 8d 2h Qc Kc").classify(), HandRank::HIGH_CARD);
    assert_eq!(HandRank::STRAIGHT_FLUSH.to_int(), 1);
    assert_eq!(HandRank::HIGH_CARD.to_int(), 9);
    assert!(HandRank::STRAIGHT_FLUSH < HandRank::HIGH_CARD);
}

#[test]
fn classification_ignores_card_order() {
    let a = hand("Qh 9c Qc 9d Kc");
    let b = hand("Kc 9d Qc Qh 9c");
    assert_eq!(a.classify(), b.classify());
    assert_eq!(a.check_same_kind_tuple(), b.check_same_kind_tuple());
    assert_eq!(a.strength_key(), b.strength_key());
    assert!(a == b);
}

#[test]
fn compare_is_antisymmetric_and_transitive() {
    let a = hand("Ts Th Td Tc Kd");
    let b = hand("3s Th Td Tc 3d");
    let c = hand("5s 9h 9d 9c 3d");
    assert!(a > b && b > c && a > c);
    assert!(c < b && b < a && c < a);
    assert_eq!(a.compare(&b), std::cmp::Ordering::Greater);
    assert_eq!(b.compare(&a), std::cmp::Ordering::Less);
}

#[test]
fn frequency_table_counts_ranks() {
    let f = hand("6c 6s 8h 8d 8c").check_same_kind();
    assert_eq!(f[4], 2);
    assert_eq!(f[6], 3);
    assert_eq!(f.iter().map(|x| *x as u32).sum::<u32>(), 5);
}

#[test]
fn strength_key_exact_values() {
    // a royal flush: category weight 8, high card ace at position 12
    assert_eq!(hand("Ts Js Qs Ks As").strength_key(), 8 * (1u64 << 52) + 12);
    // ace to five: a straight whose high card is the five, at position 3
    assert_eq!(hand("2h 3c 4d Ac 5c").strength_key(), 4 * (1u64 << 52) + 3);
    // a pair of twos with three, four, five: slots for pairs and singles
    assert_eq!(
        hand("2s 2c 3h 4d 5s").strength_key(),
        (1u64 << 52) + (0x1u64 << 13) + 0b1110
    );
}

#[test]
fn cards_order_by_rank_then_suit() {
    let c = |s: &str| Card::new_from_string(s.to_string()).unwrap();
    assert!(c("2s") < c("3c"));
    assert!(c("Td") < c("Th"));
    assert!(c("Ac") > c("Ks"));
    assert_eq!(c("9h").partial_cmp(&c("9h")), Some(std::cmp::Ordering::Equal));
}

#[test]
fn hand_text_round_trips() {
    for s in ["Th 6c Ks 6d 2c", "2h 3c 4d Ac 5c", "As Ah Ad Ac Qd"] {
        let h = hand(s);
        let back = Hand::new_from_string(h.to_string()).unwrap();
        assert_eq!(back.cards, h.cards);
        assert_eq!(h.to_string(), s);
    }
}

#[test]
fn wheel_is_the_lowest_straight() {
    let wheel = hand("2h 3c 4d Ac 5c");
    let six_high = hand("2h 3c 4d 5c 6d");
    assert!(wheel < six_high);
    assert_eq!(wheel.compare(&six_high), std::cmp::Ordering::Less);
    assert!(hand("Ac 2c 3c 4c 5c") < hand("2d 3d 4d 5d 6d"));
    assert!(wheel < hand("Td Jc Qh Ks Ad"));
    assert!(wheel > hand("Ac Ad Ah 4c 5c"));
    assert!(wheel == hand("Ad 2c 3s 4h 5d"));
}

#[test]
fn hand_key_is_xor_of_codes() {
    assert_eq!(hand("2c 3c 4c 5c 6c").to_int(), 1 ^ 2 ^ 4 ^ 8 ^ 16);
    assert_eq!(
        hand("As Jd 2h 2c 3c").to_int(),
        134086656 ^ 2781920 ^ 14486720 ^ 1 ^ 2
    );
    assert_eq!(hand("Th 6c Ks 6d 2c").to_int(), hand("2c 6d Ks 6c Th").to_int());
    assert!(hand("Th 6c Ks 6d 2c").to_int() < 1 << 27);
}

#[test]
fn freq_tuple_reads_any_table() {
    let h = hand("2c 3d 4h 5s 7c");
    let mut f = [0u8; 13];
    f[0] = 2;
    f[3] = 2;
    f[7] = 3;
    f[12] = 2;
    assert_eq!(h.get_freq_tuple(&f), (false, true, 3));
    f[5] = 4;
    assert_eq!(h.get_freq_tuple(&f), (true, true, 3));
    assert_eq!(h.get_freq_tuple(&[0u8; 13]), (false, false, 0));
    let own = hand("6c 6s 8h 8d 8c");
    assert_eq!(own.get_freq_tuple(&own.check_same_kind()), (false, true, 1));
}

#[test]
fn hand_rank_ignores_card_order() {
    let a = hand("Qh 9c Qc 9d Kc").get_hand_rank();
    let b = hand("Kc 9d Qc Qh 9c").get_hand_rank();
    assert_eq!(a.0, HandRank::TWO_PAIRS);
    assert_eq!(a, b);
    let a = hand("9c Tc Jc Qc Kc").get_hand_rank();
    let b = hand("Kc Jc 9c Qc Tc").get_hand_rank();
    assert_eq!(a, (HandRank::STRAIGHT_FLUSH, None));
    assert_eq!(a, b);
}
