use poker_hand::card::Rank;
use poker_hand::hand::Hand;

fn hand(s: &str) -> Hand {
    Hand::new_from_string(s.to_string()).unwrap()
}

#[test]
fn check_pair() {
    let h = hand("6d 7h 8h 7c Tc");
    assert_eq!(h.check_same_kind_tuple().2, 1);

    let h = hand("Ad Ah 8h 7c Tc");
    assert_eq!(h.check_same_kind_tuple().2, 1);

    let h = hand("6c 7c 8c Ac Td");
    assert_eq!(h.check_same_kind_tuple().2, 0);

    let h = hand("6c 7c 8c Tc Td");
    assert_eq!(h.check_same_kind_tuple().2, 1);

    let h = hand("Ad Ah 8h 8c Tc");
    assert_ne!(h.check_same_kind_tuple().2, 1);

    let h = hand("Ad Ah 9d Ac 2d");
    assert_ne!(h.check_same_kind_tuple().2, 1);

    let h = hand("Ad Ah 8h Ac As");
    assert_ne!(h.check_same_kind_tuple().2, 1);
}

#[test]
fn check_two_pairs() {
    let h = hand("6c Ts Ad Kh Jc");
    assert_ne!(h.check_same_kind_tuple().2, 2);

    let h = hand("Ac As 4d Kh Jc");
    assert_ne!(h.check_same_kind_tuple().2, 2);

    let h = hand("Tc As Ad Kh Ac");
    assert_ne!(h.check_same_kind_tuple().2, 2);

    let h = hand("Tc As Ad Ah Ac");
    assert_ne!(h.check_same_kind_tuple().2, 2);

    let h = hand("Tc Ts Ad Kh Ac");
    assert_eq!(h.check_same_kind_tuple().2, 2);

    let h = hand("Tc 8s Td 2h 2c");
    assert_eq!(h.check_same_kind_tuple().2, 2);

    let h = hand("Tc 8s Td 8h 2c");
    assert_eq!(h.check_same_kind_tuple().2, 2);
}

#[test]
fn check_three_of_a_kind() {
    let h = hand("6c 6s 6d Ah Tc");
    assert_eq!(h.check_same_kind_tuple().1, true);

    let h = hand("6c 7c 8c 9c Td");
    assert_eq!(h.check_same_kind_tuple().1, false);

    let h = hand("Ad Ah 8h Ac Tc");
    assert_eq!(h.check_same_kind_tuple().1, true);
}

#[test]
fn check_straight() {
    let h = hand("6h 7c 8d 9c Tc");
    assert_eq!(h.check_straight(), (true, Rank::TEN));

    let h = hand("Kh Qc Td Jc Ac");
    assert_eq!(h.check_straight(), (true, Rank::ACE));

    let h = hand("2h 3c 4d Ac 5c");
    assert_eq!(h.check_straight(), (true, Rank::FIVE));

    let h = hand("6h 7c 8d 9c Jc");
    assert_eq!(h.check_straight().0, (false));
}

#[test]
fn check_flush() {
    let h = hand("6c 7c 8c 9c Tc");
    assert_eq!(h.check_flush(), true);

    let h = hand("6c 7c 8c 9c Td");
    assert_eq!(h.check_flush(), false);
}

#[test]
fn check_full_house() {
    let h = hand("6c 6s 6d 7h 7c");
    assert_eq!(h.check_same_kind_tuple().1, true);
    assert_eq!(h.check_same_kind_tuple().2, 1);

    let h = hand("Ac Ad 5s 5h Ah");
    assert_eq!(h.check_same_kind_tuple().1, true);
    assert_eq!(h.check_same_kind_tuple().2, 1);

    let h = hand("Ac 5s Ad 5h Ah");
    assert_eq!(h.check_same_kind_tuple().1, true);
    assert_eq!(h.check_same_kind_tuple().2, 1);
}

#[test]
fn check_four_of_a_kind() {
    let h = hand("6c 6s 6d 6h Tc");
    assert_eq!(h.check_same_kind_tuple().0, true);

    let h = hand("6c Tc 6d 6h 6s");
    assert_eq!(h.check_same_kind_tuple().0, true);

    let h = hand("Tc 6c 6d 6h 6s");
    assert_eq!(h.check_same_kind_tuple().0, true);

    let h = hand("6c 7c 8c 9c Td");
    assert_eq!(h.check_same_kind_tuple().0, false);
}

#[test]
fn check_straight_flush() {
    let h = hand("6c 7c Tc 9c 8c");
    assert_eq!(h.check_flush(), true);
    assert_eq!(h.check_straight(), (true, Rank::TEN));

    let h = hand("Ac Tc Kc Qc Jc");
    assert_eq!(h.check_flush(), true);
    assert_eq!(h.check_straight(), (true, Rank::ACE));

    let h = hand("6c 7c Th 9c 8c");
    assert_ne!(h.check_flush(), true);
    assert_eq!(h.check_straight(), (true, Rank::TEN));

    let h = hand("8c 7c Th 9c 6c");
    assert_eq!(h.check_flush(), false);
    assert_eq!(h.check_straight(), (true, Rank::TEN));
}

#[test]
fn check_hand_compare() {
    // this section compares hand ranks without considering card ranks
    let h = hand("6c 7c Tc 9c 8c");
    let o = hand("6c 7c Tc 9c 8c");
    assert_eq!(h == o, true);

    let h = hand("6c 7c Ac 9c 8c");
    let o = hand("6c 7c Tc 9c 8c");
    assert_eq!(h == o, false);

    let h = hand("6c 7c Ac 9c 8c");
    let o = hand("6c 7c Tc 9h 8c");
    assert_eq!(h == o, false);

    let h = hand("3h 4c 6c Td Tc");
    let o = hand("3h 4c 6c 7d 9c");
    assert_eq!(h > o, true);

    let h = hand("3h 3s 6c Td Tc");
    let o = hand("3h 4c 6c Td Tc");
    assert_eq!(h > o, true);

    let h = hand("3h Th 6c Td Tc");
    let o = hand("3h 4c 6c Td Tc");
    assert_eq!(h > o, true);

    let h = hand("3h Th 6c Td Tc");
    let o = hand("3h 3c 6c Td Tc");
    assert_eq!(h > o, true);

    let h = hand("3h Th 6c Td Tc");
    let o = hand("3h 4c 6c Td Tc");
    assert_eq!(h > o, true);

    let h = hand("6s 7s 8c 9s Ts");
    let o = hand("3h Th 6c Td Tc");
    assert_eq!(h > o, true);

    let h = hand("6s 7s 2s 9s Ts");
    let o = hand("6s 7s 8c 9s Ts");
    assert_eq!(h > o, true);

    let h = hand("2s 2c Jh Jd Js");
    let o = hand("6s 7s 2s 9s Ts");
    assert_eq!(h > o, true);

    let h = hand("5s 5c 5h 5d Js");
    let o = hand("2s 2c Jh Jd Js");
    assert_eq!(h > o, true);

    let h = hand("7s 8s 9s Ts Js");
    let o = hand("5s 5c 5h 5d Js");
    assert_eq!(h > o, true);

    // this section compares equal hand ranks considering card ranks
    let h = hand("4c 5s 7s 9h Ad");
    let o = hand("4c 5s 7s 9h As");
    assert_eq!(h == o, true);

    let h = hand("4c 5s 7s 9h Ad");
    let o = hand("4c 5s 7s 9h Qd");
    assert_eq!(h > o, true);

    let h = hand("4c 5s 7s 9h Ad");
    let o = hand("3h 5h 7c 9s As");
    assert_eq!(h > o, true);

    let h = hand("4c 5s 6s 7h 8d");
    let o = hand("3c 4s 5s 6h 7d");
    assert_eq!(h > o, true);

    let h = hand("4c 8c Tc 7c Qc");
    let o = hand("4c 8c Tc 6c Qc");
    assert_eq!(h > o, true);

    let h = hand("7s 8s 9s Ts Js");
    let o = hand("4s 5s 6s 7s 8s");
    assert_eq!(h > o, true);

    let h = hand("5s 8h Th Kc 2d");
    let o = hand("5s 8h Th Jc 2d");
    assert_eq!(h > o, true);

    let h = hand("5s 8h Th Kc 3d");
    let o = hand("5s 8h Th Kc 2d");
    assert_eq!(h > o, true);

    let h = hand("5s 8h 8d Kc 2d");
    let o = hand("5s 8h 8d Qc 2d");
    assert_eq!(h > o, true);

    let h = hand("5s 9h 9d Qc 2d");
    let o = hand("5s 8h 8d Kc 2d");
    assert_eq!(h > o, true);

    let h = hand("6s 9h 9d 6c 2d");
    let o = hand("5s 9h 9d 5c 2d");
    assert_eq!(h > o, true);

    let h = hand("5s Th Td 5c 2d");
    let o = hand("5s 9h 9d 5c 2d");
    assert_eq!(h > o, true);

    let h = hand("6s Th Td 6c 2d");
    let o = hand("5s 9h 9d 5c 2d");
    assert_eq!(h > o, true);

    let h = hand("6s Th Td 6c 3d");
    let o = hand("6s Th Td 6c 2d");
    assert_eq!(h > o, true);

    let h = hand("6s Th Td 6c 2d");
    let o = hand("6s Th Td 6c 3d");
    assert_eq!(h > o, false);

    let h = hand("5s 9h 9d 9c 3d");
    let o = hand("5s 9h 9d 9c 2d");
    assert_eq!(h > o, true);

    let h = hand("5s 9h 9d 9c 2d");
    let o = hand("5s 9h 9d 9c 3d");
    assert_eq!(h > o, false);

    let h = hand("3s 9h 9d 9c 3d");
    let o = hand("3s Th Td Tc 3d");
    assert_eq!(h > o, false);

    let h = hand("3s Th Td Tc 3d");
    let o = hand("3s 9h 9d 9c 3d");
    assert_eq!(h > o, true);

    let h = hand("3s Th Td Tc 3d");
    let o = hand("2s Th Td Tc 2d");
    assert_eq!(h > o, true);

    let h = hand("Ts Th Td Tc 3d");
    let o = hand("Ts Th Td Tc 2d");
    assert_eq!(h > o, true);

    let h = hand("As Ah Ad Ac Qd");
    let o = hand("Ts Th Td Tc Kd");
    assert_eq!(h > o, true);

    let h = hand("Ts Th Td Tc Kd");
    let o = hand("As Ah Ad Ac Kd");
    assert_eq!(h > o, false);

    let h = hand("Ts Th Td Tc Kd");
    let o = hand("As Ah Ad Ac Qs");
    assert_eq!(h > o, false);
}