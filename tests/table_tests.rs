use poker_hand::hand::Hand;
use poker_hand::table::{deck, enumerate_hands, LookupTable};

fn hand(s: &str) -> Hand {
    Hand::new_from_string(s.to_string()).unwrap()
}

#[test]
fn deck_has_every_card_once() {
    let d = deck();
    assert_eq!(d.len(), 52);
    assert_eq!(d[0].to_string(), "2c");
    assert_eq!(d[12].to_string(), "Ac");
    assert_eq!(d[13].to_string(), "2d");
    assert_eq!(d[51].to_string(), "As");
}

#[test]
fn enumeration_counts_all_combinations() {
    let e = enumerate_hands();
    assert_eq!(e.len(), 2598960);
}

#[test]
fn table_ranks_agree_with_comparator() {
    let t = LookupTable::build().ok().unwrap();
    assert_eq!(t.classes(), 7462);
    let royal = hand("Ts Js Qs Ks As");
    let worst = hand("2c 3d 4h 5s 7c");
    assert_eq!(t.evaluate(&royal), 1);
    assert_eq!(t.evaluate(&worst), 7462);
    assert_eq!(t.evaluate(&hand("9s Ts Js Qs Ks")), 2);
    assert_eq!(t.evaluate(&hand("2d 3d 4d 5d 6d")), 9);
    assert_eq!(t.evaluate(&hand("Ad 2d 3d 4d 5d")), 10);
    assert!(t.evaluate(&hand("2h 3c 4d Ac 5c")) > t.evaluate(&hand("2h 3c 4d 5c 6d")));
    let pairs = [
        ("6s Th Td 6c 3d", "6s Th Td 6c 2d"),
        ("5s 5c 5h 5d Js", "2s 2c Jh Jd Js"),
        ("4c 5s 7s 9h Ad", "4c 5s 7s 9h Qd"),
        ("3s Th Td Tc 3d", "3s 9h 9d 9c 3d"),
        ("7s 8s 9s Ts Js", "4s 5s 6s 7s 8s"),
    ];
    for (a, b) in pairs {
        let (ha, hb) = (hand(a), hand(b));
        assert!(ha > hb);
        assert!(t.evaluate(&ha) < t.evaluate(&hb));
    }
    assert_eq!(t.evaluate(&hand("4c 5s 7s 9h Ad")), t.evaluate(&hand("4c 5s 7s 9h As")));
    assert_eq!(t.evaluate(&hand("Ad 9h 7s 5s 4c")), t.evaluate(&hand("4c 5s 7s 9h Ad")));
}

#[test]
fn equal_keys_share_a_rank_number() {
    let t = LookupTable::build().ok().unwrap();
    let a = hand("Th 6c Ks 6d 2c");
    let b = hand("2c 6d Ks 6c Th");
    assert_eq!(a.to_int(), b.to_int());
    assert!(a == b);
    assert_eq!(t.evaluate(&a), t.evaluate(&b));
}
