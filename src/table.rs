//! The perfect-hash lookup table: every five-card combination of the deck,
//! ranked by strength and indexed by the XOR of its cards' codes.

use crate::card::{card_at, Card, Rank, Suit};
use crate::hand::{
    choose_preimage, compare_hands, indicator, is_rearrangement, lemma_classify_rearranged,
    lemma_xor_bound, Hand,
};
use core::cmp::Ordering;
use vstd::prelude::*;

verus! {

/// Number of entries in the lookup table: 2^27.
pub const TABLE_SIZE: usize = 0x800_0000;

/// The increasing `k`-tuples of deck positions from `start` up to 51, in
/// lexicographic order.
pub open spec fn combos(start: int, k: nat) -> Seq<Seq<int>>
    decreases 52 - start, k,
{
    if k == 0 {
        seq![Seq::<int>::empty()]
    } else if start >= 52 {
        Seq::<Seq<int>>::empty()
    } else {
        combos(start + 1, (k - 1) as nat).map_values(|t: Seq<int>| seq![start] + t) + combos(
            start + 1,
            k,
        )
    }
}

/// The five cards at deck positions `t`.
pub open spec fn hand_of(t: Seq<int>) -> Hand {
    Hand { cards: [card_at(t[0]), card_at(t[1]), card_at(t[2]), card_at(t[3]), card_at(t[4])] }
}

/// The XOR of the codes of the five cards at deck positions `t`.
pub open spec fn key_of(t: Seq<int>) -> u32 {
    card_at(t[0]).code() ^ card_at(t[1]).code() ^ card_at(t[2]).code() ^ card_at(t[3]).code()
        ^ card_at(t[4]).code()
}

/// The strength of the five cards at deck positions `t`.
pub open spec fn strength_of(t: Seq<int>) -> int {
    hand_of(t).strength()
}

/// What the enumeration records of a combination: its strength above its
/// key.
pub open spec fn entry_of(t: Seq<int>) -> u128 {
    (strength_of(t) * 0x800_0000 + key_of(t)) as u128
}

fn suit_from_index(i: u8) -> (r: Suit)
    requires
        i < 4,
    ensures
        r == crate::card::suit_at(i as int),
{
    match i {
        0 => Suit::CLUBS,
        1 => Suit::DIAMONDS,
        2 => Suit::HEARTS,
        _ => Suit::SPADES,
    }
}

fn rank_from_index(i: u8) -> (r: Rank)
    requires
        i < 13,
    ensures
        r == crate::card::rank_at(i as int),
{
    match i {
        0 => Rank::TWO,
        1 => Rank::THREE,
        2 => Rank::FOUR,
        3 => Rank::FIVE,
        4 => Rank::SIX,
        5 => Rank::SEVEN,
        6 => Rank::EIGHT,
        7 => Rank::NINE,
        8 => Rank::TEN,
        9 => Rank::JACK,
        10 => Rank::QUEEN,
        11 => Rank::KING,
        _ => Rank::ACE,
    }
}

/// The card at deck position `i`.
fn card_from_index(i: u8) -> (r: Card)
    requires
        i < 52,
    ensures
        r == card_at(i as int),
{
    Card { suit: suit_from_index(i / 13), rank: rank_from_index(i % 13) }
}

/// The entry of the combination at deck positions `t`.
fn entry_for(t: &Vec<u8>) -> (r: u128)
    requires
        t@.len() == 5,
        forall|i: int| 0 <= i < 5 ==> #[trigger] t@[i] < 52,
    ensures
        r == entry_of(t@.map_values(|x: u8| x as int)),
{
    let ghost ti = t@.map_values(|x: u8| x as int);
    let hand = Hand {
        cards: [
            card_from_index(t[0]),
            card_from_index(t[1]),
            card_from_index(t[2]),
            card_from_index(t[3]),
            card_from_index(t[4]),
        ],
    };
    assert(hand == hand_of(ti));
    let strength = hand.strength_key();
    let c0 = hand.cards[0].to_special_int();
    let c1 = hand.cards[1].to_special_int();
    let c2 = hand.cards[2].to_special_int();
    let c3 = hand.cards[3].to_special_int();
    let c4 = hand.cards[4].to_special_int();
    proof {
        lemma_xor_bound(c0, c1);
        lemma_xor_bound(c0 ^ c1, c2);
        lemma_xor_bound(c0 ^ c1 ^ c2, c3);
        lemma_xor_bound(c0 ^ c1 ^ c2 ^ c3, c4);
        crate::hand::lemma_mask_bounds(hand);
    }
    let key = c0 ^ c1 ^ c2 ^ c3 ^ c4;
    strength as u128 * 0x800_0000 + key as u128
}

/// The deck positions of `v`, as integers.
pub open spec fn positions(v: Seq<u8>) -> Seq<int> {
    v.map_values(|x: u8| x as int)
}

/// Records, after what `out` holds, the entry of every combination made
/// of the positions in `chosen` followed by an increasing `k`-tuple of
/// positions from `start` up.
fn enumerate(start: u8, k: usize, chosen: &mut Vec<u8>, out: &mut Vec<u128>)
    requires
        start <= 52,
        old(chosen)@.len() + k == 5,
        forall|i: int| 0 <= i < old(chosen)@.len() ==> #[trigger] old(chosen)@[i] < 52,
        old(out)@.len() + combos(start as int, k as nat).len() <= usize::MAX,
    ensures
        final(chosen)@ == old(chosen)@,
        final(out)@ == old(out)@ + combos(start as int, k as nat).map_values(
            |t: Seq<int>| entry_of(positions(old(chosen)@) + t),
        ),
    decreases 52 - start, k,
{
    let ghost c0 = chosen@;
    if k == 0 {
        let e = entry_for(chosen);
        out.push(e);
        proof {
            assert(positions(c0) + Seq::<int>::empty() =~= positions(c0));
            assert(out@ =~= old(out)@ + combos(start as int, k as nat).map_values(
                |t: Seq<int>| entry_of(positions(c0) + t),
            ));
        }
    } else if start < 52 {
        let ghost first = combos(start as int + 1, (k - 1) as nat);
        let ghost rest = combos(start as int + 1, k as nat);
        let ghost f = |t: Seq<int>| entry_of(positions(c0) + t);
        proof {
            assert(combos(start as int, k as nat) == first.map_values(
                |t: Seq<int>| seq![start as int] + t,
            ) + rest);
        }
        chosen.push(start);
        enumerate(start + 1, k - 1, chosen, out);
        let ghost mid = out@;
        chosen.pop();
        proof {
            assert(chosen@ =~= c0);
        }
        enumerate(start + 1, k, chosen, out);
        proof {
            let g = |t: Seq<int>| entry_of(positions(c0.push(start)) + t);
            assert forall|t: Seq<int>| #[trigger] g(t) == f(seq![start as int] + t) by {
                assert(positions(c0.push(start)) + t =~= positions(c0) + (seq![start as int]
                    + t));
            }
            assert(first.map_values(g) =~= first.map_values(
                |t: Seq<int>| seq![start as int] + t,
            ).map_values(f));
            assert(combos(start as int, k as nat).map_values(f) =~= first.map_values(
                |t: Seq<int>| seq![start as int] + t,
            ).map_values(f) + rest.map_values(f));
            assert(out@ =~= old(out)@ + combos(start as int, k as nat).map_values(f));
        }
    } else {
        proof {
            assert(out@ =~= old(out)@ + combos(start as int, k as nat).map_values(
                |t: Seq<int>| entry_of(positions(c0) + t),
            ));
        }
    }
}

/// The number of ways to choose `k` of `n` things.
pub open spec fn binomial(n: nat, k: nat) -> nat
    decreases n, k,
{
    if k == 0 {
        1
    } else if n == 0 {
        0
    } else {
        binomial((n - 1) as nat, (k - 1) as nat) + binomial((n - 1) as nat, k)
    }
}

proof fn lemma_combos_len(start: int, k: nat)
    requires
        start <= 52,
    ensures
        combos(start, k).len() == binomial((52 - start) as nat, k),
    decreases 52 - start, k,
{
    if k > 0 && start < 52 {
        lemma_combos_len(start + 1, (k - 1) as nat);
        lemma_combos_len(start + 1, k);
    }
}

proof fn lemma_binomial_closed(n: nat)
    ensures
        binomial(n, 1) == n,
        2 * binomial(n, 2) == n * (n - 1),
        6 * binomial(n, 3) == n * (n - 1) * (n - 2),
        24 * binomial(n, 4) == n * (n - 1) * (n - 2) * (n - 3),
        120 * binomial(n, 5) == n * (n - 1) * (n - 2) * (n - 3) * (n - 4),
    decreases n,
{
    if n > 0 {
        let m = (n - 1) as nat;
        lemma_binomial_closed(m);
        assert(binomial(m, 0) == 1);
        let b1 = binomial(m, 1);
        let b2 = binomial(m, 2);
        let b3 = binomial(m, 3);
        let b4 = binomial(m, 4);
        let b5 = binomial(m, 5);
        assert(2 * binomial(n, 2) == n * (n - 1)) by (nonlinear_arith)
            requires
                binomial(n, 2) == b1 + b2,
                b1 == m,
                2 * b2 == m * (m - 1),
                m == n - 1,
        ;
        assert(6 * binomial(n, 3) == n * (n - 1) * (n - 2)) by (nonlinear_arith)
            requires
                binomial(n, 3) == b2 + b3,
                2 * b2 == m * (m - 1),
                6 * b3 == m * (m - 1) * (m - 2),
                m == n - 1,
        ;
        assert(24 * binomial(n, 4) == n * (n - 1) * (n - 2) * (n - 3)) by (nonlinear_arith)
            requires
                binomial(n, 4) == b3 + b4,
                6 * b3 == m * (m - 1) * (m - 2),
                24 * b4 == m * (m - 1) * (m - 2) * (m - 3),
                m == n - 1,
        ;
        assert(120 * binomial(n, 5) == n * (n - 1) * (n - 2) * (n - 3) * (n - 4))
            by (nonlinear_arith)
            requires
                binomial(n, 5) == b4 + b5,
                24 * b4 == m * (m - 1) * (m - 2) * (m - 3),
                120 * b5 == m * (m - 1) * (m - 2) * (m - 3) * (m - 4),
                m == n - 1,
        ;
    }
}

/// The deck has 2,598,960 five-card combinations.
pub proof fn lemma_combination_count()
    ensures
        combos(0, 5).len() == 2598960,
{
    lemma_combos_len(0, 5);
    lemma_binomial_closed(52);
    assert(52 * (52 - 1) * (52 - 2) * (52 - 3) * (52 - 4) == 311875200) by (nonlinear_arith);
}

/// Each combination is an increasing tuple of `k` positions from `start`
/// up to 51.
pub open spec fn is_combination(t: Seq<int>, start: int, k: nat) -> bool {
    &&& t.len() == k
    &&& forall|i: int| 0 <= i < k ==> start <= #[trigger] t[i] < 52
    &&& forall|i: int, j: int| 0 <= i < j < k ==> t[i] < t[j]
}

proof fn lemma_combos_shape(start: int, k: nat)
    requires
        start <= 52,
    ensures
        forall|m: int|
            0 <= m < combos(start, k).len() ==> is_combination(
                #[trigger] combos(start, k)[m],
                start,
                k,
            ),
    decreases 52 - start, k,
{
    if k > 0 && start < 52 {
        lemma_combos_shape(start + 1, (k - 1) as nat);
        lemma_combos_shape(start + 1, k);
        let first = combos(start + 1, (k - 1) as nat);
        let n1 = first.len();
        assert forall|m: int| 0 <= m < combos(start, k).len() implies is_combination(
            #[trigger] combos(start, k)[m],
            start,
            k,
        ) by {
            if m < n1 {
                let t = first[m];
                assert(is_combination(t, start + 1, (k - 1) as nat));
                assert(combos(start, k)[m] == seq![start] + t);
            } else {
                assert(combos(start, k)[m] == combos(start + 1, k)[m - n1]);
            }
        }
    }
}

proof fn lemma_combos_complete(start: int, k: nat, t: Seq<int>)
    requires
        start <= 52,
        is_combination(t, start, k),
    ensures
        combos(start, k).contains(t),
    decreases 52 - start, k,
{
    if k == 0 {
        assert(t =~= Seq::<int>::empty());
        assert(combos(start, k)[0] == t);
    } else if start < 52 {
        let first = combos(start + 1, (k - 1) as nat);
        if t[0] == start {
            let rest = t.drop_first();
            lemma_combos_complete(start + 1, (k - 1) as nat, rest);
            let m = choose|m: int| 0 <= m < first.len() && first[m] == rest;
            assert(seq![start] + rest =~= t);
            assert(combos(start, k)[m] == t);
        } else {
            lemma_combos_complete(start + 1, k, t);
            let rest = combos(start + 1, k);
            let m = choose|m: int| 0 <= m < rest.len() && rest[m] == t;
            assert(combos(start, k)[first.len() + m] == t);
        }
    } else {
        assert(t[0] < 52);
    }
}

proof fn lemma_combos_distinct(start: int, k: nat)
    requires
        start <= 52,
    ensures
        combos(start, k).no_duplicates(),
    decreases 52 - start, k,
{
    if k > 0 && start < 52 {
        lemma_combos_distinct(start + 1, (k - 1) as nat);
        lemma_combos_distinct(start + 1, k);
        lemma_combos_shape(start + 1, (k - 1) as nat);
        lemma_combos_shape(start + 1, k);
        let first = combos(start + 1, (k - 1) as nat);
        let rest = combos(start + 1, k);
        let all = combos(start, k);
        let n1 = first.len();
        assert forall|a: int, b: int| 0 <= a < b < all.len() implies all[a] != all[b] by {
            if b < n1 {
                assert(all[a] == seq![start] + first[a]);
                assert(all[b] == seq![start] + first[b]);
                assert(first[a] != first[b]);
                if all[a] == all[b] {
                    assert(first[a] =~= all[a].drop_first());
                    assert(first[b] =~= all[b].drop_first());
                }
            } else if a < n1 {
                assert(all[a] == seq![start] + first[a]);
                assert(all[b] == rest[b - n1]);
                assert(is_combination(rest[b - n1], start + 1, k));
                assert(all[a][0] == start);
                assert(all[b][0] >= start + 1);
            } else {
                assert(all[a] == rest[a - n1]);
                assert(all[b] == rest[b - n1]);
            }
        }
    }
}

/// The strength classes: the set of strengths over all combinations.
pub open spec fn strength_classes() -> Set<int> {
    combos(0, 5).map_values(|t: Seq<int>| strength_of(t)).to_set()
}

/// The rank number of strength `s`: how many strength classes are at
/// least as strong. The strongest class has rank number 1.
pub open spec fn dense_rank(s: int) -> nat {
    strength_classes().filter(|x: int| x >= s).len()
}

/// Whether two combinations share a key but not a rank number.
pub open spec fn has_conflict() -> bool {
    exists|a: int, b: int|
        0 <= a < combos(0, 5).len() && 0 <= b < combos(0, 5).len() && key_of(
            #[trigger] combos(0, 5)[a],
        ) == key_of(#[trigger] combos(0, 5)[b]) && dense_rank(strength_of(combos(0, 5)[a]))
            != dense_rank(strength_of(combos(0, 5)[b]))
}

/// The strength recorded in an entry.
pub open spec fn entry_strength(e: u128) -> int {
    e as int / 0x800_0000
}

/// The key recorded in an entry.
pub open spec fn entry_key(e: u128) -> int {
    e as int % 0x800_0000
}

/// The strengths recorded in `e[i..]`.
pub open spec fn suffix_classes(e: Seq<u128>, i: int) -> Set<int>
    decreases e.len() - i,
{
    if i >= e.len() {
        Set::<int>::empty()
    } else {
        suffix_classes(e, i + 1).insert(entry_strength(e[i]))
    }
}

proof fn lemma_suffix_classes(e: Seq<u128>, i: int)
    requires
        0 <= i <= e.len(),
    ensures
        suffix_classes(e, i).finite(),
        suffix_classes(e, i).len() <= e.len() - i,
        forall|x: int|
            suffix_classes(e, i).contains(x) <==> exists|j: int|
                i <= j < e.len() && entry_strength(#[trigger] e[j]) == x,
    decreases e.len() - i,
{
    if i < e.len() {
        lemma_suffix_classes(e, i + 1);
        assert forall|x: int|
            suffix_classes(e, i).contains(x) implies exists|j: int|
                i <= j < e.len() && entry_strength(#[trigger] e[j]) == x by {
            if x == entry_strength(e[i]) {
                assert(entry_strength(e[i]) == x);
            }
        }
    }
}

proof fn lemma_entry_parts(t: Seq<int>)
    requires
        0 <= strength_of(t) < 10 * crate::hand::CATEGORY_WEIGHT,
    ensures
        entry_strength(entry_of(t)) == strength_of(t),
        entry_key(entry_of(t)) == key_of(t),
{
    let s = strength_of(t);
    let k = key_of(t) as int;
    assert(k < 0x800_0000) by {
        lemma_key_bound(t);
    }
    let x = s * 0x800_0000 + k;
    assert(0 <= x < 0x1_0000_0000_0000_0000_0000_0000_0000_0000) by (nonlinear_arith)
        requires
            0 <= s < 10 * 0x10_0000_0000_0000,
            0 <= k < 0x800_0000,
            x == s * 0x800_0000 + k,
    ;
    assert(entry_of(t) as int == x);
    assert(x / 0x800_0000 == s && x % 0x800_0000 == k) by (nonlinear_arith)
        requires
            0 <= s,
            0 <= k < 0x800_0000,
            x == s * 0x800_0000 + k,
    ;
}

proof fn lemma_key_bound(t: Seq<int>)
    ensures
        key_of(t) < 0x800_0000,
{
    let c0 = card_at(t[0]).code();
    let c1 = card_at(t[1]).code();
    let c2 = card_at(t[2]).code();
    let c3 = card_at(t[3]).code();
    let c4 = card_at(t[4]).code();
    assert(c0 < 0x800_0000 && c1 < 0x800_0000 && c2 < 0x800_0000 && c3 < 0x800_0000 && c4
        < 0x800_0000);
    lemma_xor_bound(c0, c1);
    lemma_xor_bound(c0 ^ c1, c2);
    lemma_xor_bound(c0 ^ c1 ^ c2, c3);
    lemma_xor_bound(c0 ^ c1 ^ c2 ^ c3, c4);
}

proof fn lemma_strength_bounds(h: Hand)
    ensures
        0 <= h.strength() < 10 * crate::hand::CATEGORY_WEIGHT,
{
    crate::hand::lemma_mask_bounds(h);
}

/// Relies on `slice::sort_unstable`: the entries end up in ascending order,
/// the same entries as before.
#[verifier::external_body]
fn sort_entries(v: &mut Vec<u128>)
    ensures
        final(v)@.to_multiset() == old(v)@.to_multiset(),
        final(v)@.len() == old(v)@.len(),
        forall|i: int, j: int| 0 <= i <= j < final(v)@.len() ==> final(v)@[i] <= final(v)@[j],
{
    v.sort_unstable();
}

/// Every combination of the deck, recorded as its strength above its key,
/// in lexicographic order of the combinations' positions.
pub fn enumerate_hands() -> (r: Vec<u128>)
    ensures
        r@ == combos(0, 5).map_values(|t: Seq<int>| entry_of(t)),
        r@.len() == 2598960,
{
    proof {
        lemma_combination_count();
    }
    let mut chosen: Vec<u8> = Vec::new();
    let mut out: Vec<u128> = Vec::new();
    enumerate(0, 5, &mut chosen, &mut out);
    proof {
        assert(positions(Seq::<u8>::empty()) =~= Seq::<int>::empty());
        assert forall|t: Seq<int>| #[trigger] (Seq::<int>::empty() + t) == t by {
            assert(Seq::<int>::empty() + t =~= t);
        }
        assert(out@ =~= combos(0, 5).map_values(|t: Seq<int>| entry_of(t)));
    }
    out
}

proof fn lemma_strength_monotone(a: u128, b: u128)
    requires
        a <= b,
    ensures
        entry_strength(a) <= entry_strength(b),
{
    assert(a as int / 0x800_0000 <= b as int / 0x800_0000) by (nonlinear_arith)
        requires
            0 <= a <= b,
    ;
}

/// Every combination's entry is among `e`, and every entry of `e` is some
/// combination's.
spec fn holds_all_entries(e: Seq<u128>) -> bool {
    &&& forall|m: int|
        0 <= m < combos(0, 5).len() ==> #[trigger] e.contains(entry_of(combos(0, 5)[m]))
    &&& forall|j: int|
        0 <= j < e.len() ==> exists|m: int|
            0 <= m < combos(0, 5).len() && #[trigger] e[j] == entry_of(combos(0, 5)[m])
}

proof fn lemma_sorted_entries(orig: Seq<u128>, e: Seq<u128>)
    requires
        orig == combos(0, 5).map_values(|t: Seq<int>| entry_of(t)),
        e.to_multiset() == orig.to_multiset(),
    ensures
        holds_all_entries(e),
        entries_bounded(e),
        strength_classes() == suffix_classes(e, 0),
{
    let c = combos(0, 5);
    assert forall|m: int| 0 <= m < c.len() implies #[trigger] e.contains(entry_of(c[m])) by {
        assert(orig[m] == entry_of(c[m]));
        vstd::seq_lib::to_multiset_contains(orig, entry_of(c[m]));
        vstd::seq_lib::to_multiset_contains(e, entry_of(c[m]));
    }
    assert forall|j: int| 0 <= j < e.len() implies exists|m: int|
        0 <= m < c.len() && #[trigger] e[j] == entry_of(c[m]) by {
        assert(e.contains(e[j]));
        vstd::seq_lib::to_multiset_contains(orig, e[j]);
        vstd::seq_lib::to_multiset_contains(e, e[j]);
        let m = choose|m: int| 0 <= m < orig.len() && orig[m] == e[j];
        assert(orig[m] == entry_of(c[m]));
    }
    assert forall|j: int| 0 <= j < e.len() implies 0 <= entry_strength(#[trigger] e[j]) < 10
        * crate::hand::CATEGORY_WEIGHT by {
        let m = choose|m: int| 0 <= m < c.len() && e[j] == entry_of(c[m]);
        lemma_strength_bounds(hand_of(c[m]));
        lemma_entry_parts(c[m]);
    }
    lemma_suffix_classes(e, 0);
    let strengths = c.map_values(|t: Seq<int>| strength_of(t));
    assert forall|x: int| strength_classes().contains(x) <==> suffix_classes(e, 0).contains(x) by {
        if strength_classes().contains(x) {
            let m = choose|m: int| 0 <= m < strengths.len() && strengths[m] == x;
            assert(e.contains(entry_of(c[m])));
            let j = choose|j: int| 0 <= j < e.len() && e[j] == entry_of(c[m]);
            lemma_strength_bounds(hand_of(c[m]));
            lemma_entry_parts(c[m]);
            assert(entry_strength(e[j]) == x);
        }
        if suffix_classes(e, 0).contains(x) {
            let j = choose|j: int| 0 <= j < e.len() && entry_strength(e[j]) == x;
            let m = choose|m: int| 0 <= m < c.len() && e[j] == entry_of(c[m]);
            lemma_strength_bounds(hand_of(c[m]));
            lemma_entry_parts(c[m]);
            assert(strengths[m] == x);
        }
    }
    assert(strength_classes() =~= suffix_classes(e, 0));
}

/// Whether `e` is in ascending order.
spec fn is_sorted(e: Seq<u128>) -> bool {
    forall|a: int, b: int| 0 <= a <= b < e.len() ==> e[a] <= e[b]
}

/// Whether every entry of `e` records a strength below ten categories.
spec fn entries_bounded(e: Seq<u128>) -> bool {
    forall|j: int|
        0 <= j < e.len() ==> 0 <= entry_strength(#[trigger] e[j]) < 10
            * crate::hand::CATEGORY_WEIGHT
}

/// Walking a sorted run of entries from the top down, a new strength class
/// starts exactly where the strength drops, and the count of classes seen
/// so far is the rank number.
proof fn lemma_rank_step(e: Seq<u128>, p: int)
    requires
        is_sorted(e),
        0 <= p < e.len(),
        strength_classes() == suffix_classes(e, 0),
    ensures
        suffix_classes(e, p).len() == suffix_classes(e, p + 1).len() + (if p + 1 == e.len()
            || e[p] as int / 0x800_0000 != e[p + 1] as int / 0x800_0000 {
            1int
        } else {
            0int
        }),
        dense_rank(entry_strength(e[p])) == suffix_classes(e, p).len(),
        suffix_classes(e, p).len() >= 1,
{
    let n = e.len();
    let x = e[p];
    let sp = entry_strength(x);
    lemma_suffix_classes(e, 0);
    lemma_suffix_classes(e, p);
    lemma_suffix_classes(e, p + 1);
    vstd::set::axiom_set_insert_len(suffix_classes(e, p + 1), sp);
    if p + 1 < n {
        lemma_strength_monotone(x, e[p + 1]);
        if e[p] as int / 0x800_0000 != e[p + 1] as int / 0x800_0000 {
            if suffix_classes(e, p + 1).contains(sp) {
                let j = choose|j: int| p + 1 <= j < n && entry_strength(e[j]) == sp;
                lemma_strength_monotone(e[p + 1], e[j]);
            }
        } else {
            assert(entry_strength(e[p + 1]) == sp);
        }
    }
    assert(suffix_classes(e, p).contains(sp));
    vstd::set::axiom_set_contains_len(suffix_classes(e, p), sp);
    let below = strength_classes().filter(|y: int| y >= sp);
    assert forall|y: int| below.contains(y) <==> suffix_classes(e, p).contains(y) by {
        if below.contains(y) {
            let j = choose|j: int| 0 <= j < n && entry_strength(e[j]) == y;
            if j < p {
                lemma_strength_monotone(e[j], x);
            }
        }
        if suffix_classes(e, p).contains(y) {
            let j = choose|j: int| p <= j < n && entry_strength(e[j]) == y;
            lemma_strength_monotone(x, e[j]);
        }
    }
    assert(below =~= suffix_classes(e, p));
}

/// Writing the rank number of `e[i - 1]` at its key keeps every entry from
/// `i - 1` on at its rank number, when the slot was empty or held that
/// number already.
proof fn lemma_table_step(e: Seq<u128>, i: int, before: Seq<u32>, after: Seq<u32>, rank: u32)
    requires
        0 < i <= e.len(),
        before.len() == TABLE_SIZE,
        0 <= entry_key(e[i - 1]) < TABLE_SIZE,
        after == before.update(entry_key(e[i - 1]), rank),
        before[entry_key(e[i - 1])] == 0 || before[entry_key(e[i - 1])] == rank,
        rank == dense_rank(entry_strength(e[i - 1])),
        rank >= 1,
        forall|j: int|
            i <= j < e.len() ==> before[entry_key(#[trigger] e[j])] == dense_rank(
                entry_strength(e[j]),
            ) && dense_rank(entry_strength(e[j])) >= 1,
        forall|k: int|
            0 <= k < TABLE_SIZE && #[trigger] before[k] != 0 ==> exists|j: int|
                i <= j < e.len() && entry_key(#[trigger] e[j]) == k,
    ensures
        forall|j: int|
            i - 1 <= j < e.len() ==> after[entry_key(#[trigger] e[j])] == dense_rank(
                entry_strength(e[j]),
            ) && dense_rank(entry_strength(e[j])) >= 1,
        forall|k: int|
            0 <= k < TABLE_SIZE && #[trigger] after[k] != 0 ==> exists|j: int|
                i - 1 <= j < e.len() && entry_key(#[trigger] e[j]) == k,
{
    let key = entry_key(e[i - 1]);
    assert forall|j: int| i - 1 <= j < e.len() implies after[entry_key(#[trigger] e[j])]
        == dense_rank(entry_strength(e[j])) && dense_rank(entry_strength(e[j])) >= 1 by {
        if j >= i && entry_key(e[j]) == key {
            assert(before[key] != 0);
        }
    }
    assert forall|k: int| 0 <= k < TABLE_SIZE && #[trigger] after[k] != 0 implies exists|j: int|
        i - 1 <= j < e.len() && entry_key(#[trigger] e[j]) == k by {
        if k == key {
            assert(entry_key(e[i - 1]) == k);
        } else {
            assert(before[k] != 0);
        }
    }
}

/// Two entries with one key and different rank numbers come from two
/// conflicting combinations.
proof fn lemma_conflict(e: Seq<u128>, j: int, p: int)
    requires
        holds_all_entries(e),
        entries_bounded(e),
        0 <= j < e.len(),
        0 <= p < e.len(),
        entry_key(e[j]) == entry_key(e[p]),
        dense_rank(entry_strength(e[j])) != dense_rank(entry_strength(e[p])),
    ensures
        has_conflict(),
{
    let c = combos(0, 5);
    let a = choose|a: int| 0 <= a < c.len() && e[j] == entry_of(c[a]);
    let b = choose|b: int| 0 <= b < c.len() && e[p] == entry_of(c[b]);
    lemma_strength_bounds(hand_of(c[a]));
    lemma_entry_parts(c[a]);
    lemma_strength_bounds(hand_of(c[b]));
    lemma_entry_parts(c[b]);
    assert(key_of(c[a]) == key_of(c[b]));
}

/// A table that gives every entry its rank number gives every combination
/// its rank number.
proof fn lemma_table_complete(e: Seq<u128>, ranks: Seq<u32>)
    requires
        holds_all_entries(e),
        entries_bounded(e),
        forall|j: int|
            0 <= j < e.len() ==> ranks[entry_key(#[trigger] e[j])] == dense_rank(
                entry_strength(e[j]),
            ),
    ensures
        forall|m: int|
            0 <= m < combos(0, 5).len() ==> ranks[key_of(#[trigger] combos(0, 5)[m]) as int]
                == dense_rank(strength_of(combos(0, 5)[m])),
{
    let c = combos(0, 5);
    assert forall|m: int| 0 <= m < c.len() implies ranks[key_of(#[trigger] c[m]) as int]
        == dense_rank(strength_of(c[m])) by {
        assert(e.contains(entry_of(c[m])));
        let j = choose|j: int| 0 <= j < e.len() && e[j] == entry_of(c[m]);
        lemma_strength_bounds(hand_of(c[m]));
        lemma_entry_parts(c[m]);
    }
}

/// A complete table rules out conflicts.
proof fn lemma_no_conflict_if_complete()
    ensures
        forall|t: LookupTable| #[trigger] t.wf() ==> !has_conflict(),
{
    assert forall|t: LookupTable| #[trigger] t.wf() implies !has_conflict() by {
        if has_conflict() {
            let c = combos(0, 5);
            let (a, b) = choose|a: int, b: int|
                0 <= a < c.len() && 0 <= b < c.len() && key_of(#[trigger] c[a]) == key_of(
                    #[trigger] c[b],
                ) && dense_rank(strength_of(c[a])) != dense_rank(strength_of(c[b]));
            assert(t.ranks@[key_of(c[a]) as int] == dense_rank(strength_of(c[a])));
            assert(t.ranks@[key_of(c[b]) as int] == dense_rank(strength_of(c[b])));
        }
    }
}

/// A hand of five distinct cards, put in ascending order of deck position,
/// is a combination of the deck: one with the hand's key and strength.
proof fn lemma_hand_combination(h: Hand, p: Seq<usize>) -> (t: Seq<int>)
    requires
        p.len() == 5,
        forall|i: int| 0 <= i < 5 ==> #[trigger] p[i] < 5,
        forall|i: int, j: int| 0 <= i < j < 5 ==> p[i] != p[j],
        forall|i: int, j: int|
            0 <= i < j < 5 ==> h.cards@[p[i] as int].index() < h.cards@[p[j] as int].index(),
    ensures
        combos(0, 5).contains(t),
        key_of(t) == h.cards@[p[0] as int].code() ^ h.cards@[p[1] as int].code() ^ h.cards@[p[2] as int].code()
            ^ h.cards@[p[3] as int].code() ^ h.cards@[p[4] as int].code(),
        strength_of(t) == h.strength(),
{
    let t = Seq::new(5, |i: int| h.cards@[p[i] as int].index());
    assert forall|i: int| 0 <= i < 5 implies 0 <= #[trigger] t[i] < 52 by {
        crate::card::lemma_card_at_index(h.cards@[p[i] as int]);
    }
    lemma_combos_complete(0, 5, t);
    assert forall|i: int| 0 <= i < 5 implies #[trigger] card_at(t[i]) == h.cards@[p[i] as int] by {
        crate::card::lemma_card_at_index(h.cards@[p[i] as int]);
    }
    let o = hand_of(t);
    assert(o.cards@[0] == card_at(t[0]));
    assert(o.cards@[1] == card_at(t[1]));
    assert(o.cards@[2] == card_at(t[2]));
    assert(o.cards@[3] == card_at(t[3]));
    assert(o.cards@[4] == card_at(t[4]));
    let ps = Seq::new(5, |i: int| p[i] as int);
    assert(is_rearrangement(h, o, ps));
    lemma_classify_rearranged(h, o, ps);
    t
}

/// Why the table could not be built.
#[derive(Copy, Clone, PartialEq, Eq, Structural, Debug)]
pub enum TableError {
    /// Two combinations of different strength share a key.
    Collision,
}

/// The rank number of every five-card combination, at the XOR of its
/// cards' codes. Entries that no combination reaches hold 0.
pub struct LookupTable {
    ranks: Vec<u32>,
    classes: u32,
}

impl LookupTable {
    /// The table is complete: every combination finds its rank number at
    /// its key.
    pub closed spec fn wf(self) -> bool {
        &&& self.ranks@.len() == TABLE_SIZE
        &&& self.classes == strength_classes().len()
        &&& forall|m: int|
            0 <= m < combos(0, 5).len() ==> self.ranks@[key_of(#[trigger] combos(0, 5)[m]) as int]
                == dense_rank(strength_of(combos(0, 5)[m]))
    }

    /// Enumerates every combination, orders them by strength, gives each
    /// its rank number (1 for the strongest, one more for each weaker
    /// class) and stores it at the combination's key. Fails when two
    /// combinations with different rank numbers share a key.
    pub fn build() -> (r: Result<LookupTable, TableError>)
        ensures
            r is Ok <==> !has_conflict(),
            r matches Ok(t) ==> t.wf(),
    {
        let entries = enumerate_hands();
        let ghost orig = entries@;
        let mut e = entries;
        sort_entries(&mut e);
        proof {
            lemma_sorted_entries(orig, e@);
            lemma_suffix_classes(e@, e@.len() as int);
            lemma_no_conflict_if_complete();
        }
        let n = e.len();
        let mut table: Vec<u32> = vec![0u32; TABLE_SIZE];
        let mut rank: u32 = 0;
        let mut i: usize = n;
        while i > 0
            invariant
                i <= n,
                n == e@.len(),
                n == 2598960,
                is_sorted(e@),
                holds_all_entries(e@),
                entries_bounded(e@),
                strength_classes() == suffix_classes(e@, 0),
                rank == suffix_classes(e@, i as int).len(),
                rank <= n - i,
                table@.len() == TABLE_SIZE,
                forall|j: int|
                    i <= j < n ==> table@[entry_key(#[trigger] e@[j])] == dense_rank(
                        entry_strength(e@[j]),
                    ) && dense_rank(entry_strength(e@[j])) >= 1,
                forall|k: int|
                    0 <= k < TABLE_SIZE && #[trigger] table@[k] != 0 ==> exists|j: int|
                        i <= j < n && entry_key(#[trigger] e@[j]) == k,
            decreases i,
        {
            let p = i - 1;
            let x = e[p];
            let fresh = i == n || x / 0x800_0000 != e[i] / 0x800_0000;
            proof {
                lemma_rank_step(e@, p as int);
                lemma_suffix_classes(e@, p as int);
            }
            if fresh {
                rank = rank + 1;
            }
            let k = (x % 0x800_0000) as usize;
            if table[k] != 0 && table[k] != rank {
                proof {
                    let j = choose|j: int| i <= j < n && entry_key(#[trigger] e@[j]) == k;
                    lemma_conflict(e@, j, p as int);
                }
                return Err(TableError::Collision);
            }
            let ghost before = table@;
            table.set(k, rank);
            proof {
                lemma_table_step(e@, i as int, before, table@, rank);
            }
            i = p;
        }
        let t = LookupTable { ranks: table, classes: rank };
        proof {
            lemma_table_complete(e@, t.ranks@);
        }
        Ok(t)
    }

    /// The rank number of a hand of five distinct cards, read from the
    /// table at the XOR of the cards' codes.
    pub fn evaluate(&self, hand: &Hand) -> (r: u32)
        requires
            self.wf(),
            !hand.has_repeats(),
        ensures
            r == dense_rank(hand.strength()),
    {
        let key = hand.to_int();
        proof {
            let p = lemma_deck_order(*hand);
            let t = lemma_hand_combination(*hand, p);
            lemma_key_any_order(*hand, p);
            let c = combos(0, 5);
            let m = choose|m: int| 0 <= m < c.len() && c[m] == t;
            assert(self.ranks@[key_of(c[m]) as int] == dense_rank(strength_of(c[m])));
        }
        self.ranks[key]
    }

    /// How many strength classes the table ranks: its largest rank number.
    pub fn classes(&self) -> (r: u32)
        requires
            self.wf(),
        ensures
            r == strength_classes().len(),
    {
        self.classes
    }
}

/// The 52 cards: clubs two to ace, then diamonds, hearts and spades.
pub fn deck() -> (r: Vec<Card>)
    ensures
        r@.len() == 52,
        forall|i: int| 0 <= i < 52 ==> #[trigger] r@[i] == card_at(i),
{
    let suits = Suit::iterator();
    let ranks = Rank::iterator();
    let mut r: Vec<Card> = Vec::new();
    let mut a: usize = 0;
    while a < 4
        invariant
            a <= 4,
            suits@ == seq![Suit::CLUBS, Suit::DIAMONDS, Suit::HEARTS, Suit::SPADES],
            ranks@.len() == 13,
            forall|k: int| 0 <= k < 13 ==> #[trigger] ranks@[k] == crate::card::rank_at(k),
            r@.len() == a * 13,
            forall|i: int| 0 <= i < a * 13 ==> #[trigger] r@[i] == card_at(i),
        decreases 4 - a,
    {
        let mut b: usize = 0;
        while b < 13
            invariant
                a < 4,
                b <= 13,
                suits@ == seq![Suit::CLUBS, Suit::DIAMONDS, Suit::HEARTS, Suit::SPADES],
                ranks@.len() == 13,
                forall|k: int| 0 <= k < 13 ==> #[trigger] ranks@[k] == crate::card::rank_at(k),
                r@.len() == a * 13 + b,
                forall|i: int| 0 <= i < a * 13 + b ==> #[trigger] r@[i] == card_at(i),
            decreases 13 - b,
        {
            r.push(Card { rank: ranks[b], suit: suits[a] });
            proof {
                let i = a * 13 + b;
                assert(i / 13 == a as int && i % 13 == b as int) by (nonlinear_arith)
                    requires
                        i == a * 13 + b,
                        0 <= b < 13,
                        0 <= a,
                ;
                assert(r@[i as int] == card_at(i as int));
            }
            b = b + 1;
        }
        a = a + 1;
    }
    r
}

/// Distinct cards of a hand lie at distinct deck positions.
proof fn lemma_distinct_positions(h: Hand)
    requires
        !h.has_repeats(),
    ensures
        forall|a: int, b: int|
            0 <= a < 5 && 0 <= b < 5 && a != b ==> h.cards@[a].index() != h.cards@[b].index(),
{
    assert forall|a: int, b: int| 0 <= a < 5 && 0 <= b < 5 && a != b implies h.cards@[a].index()
        != h.cards@[b].index() by {
        crate::card::lemma_card_at_index(h.cards@[a]);
        crate::card::lemma_card_at_index(h.cards@[b]);
        if h.cards@[a].index() == h.cards@[b].index() {
            if a < b {
                assert(h.cards@[a] == h.cards@[b]);
            } else {
                assert(h.cards@[b] == h.cards@[a]);
            }
        }
    }
}

/// The XOR of `x` at the positions `s`, in the order of `s`.
spec fn xor_along(x: Seq<u32>, s: Seq<int>) -> u32
    decreases s.len(),
{
    if s.len() == 0 {
        0
    } else {
        xor_along(x, s.drop_last()) ^ x[s.last()]
    }
}

/// The XOR of `x` at the positions below `n` that `s` holds, in ascending
/// order of position.
spec fn xor_over(x: Seq<u32>, s: Seq<int>, n: int) -> u32
    decreases n,
{
    if n <= 0 {
        0
    } else {
        xor_over(x, s, n - 1) ^ (if s.contains(n - 1) {
            x[n - 1]
        } else {
            0
        })
    }
}

proof fn lemma_xor_zero(a: u32)
    ensures
        a ^ 0 == a,
        0 ^ a == a,
{
    assert(a ^ 0 == a && 0 ^ a == a) by (bit_vector);
}

proof fn lemma_xor_swap(a: u32, b: u32, c: u32)
    ensures
        (a ^ b) ^ c == (a ^ c) ^ b,
{
    assert((a ^ b) ^ c == (a ^ c) ^ b) by (bit_vector);
}

proof fn lemma_xor_over_push(x: Seq<u32>, s: Seq<int>, y: int, n: int)
    requires
        !s.contains(y),
        0 <= y,
    ensures
        xor_over(x, s.push(y), n) == (if y < n {
            xor_over(x, s, n) ^ x[y]
        } else {
            xor_over(x, s, n)
        }),
    decreases n,
{
    if n > 0 {
        lemma_xor_over_push(x, s, y, n - 1);
        let m = n - 1;
        assert(s.push(y).contains(m) <==> (s.contains(m) || m == y)) by {
            if s.push(y).contains(m) {
                let k = choose|k: int| 0 <= k < s.push(y).len() && s.push(y)[k] == m;
                if k < s.len() {
                    assert(s[k] == m);
                }
            }
            if s.contains(m) {
                let k = choose|k: int| 0 <= k < s.len() && s[k] == m;
                assert(s.push(y)[k] == m);
            }
            if m == y {
                assert(s.push(y)[s.len() as int] == m);
            }
        }
        let a = xor_over(x, s, m);
        let t = if s.contains(m) { x[m] } else { 0u32 };
        if m == y {
            lemma_xor_zero(a);
        } else if y < m {
            lemma_xor_swap(a, x[y], t);
        }
    } else {
        assert(y >= n);
    }
}

proof fn lemma_xor_along_over(x: Seq<u32>, s: Seq<int>, n: int)
    requires
        s.no_duplicates(),
        forall|i: int| 0 <= i < s.len() ==> 0 <= #[trigger] s[i] < n,
    ensures
        xor_along(x, s) == xor_over(x, s, n),
    decreases s.len(),
{
    if s.len() == 0 {
        lemma_xor_over_empty(x, s, n);
    } else {
        let f = s.drop_last();
        assert(f.no_duplicates());
        lemma_xor_along_over(x, f, n);
        assert(!f.contains(s.last()));
        assert(f.push(s.last()) =~= s);
        lemma_xor_over_push(x, f, s.last(), n);
    }
}

proof fn lemma_xor_over_empty(x: Seq<u32>, s: Seq<int>, n: int)
    requires
        s.len() == 0,
    ensures
        xor_over(x, s, n) == 0,
    decreases n,
{
    if n > 0 {
        lemma_xor_over_empty(x, s, n - 1);
        lemma_xor_zero(0);
    }
}

proof fn lemma_xor_over_same(x: Seq<u32>, s1: Seq<int>, s2: Seq<int>, n: int)
    requires
        forall|i: int| 0 <= i < n ==> (s1.contains(i) <==> s2.contains(i)),
    ensures
        xor_over(x, s1, n) == xor_over(x, s2, n),
    decreases n,
{
    if n > 0 {
        lemma_xor_over_same(x, s1, s2, n - 1);
        assert(s1.contains(n - 1) <==> s2.contains(n - 1));
    }
}

/// The XOR of a hand's codes does not depend on the order of its cards:
/// taken in the order `p`, it is the hand's key.
proof fn lemma_key_any_order(h: Hand, p: Seq<usize>)
    requires
        p.len() == 5,
        forall|i: int| 0 <= i < 5 ==> #[trigger] p[i] < 5,
        forall|i: int, j: int| 0 <= i < j < 5 ==> p[i] != p[j],
    ensures
        h.cards@[p[0] as int].code() ^ h.cards@[p[1] as int].code() ^ h.cards@[p[2] as int].code()
            ^ h.cards@[p[3] as int].code() ^ h.cards@[p[4] as int].code() == h.cards@[0].code()
            ^ h.cards@[1].code() ^ h.cards@[2].code() ^ h.cards@[3].code() ^ h.cards@[4].code(),
{
    let x = Seq::new(5, |i: int| h.cards@[i].code());
    let id = seq![0int, 1, 2, 3, 4];
    let ps = seq![p[0] as int, p[1] as int, p[2] as int, p[3] as int, p[4] as int];
    assert forall|i: int| 0 <= i < 5 implies (id.contains(i) <==> ps.contains(i)) by {
        assert(id[i] == i);
        let k = choose_preimage(ps, i);
        assert(ps[k] == i);
    }
    lemma_xor_over_same(x, id, ps, 5);
    lemma_xor_along_over(x, id, 5);
    lemma_xor_along_over(x, ps, 5);
    lemma_xor_zero(x[0]);
    lemma_xor_zero(x[p[0] as int]);
    assert(id.drop_last().drop_last().drop_last().drop_last() =~= seq![0int]);
    assert(id.drop_last().drop_last().drop_last() =~= seq![0int, 1]);
    assert(id.drop_last().drop_last() =~= seq![0int, 1, 2]);
    assert(id.drop_last() =~= seq![0int, 1, 2, 3]);
    assert(seq![0int].drop_last() =~= Seq::<int>::empty());
    assert(ps.drop_last().drop_last().drop_last().drop_last() =~= seq![ps[0]]);
    assert(ps.drop_last().drop_last().drop_last() =~= seq![ps[0], ps[1]]);
    assert(ps.drop_last().drop_last() =~= seq![ps[0], ps[1], ps[2]]);
    assert(ps.drop_last() =~= seq![ps[0], ps[1], ps[2], ps[3]]);
    assert(seq![ps[0]].drop_last() =~= Seq::<int>::empty());
    reveal_with_fuel(xor_along, 6);
}

/// How many of the hand's cards lie before the card at position `j` in
/// the deck: the place of that card once the hand is put in deck order.
spec fn place(h: Hand, j: int) -> int {
    (indicator(h.cards@[0].index() < h.cards@[j].index()) + indicator(
        h.cards@[1].index() < h.cards@[j].index(),
    ) + indicator(h.cards@[2].index() < h.cards@[j].index()) + indicator(
        h.cards@[3].index() < h.cards@[j].index(),
    ) + indicator(h.cards@[4].index() < h.cards@[j].index())) as int
}

proof fn lemma_place(h: Hand, a: int, b: int)
    requires
        0 <= a < 5,
        0 <= b < 5,
        h.cards@[a].index() < h.cards@[b].index(),
    ensures
        place(h, a) < place(h, b),
{
}

proof fn lemma_place_bound(h: Hand, a: int)
    requires
        0 <= a < 5,
    ensures
        0 <= place(h, a) < 5,
{
}

/// The positions of a hand of distinct cards, in ascending deck order.
proof fn lemma_deck_order(h: Hand) -> (p: Seq<usize>)
    requires
        !h.has_repeats(),
    ensures
        p.len() == 5,
        forall|i: int| 0 <= i < 5 ==> #[trigger] p[i] < 5,
        forall|i: int, j: int| 0 <= i < j < 5 ==> p[i] != p[j],
        forall|i: int, j: int|
            0 <= i < j < 5 ==> h.cards@[p[i] as int].index() < h.cards@[p[j] as int].index(),
{
    lemma_distinct_positions(h);
    let q = Seq::new(5, |j: int| place(h, j));
    assert forall|j: int| 0 <= j < 5 implies 0 <= #[trigger] q[j] < 5 by {
        lemma_place_bound(h, j);
    }
    assert forall|a: int, b: int| 0 <= a < b < 5 implies q[a] != q[b] by {
        if h.cards@[a].index() < h.cards@[b].index() {
            lemma_place(h, a, b);
        } else {
            lemma_place(h, b, a);
        }
    }
    let k0 = choose_preimage(q, 0);
    let k1 = choose_preimage(q, 1);
    let k2 = choose_preimage(q, 2);
    let k3 = choose_preimage(q, 3);
    let k4 = choose_preimage(q, 4);
    let p = seq![k0 as usize, k1 as usize, k2 as usize, k3 as usize, k4 as usize];
    assert forall|i: int| 0 <= i < 5 implies #[trigger] p[i] < 5 && q[p[i] as int] == i by {}
    assert forall|i: int, j: int| 0 <= i < j < 5 implies h.cards@[p[i] as int].index()
        < h.cards@[p[j] as int].index() by {
        assert(q[p[i] as int] == i && q[p[j] as int] == j);
        if h.cards@[p[j] as int].index() < h.cards@[p[i] as int].index() {
            lemma_place(h, p[j] as int, p[i] as int);
        }
    }
    p
}

/// The strength of a hand of five distinct cards is one of the strength
/// classes.
pub proof fn lemma_strength_is_class(h: Hand)
    requires
        !h.has_repeats(),
    ensures
        strength_classes().contains(h.strength()),
        dense_rank(h.strength()) >= 1,
{
    let p = lemma_deck_order(h);
    let t = lemma_hand_combination(h, p);
    let c = combos(0, 5);
    let m = choose|m: int| 0 <= m < c.len() && c[m] == t;
    let strengths = c.map_values(|u: Seq<int>| strength_of(u));
    assert(strengths[m] == h.strength());
    vstd::seq_lib::seq_to_set_is_finite(strengths);
    strength_classes().lemma_len_filter(|x: int| x >= h.strength());
    assert(strength_classes().filter(|x: int| x >= h.strength()).contains(h.strength()));
    vstd::set::axiom_set_contains_len(
        strength_classes().filter(|x: int| x >= h.strength()),
        h.strength(),
    );
}

proof fn lemma_dense_rank_order(s1: int, s2: int)
    requires
        strength_classes().contains(s1),
        strength_classes().contains(s2),
        s1 > s2,
    ensures
        dense_rank(s1) < dense_rank(s2),
{
    let c = combos(0, 5);
    vstd::seq_lib::seq_to_set_is_finite(c.map_values(|u: Seq<int>| strength_of(u)));
    let f1 = strength_classes().filter(|x: int| x >= s1);
    let f2 = strength_classes().filter(|x: int| x >= s2);
    strength_classes().lemma_len_filter(|x: int| x >= s1);
    strength_classes().lemma_len_filter(|x: int| x >= s2);
    assert(!f1.contains(s2));
    vstd::set::axiom_set_insert_len(f1, s2);
    assert(f1.insert(s2).subset_of(f2));
    vstd::set_lib::lemma_len_subset(f1.insert(s2), f2);
}

/// The fast path agrees with the reference comparator: of two hands of
/// five distinct cards, the stronger one has the smaller rank number, and
/// hands of equal strength share their rank number.
pub proof fn lemma_rank_agrees_with_compare(h1: Hand, h2: Hand)
    requires
        !h1.has_repeats(),
        !h2.has_repeats(),
    ensures
        compare_hands(h1, h2) == Ordering::Greater ==> dense_rank(h1.strength()) < dense_rank(
            h2.strength(),
        ),
        compare_hands(h1, h2) == Ordering::Less ==> dense_rank(h1.strength()) > dense_rank(
            h2.strength(),
        ),
        compare_hands(h1, h2) == Ordering::Equal ==> dense_rank(h1.strength()) == dense_rank(
            h2.strength(),
        ),
{
    lemma_strength_is_class(h1);
    lemma_strength_is_class(h2);
    if h1.strength() > h2.strength() {
        lemma_dense_rank_order(h1.strength(), h2.strength());
    } else if h1.strength() < h2.strength() {
        lemma_dense_rank_order(h2.strength(), h1.strength());
    }
}

/// The position of a smallest value of a non-empty sequence.
proof fn lemma_min_position(s: Seq<int>) -> (m: int)
    requires
        s.len() > 0,
    ensures
        0 <= m < s.len(),
        forall|i: int| 0 <= i < s.len() ==> s[m] <= #[trigger] s[i],
    decreases s.len(),
{
    if s.len() == 1 {
        0
    } else {
        let m = lemma_min_position(s.drop_last());
        assert(forall|i: int| 0 <= i < s.len() - 1 ==> s.drop_last()[i] == s[i]);
        if s.last() < s[m] {
            (s.len() - 1) as int
        } else {
            m
        }
    }
}

/// The enumeration lists each of the deck's 2,598,960 five-card
/// combinations exactly once; every rank number lies between 1 and the
/// number of strength classes, and the weakest combinations reach that
/// number.
pub proof fn lemma_enumeration_complete()
    ensures
        combos(0, 5).len() == 2598960,
        combos(0, 5).no_duplicates(),
        forall|t: Seq<int>| is_combination(t, 0, 5) <==> #[trigger] combos(0, 5).contains(t),
        forall|m: int|
            0 <= m < combos(0, 5).len() ==> 1 <= #[trigger] dense_rank(
                strength_of(combos(0, 5)[m]),
            ) <= strength_classes().len(),
        exists|m: int|
            0 <= m < combos(0, 5).len() && #[trigger] dense_rank(strength_of(combos(0, 5)[m]))
                == strength_classes().len(),
{
    let c = combos(0, 5);
    lemma_combination_count();
    lemma_combos_distinct(0, 5);
    lemma_combos_shape(0, 5);
    assert forall|t: Seq<int>| is_combination(t, 0, 5) <==> #[trigger] c.contains(t) by {
        if is_combination(t, 0, 5) {
            lemma_combos_complete(0, 5, t);
        }
    }
    let strengths = c.map_values(|u: Seq<int>| strength_of(u));
    vstd::seq_lib::seq_to_set_is_finite(strengths);
    assert forall|m: int| 0 <= m < c.len() implies 1 <= #[trigger] dense_rank(strength_of(c[m]))
        <= strength_classes().len() by {
        let s = strength_of(c[m]);
        assert(strengths[m] == s);
        strength_classes().lemma_len_filter(|x: int| x >= s);
        assert(strength_classes().filter(|x: int| x >= s).contains(s));
        vstd::set::axiom_set_contains_len(strength_classes().filter(|x: int| x >= s), s);
    }
    let m = lemma_min_position(strengths);
    let low = strengths[m];
    assert(strength_classes().filter(|x: int| x >= low) =~= strength_classes());
    assert(dense_rank(strength_of(c[m])) == strength_classes().len());
}

/// In a built table, two hands of five distinct cards with the same key
/// are of equal strength: each entry of the table has one rank number.
pub proof fn lemma_equal_keys_equal_strength(t: LookupTable, h1: Hand, h2: Hand)
    requires
        t.wf(),
        !h1.has_repeats(),
        !h2.has_repeats(),
        h1.key() == h2.key(),
    ensures
        h1.strength() == h2.strength(),
        compare_hands(h1, h2) == Ordering::Equal,
{
    let c = combos(0, 5);
    let p1 = lemma_deck_order(h1);
    let t1 = lemma_hand_combination(h1, p1);
    lemma_key_any_order(h1, p1);
    let m1 = choose|m: int| 0 <= m < c.len() && c[m] == t1;
    assert(t.ranks@[key_of(c[m1]) as int] == dense_rank(strength_of(c[m1])));
    let p2 = lemma_deck_order(h2);
    let t2 = lemma_hand_combination(h2, p2);
    lemma_key_any_order(h2, p2);
    let m2 = choose|m: int| 0 <= m < c.len() && c[m] == t2;
    assert(t.ranks@[key_of(c[m2]) as int] == dense_rank(strength_of(c[m2])));
    assert(dense_rank(h1.strength()) == dense_rank(h2.strength()));
    lemma_strength_is_class(h1);
    lemma_strength_is_class(h2);
    if h1.strength() > h2.strength() {
        lemma_dense_rank_order(h1.strength(), h2.strength());
    } else if h1.strength() < h2.strength() {
        lemma_dense_rank_order(h2.strength(), h1.strength());
    }
}

} // verus!
