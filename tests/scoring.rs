use poker::card::Card;
use poker::hands::{get_groupings_and_score, get_hand_type_level_and_score, straight_score, suits_match, Hand, HandType};

fn cards(text: &str) -> Vec<Card> {
    text.split_whitespace().map(|t| Card::from_str(t).unwrap()).collect()
}

fn hand(text: &str) -> Hand {
    Hand::new(cards(text))
}

#[test]
fn wheel_straight_flush_scores_one_and_loses_to_six_high() {
    let wheel = hand("2h 3h 4h 5h Ah");
    let six_high = hand("2h 3h 4h 5h 6h");
    let king_high = hand("9h Th Jh Qh Kh");
    assert_eq!(wheel.hand_type, HandType::StraightFlush);
    assert_eq!(wheel.score, 1);
    assert_eq!(wheel.level, 9);
    assert_eq!(six_high.score, 2);
    assert_eq!(king_high.score, 9);
    assert!(six_high > wheel);
    assert!(king_high > six_high);
    assert!(six_high.beats(&wheel));
}

#[test]
fn quads_kicker_decides() {
    let king_kicker = hand("Jc Jd Jh Js Kd");
    let queen_kicker = hand("Jc Jd Jh Js Qd");
    assert!(king_kicker > queen_kicker);
    let same = hand("Jc Jd Jh Js Kh");
    assert!(king_kicker == same);
    assert!(king_kicker.ties(&same));
    assert!(!king_kicker.beats(&same));
}

#[test]
fn two_pair_kicker_decides() {
    let high = hand("Ac Ad 3c 3d Kh");
    let low = hand("Ac Ad 3c 3d 2h");
    assert!(high > low);
    assert!(low < high);
}

#[test]
fn group_score_is_base_sixteen_of_arranged_ranks() {
    let two_pair = hand("As 3c Ah Kd 3h");
    assert_eq!(two_pair.score, 14 * 65536 + 14 * 4096 + 3 * 256 + 3 * 16 + 13);
    assert_eq!(two_pair.level, 3);
    let quads = hand("Jh Jd Js Jc Kd");
    assert_eq!(quads.score, 11 * 65536 + 11 * 4096 + 11 * 256 + 11 * 16 + 13);
    let high = hand("2s Qh 7c Kd 8d");
    assert_eq!(high.score, 13 * 65536 + 12 * 4096 + 8 * 256 + 7 * 16 + 2);
    assert_eq!(high.level, 1);
    let full = hand("3h 2s 3c 2c 3d");
    assert_eq!(full.score, 3 * 65536 + 3 * 4096 + 3 * 256 + 2 * 16 + 2);
}

#[test]
fn groupings_report_sizes_largest_first() {
    assert_eq!(get_groupings_and_score(&cards("Jh Jd Js Jc 7d")).0, vec![4, 1]);
    assert_eq!(get_groupings_and_score(&cards("3h 2s 3c 2c 3d")).0, vec![3, 2]);
    assert_eq!(get_groupings_and_score(&cards("2s 2d 3h Qs 2c")).0, vec![3, 1, 1]);
    assert_eq!(get_groupings_and_score(&cards("As 3c Ah Kd 3h")).0, vec![2, 2, 1]);
    assert_eq!(get_groupings_and_score(&cards("As Kc 7s Kd 9d")).0, vec![2, 1, 1, 1]);
    assert_eq!(get_groupings_and_score(&cards("2s Qh 7c Kd 8d")).0, vec![1, 1, 1, 1, 1]);
}

#[test]
fn straight_scores_its_lowest_rank() {
    assert_eq!(straight_score(&cards("8d 7h 9d 6s Th")), Some(6));
    assert_eq!(straight_score(&cards("5d 2s Ah 3d 4c")), Some(1));
    assert_eq!(straight_score(&cards("Ad Ks Qh Jd Tc")), Some(10));
    assert_eq!(straight_score(&cards("Kd As 2h 3d 4c")), None);
    assert_eq!(straight_score(&cards("8d 8h 9d 6s Th")), None);
    let s = hand("8d 7h 9d 6s Th");
    assert_eq!((s.level, s.score), (5, 6));
}

#[test]
fn same_suit_needs_all_five() {
    assert!(suits_match(&cards("3h 2h 4h 5h 7h")));
    assert!(!suits_match(&cards("3h 2h 4h 5h 7d")));
}

#[test]
fn flush_beats_straight_and_full_house_beats_flush() {
    let flush = hand("3h 2h 4h 5h 7h");
    let straight = hand("8d 7h 9d 6s Th");
    let full = hand("3h 2s 3c 2c 3d");
    assert!(flush > straight);
    assert!(full > flush);
    assert_eq!(get_hand_type_level_and_score(&cards("3h 2h 4h 5h 7h")).1, 6);
}

#[test]
fn ordering_is_total_on_examples() {
    let hands = [
        hand("2h 3h 4h 5h Ah"),
        hand("Jc Jd Jh Js Kd"),
        hand("3h 2s 3c 2c 3d"),
        hand("Ks Js Ts 7s 5s"),
        hand("8d 7h 9d 6s Th"),
        hand("2s 2d 3h Qs 2c"),
        hand("Ac Ad 3c 3d Kh"),
        hand("As Kc 7s Kd 9d"),
        hand("2s Qh 7c Kd 8d"),
    ];
    for a in hands.iter() {
        for b in hands.iter() {
            let n = [a > b, a == b, a < b].iter().filter(|x| **x).count();
            assert_eq!(n, 1);
        }
    }
    for w in hands.windows(2) {
        assert!(w[0] > w[1]);
    }
}

#[test]
fn cards_text_lists_tokens() {
    let h = hand("As 3c Ah Kd 3h");
    assert_eq!(h.cards_text(), "As 3c Ah Kd 3h ");
}
