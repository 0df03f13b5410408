use yacht::scoring::{
    chance, count, full_house, large_straight, small_straight, standard_rules, x_of_a_kind, yacht, Scorer,
    ScoringRule,
};

#[test]
fn chance_totals_all_dice() {
    assert_eq!(chance(&[1, 2, 3, 4, 5]), 15);
    assert_eq!(chance(&[6, 6, 6, 6, 6]), 30);
    assert_eq!(chance(&[]), 0);
}

#[test]
fn count_scores_one_face() {
    assert_eq!(count(&[1, 1, 2, 3, 1], 1), 3);
    assert_eq!(count(&[2, 2, 4, 2, 6], 2), 6);
    assert_eq!(count(&[1, 2, 3, 4, 5], 6), 0);
    assert_eq!(count(&[6, 6, 6, 6, 6], 6), 30);
    assert_eq!(count(&[], 3), 0);
}

#[test]
fn full_house_scores_the_total() {
    assert_eq!(full_house(&[2, 2, 3, 3, 3]), 13);
    assert_eq!(full_house(&[2, 2, 2, 3, 3]), 12);
    assert_eq!(full_house(&[5, 5, 6, 6, 6]), 28);
    assert_eq!(full_house(&[6, 5, 6, 5, 6]), 28);
}

#[test]
fn full_house_needs_two_faces_with_the_lower_twice_or_thrice() {
    assert_eq!(full_house(&[2, 2, 2, 2, 3]), 0);
    assert_eq!(full_house(&[2, 3, 3, 3, 3]), 0);
    assert_eq!(full_house(&[4, 4, 4, 4, 4]), 0);
    assert_eq!(full_house(&[1, 2, 3, 4, 5]), 0);
    assert_eq!(full_house(&[1, 1, 2, 2, 3]), 0);
    assert_eq!(full_house(&[]), 0);
}

#[test]
fn x_of_a_kind_scores_the_best_face() {
    assert_eq!(x_of_a_kind(&[2, 2, 2, 5, 6], 3), 6);
    assert_eq!(x_of_a_kind(&[2, 2, 2, 5, 6], 4), 0);
    assert_eq!(x_of_a_kind(&[6, 6, 6, 6, 1], 3), 24);
    assert_eq!(x_of_a_kind(&[6, 6, 6, 6, 1], 4), 24);
    assert_eq!(x_of_a_kind(&[3, 3, 3, 5, 5], 2), 10);
    assert_eq!(x_of_a_kind(&[1, 2, 3, 4, 6], 1), 6);
    assert_eq!(x_of_a_kind(&[], 3), 0);
}

#[test]
fn small_straight_needs_a_run_of_exactly_four() {
    assert_eq!(small_straight(&[1, 2, 3, 4, 6]), 30);
    assert_eq!(small_straight(&[1, 3, 4, 5, 6]), 30);
    assert_eq!(small_straight(&[1, 2, 3, 4, 5]), 0);
    assert_eq!(small_straight(&[1, 2, 2, 3, 4]), 0);
    assert_eq!(small_straight(&[4, 3, 2, 1, 6]), 0);
}

#[test]
fn large_straight_needs_a_run_of_five() {
    assert_eq!(large_straight(&[1, 2, 3, 4, 5]), 40);
    assert_eq!(large_straight(&[2, 3, 4, 5, 6]), 40);
    assert_eq!(large_straight(&[1, 2, 3, 4, 6]), 0);
    assert_eq!(large_straight(&[]), 0);
}

#[test]
fn run_starting_at_zero_counts_from_one() {
    assert_eq!(small_straight(&[0, 1, 2, 3]), 30);
    assert_eq!(large_straight(&[0, 1, 2, 3, 4]), 40);
}

#[test]
fn yacht_needs_five_of_the_first_face() {
    assert_eq!(yacht(&[4, 4, 4, 4, 4]), 50);
    assert_eq!(yacht(&[4, 4, 4, 4, 3]), 0);
    assert_eq!(yacht(&[3, 4, 4, 4, 4]), 0);
    assert_eq!(yacht(&[2, 2, 2, 2, 2, 2]), 0);
    assert_eq!(yacht(&[1, 2, 1, 1, 1, 1]), 50);
}

#[test]
fn rule_evaluates_with_its_scorer() {
    let rule = ScoringRule::new("Twos".to_string(), Scorer::Count(2), 10);
    assert_eq!(rule.name(), "Twos");
    assert_eq!(rule.eval(&[2, 2, 3, 4, 2]), 6);
    let copy = rule.clone();
    assert_eq!(copy.name(), "Twos");
    assert_eq!(copy.eval(&[2, 1, 1, 1, 1]), 2);
}

#[test]
fn standard_rules_cover_the_score_sheet() {
    let rules = standard_rules();
    let names: Vec<String> = rules.iter().map(|r| r.name()).collect();
    assert_eq!(
        names,
        vec![
            "Ones", "Twos", "Threes", "Fours", "Fives", "Sixes", "Chance", "3-of-a-Kind", "4-of-a-Kind",
            "Full House", "Small Straight", "Large Straight", "Yacht"
        ]
    );
    let dice = [1, 2, 3, 4, 5];
    let scored: Vec<u32> = rules.iter().map(|r| r.eval(&dice)).collect();
    assert_eq!(scored, vec![1, 2, 3, 4, 5, 0, 15, 0, 0, 0, 0, 40, 0]);
    let dice = [3, 3, 3, 6, 6];
    let scored: Vec<u32> = rules.iter().map(|r| r.eval(&dice)).collect();
    assert_eq!(scored, vec![0, 0, 9, 0, 0, 12, 21, 9, 0, 21, 0, 0, 0]);
}

#[test]
fn upper_section_adds_up_to_chance() {
    for dice in [[1, 2, 3, 4, 5], [6, 6, 6, 6, 6], [2, 5, 2, 1, 3], [4, 4, 1, 1, 6]] {
        let upper: u32 = (1..=6).map(|v| count(&dice, v)).sum();
        assert_eq!(upper, chance(&dice));
    }
}

#[test]
fn more_of_a_kind_never_scores_more() {
    for dice in [[6, 6, 6, 6, 1], [2, 2, 2, 5, 6], [3, 3, 4, 4, 4], [5, 5, 5, 5, 5]] {
        for x in 0..6 {
            assert!(x_of_a_kind(&dice, x + 1) <= x_of_a_kind(&dice, x));
            assert!(x_of_a_kind(&dice, x) <= chance(&dice));
        }
    }
}

#[test]
fn full_house_is_nothing_or_chance() {
    for dice in [[2, 2, 3, 3, 3], [1, 2, 3, 4, 5], [6, 6, 6, 1, 1], [4, 4, 4, 4, 4]] {
        let score = full_house(&dice);
        assert!(score == 0 || score == chance(&dice));
    }
}

#[test]
fn straights_exclude_each_other() {
    for dice in [[1, 2, 3, 4, 5], [1, 2, 3, 4, 6], [2, 3, 4, 5, 6], [1, 1, 1, 1, 1]] {
        assert!(small_straight(&dice) == 0 || large_straight(&dice) == 0);
    }
}

#[test]
fn order_of_dice_does_not_matter_outside_straights_and_yacht() {
    let a = [2, 3, 3, 2, 3];
    let b = [3, 3, 3, 2, 2];
    assert_eq!(chance(&a), chance(&b));
    assert_eq!(full_house(&a), full_house(&b));
    for v in 1..=6 {
        assert_eq!(count(&a, v), count(&b, v));
    }
    for x in 0..6 {
        assert_eq!(x_of_a_kind(&a, x), x_of_a_kind(&b, x));
    }
}

#[test]
fn more_of_a_kind_than_dice_scores_nothing() {
    assert_eq!(x_of_a_kind(&[6, 6, 6], 4), 0);
    assert_eq!(x_of_a_kind(&[], 1), 0);
}
