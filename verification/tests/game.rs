use yacht::game::{GameState, PlayerStats, Step, TurnState};
use yacht::scoring::{standard_rules, Scorer, ScoringRule};

fn started_game() -> GameState {
    let mut game = GameState::new(2, &standard_rules());
    game.next_with_roll(vec![3, 1, 4, 1, 5]);
    game
}

#[test]
fn new_player_has_no_scores() {
    let player = PlayerStats::new(3);
    assert_eq!(player.num, 3);
    assert!(player.scores.is_empty());
}

#[test]
fn new_game_waits_for_the_first_roll() {
    let game = GameState::new(2, &standard_rules());
    assert_eq!(game.turn_state(), TurnState::FirstRoll);
    assert_eq!(game.players().len(), 2);
    assert_eq!(game.players()[0].num, 1);
    assert_eq!(game.players()[1].num, 2);
    assert_eq!(game.current_player().num, 1);
    assert!(game.dice().is_empty());
    assert!(game.locked_dice().is_empty());
    assert!(!game.game_over());
    assert_eq!(game.next_step(), Step::Advance);
}

#[test]
fn first_roll_gives_five_free_dice() {
    let game = started_game();
    assert_eq!(game.turn_state(), TurnState::ReRoll(0));
    assert_eq!(game.dice(), &[3, 1, 4, 1, 5]);
    assert!(game.locked_dice().is_empty());
    assert_eq!(game.next_step(), Step::ChooseDice);
}

#[test]
fn random_first_roll_shows_faces_one_to_six() {
    for _ in 0..50 {
        let mut game = GameState::new(1, &standard_rules());
        game.next();
        assert_eq!(game.turn_state(), TurnState::ReRoll(0));
        assert_eq!(game.dice().len(), 5);
        assert!(game.dice().iter().all(|d| (1..=6).contains(d)));
        game.reroll();
        assert_eq!(game.turn_state(), TurnState::ReRoll(1));
        assert_eq!(game.dice().len(), 5);
        assert!(game.dice().iter().all(|d| (1..=6).contains(d)));
    }
}

#[test]
fn lock_moves_dice_to_the_held_ones_in_order() {
    let mut game = started_game();
    game.lock(&[4, 0]);
    assert_eq!(game.locked_dice(), &[3, 5]);
    assert_eq!(game.dice(), &[1, 4, 1]);
    game.lock(&[1]);
    assert_eq!(game.locked_dice(), &[3, 4, 5]);
    assert_eq!(game.dice(), &[1, 1]);
}

#[test]
fn lock_with_a_repeated_position_holds_that_die_twice() {
    let mut game = started_game();
    game.lock(&[2, 2]);
    assert_eq!(game.locked_dice(), &[4, 4]);
    assert_eq!(game.dice(), &[3, 1, 1, 5]);
}

#[test]
fn lock_outside_rerolling_does_nothing() {
    let mut game = GameState::new(2, &standard_rules());
    game.lock(&[0, 1]);
    assert!(game.locked_dice().is_empty());
    assert_eq!(game.turn_state(), TurnState::FirstRoll);
}

#[test]
fn reroll_replaces_only_the_free_dice() {
    let mut game = started_game();
    game.lock(&[0, 2]);
    game.reroll_with_roll(vec![6, 6, 2]);
    assert_eq!(game.turn_state(), TurnState::ReRoll(1));
    assert_eq!(game.locked_dice(), &[3, 4]);
    assert_eq!(game.dice(), &[6, 6, 2]);
    game.reroll_with_roll(vec![1, 2, 3]);
    assert_eq!(game.turn_state(), TurnState::ReRoll(2));
    assert_eq!(game.next_step(), Step::Advance);
}

#[test]
fn reroll_outside_rerolling_does_nothing() {
    let mut game = GameState::new(2, &standard_rules());
    game.reroll();
    assert_eq!(game.turn_state(), TurnState::FirstRoll);
    assert!(game.dice().is_empty());
}

#[test]
fn next_after_rerolling_holds_every_die() {
    let mut game = started_game();
    game.lock(&[1]);
    game.next();
    assert_eq!(game.turn_state(), TurnState::Score);
    assert_eq!(game.locked_dice(), &[1, 1, 3, 4, 5]);
    assert!(game.dice().is_empty());
    assert_eq!(game.next_step(), Step::ChooseScore);
}

#[test]
fn possible_scores_lists_open_categories_with_their_scores() {
    let mut game = started_game();
    game.next();
    let offers = game.possible_scores();
    let listed: Vec<(usize, String, u32)> = offers.iter().map(|(i, r, s)| (*i, r.name(), *s)).collect();
    assert_eq!(listed.len(), 13);
    assert_eq!(listed[0], (0, "Ones".to_string(), 2));
    assert_eq!(listed[6], (6, "Chance".to_string(), 14));
    assert_eq!(listed[10], (10, "Small Straight".to_string(), 0));
    game.pick_score(6);
    let offers = game.possible_scores();
    assert_eq!(offers.len(), 12);
    assert!(offers.iter().all(|(i, _, _)| *i != 6));
}

#[test]
fn pick_score_records_the_offered_score_once() {
    let mut game = started_game();
    game.next();
    let offered = game.possible_scores()[2].2;
    game.pick_score(2);
    assert_eq!(game.current_player().scores.get(&2), Some(&offered));
    assert_eq!(offered, 3);
    game.pick_score(2);
    assert_eq!(game.current_player().scores.len(), 1);
    game.pick_score(99);
    assert_eq!(game.current_player().scores.len(), 1);
    assert_eq!(game.player_total(0), 3);
    assert_eq!(game.player_total(1), 0);
}

#[test]
fn score_passes_the_turn_to_the_next_player() {
    let mut game = started_game();
    game.next();
    game.pick_score(0);
    game.next();
    assert_eq!(game.turn_state(), TurnState::FirstRoll);
    assert_eq!(game.current_player().num, 2);
    game.next_with_roll(vec![6, 6, 6, 6, 6]);
    game.next();
    game.pick_score(12);
    assert_eq!(game.players()[1].scores.get(&12), Some(&50));
    game.next();
    assert_eq!(game.current_player().num, 1);
}

#[test]
fn whole_game_ends_when_every_category_is_scored() {
    let rules = standard_rules();
    let mut game = GameState::new(2, &rules);
    let mut turns = 0;
    while !game.game_over() {
        match game.next_step() {
            Step::Advance => game.next(),
            Step::ChooseDice => {
                game.lock(&[0]);
                game.reroll();
            }
            Step::ChooseScore => {
                let first_open = game.possible_scores()[0].0;
                game.pick_score(first_open);
                game.next();
                turns += 1;
            }
        }
    }
    assert_eq!(turns, 2 * rules.len());
    for player in game.players() {
        assert_eq!(player.scores.len(), rules.len());
    }
    let first = game.player_total(0);
    let second = game.player_total(1);
    let expected = if first >= second { 1 } else { 2 };
    assert_eq!(game.winner(), expected);
}

#[test]
fn winner_is_player_one_on_a_tie() {
    let game = GameState::new(2, &standard_rules());
    assert_eq!(game.winner(), 1);
}

fn rules_with_a_repeated_name() -> Vec<ScoringRule> {
    vec![
        ScoringRule::new("Ones".to_string(), Scorer::Count(1), 5),
        ScoringRule::new("Chance".to_string(), Scorer::Chance, 30),
        ScoringRule::new("Ones".to_string(), Scorer::Count(2), 10),
    ]
}

#[test]
fn categories_of_one_name_share_their_score() {
    let mut game = GameState::new(1, &rules_with_a_repeated_name());
    assert_eq!(game.category_key(0), 0);
    assert_eq!(game.category_key(1), 1);
    assert_eq!(game.category_key(2), 0);
    game.next_with_roll(vec![1, 2, 2, 3, 1]);
    game.next();
    let offered: Vec<usize> = game.possible_scores().iter().map(|(i, _, _)| *i).collect();
    assert_eq!(offered, vec![0, 1, 2]);
    game.pick_score(0);
    assert_eq!(game.current_player().scores.get(&0), Some(&2));
    let offered: Vec<usize> = game.possible_scores().iter().map(|(i, _, _)| *i).collect();
    assert_eq!(offered, vec![1]);
    game.pick_score(2);
    assert_eq!(game.current_player().scores.len(), 1);
    assert_eq!(game.current_player().scores.get(&0), Some(&2));
}

#[test]
fn game_with_a_repeated_name_never_ends() {
    let mut game = GameState::new(1, &rules_with_a_repeated_name());
    for _ in 0..4 {
        game.next();
        game.next();
        for k in 0..3 {
            game.pick_score(k);
        }
        game.next();
    }
    assert_eq!(game.players()[0].scores.len(), 2);
    assert!(game.possible_scores().is_empty());
    assert!(!game.game_over());
}

#[test]
fn next_goes_round_the_turn_and_the_players() {
    let mut game = GameState::new(3, &standard_rules());
    let stages = [TurnState::FirstRoll, TurnState::ReRoll(0), TurnState::Score];
    for j in 0..20usize {
        assert_eq!(game.turn_state(), stages[j % 3]);
        assert_eq!(game.current_player().num, (j / 3) % 3 + 1);
        if game.turn_state() != TurnState::FirstRoll {
            assert_eq!(game.locked_dice().len() + game.dice().len(), 5);
            assert!(game.locked_dice().windows(2).all(|w| w[0] <= w[1]));
        }
        game.next();
    }
}

#[test]
fn holding_and_moving_to_scoring_keep_the_offers() {
    let mut game = started_game();
    let before = game.possible_scores();
    game.lock(&[3, 1]);
    let held = game.possible_scores();
    game.next();
    let scoring = game.possible_scores();
    for (a, (b, c)) in before.iter().zip(held.iter().zip(scoring.iter())) {
        assert_eq!((a.0, a.1.name(), a.2), (b.0, b.1.name(), b.2));
        assert_eq!((a.0, a.1.name(), a.2), (c.0, c.1.name(), c.2));
    }
    assert_eq!(before.len(), scoring.len());
    let picked = scoring[4].0;
    game.pick_score(picked);
    let after = game.possible_scores();
    assert_eq!(after.len(), scoring.len() - 1);
    let rest: Vec<(usize, u32)> = scoring.iter().filter(|e| e.0 != picked).map(|e| (e.0, e.2)).collect();
    let now: Vec<(usize, u32)> = after.iter().map(|e| (e.0, e.2)).collect();
    assert_eq!(rest, now);
}
