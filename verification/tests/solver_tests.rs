use auction_game::engines::algorithms::counterfactual_regret::{
    regret_step, TerminalNode, Terminator, Unbounded, CFR,
};
use auction_game::engines::controllers::greedy_baby::GreedyBaby;
use auction_game::engines::traits::BatchController;
use auction_game::engines::utils::{
    mixed_strategy_score, normalize, pick_index, sample_strategy, update_average,
};
use auction_game::models::game_state::GameState;
use rand::rngs::StdRng;
use rand::SeedableRng;

fn check_deck() -> Vec<u8> {
    vec![
        0, 0, 2, 2, 3, 3, 4, 4, 5, 5, 6, 6, 7, 7, 8, 8, 9, 9, 10, 10, 11, 11, 12, 12, 13, 13, 14,
        14, 15, 15,
    ]
}

fn sale_state() -> GameState {
    let mut state = GameState::starting_with_decks(3, 0, Vec::new(), check_deck());
    state.insert_property_ascending(0, 20);
    state.insert_property_ascending(0, 5);
    state.insert_property_ascending(1, 9);
    state.insert_property_ascending(1, 7);
    state.insert_property_ascending(2, 30);
    state.insert_property_ascending(2, 11);
    state.insert_property_ascending(2, 12);
    state.next_game_phase();
    state.reveal_auction();
    state
}

#[test]
fn pick_index_walks_the_cumulative_probabilities() {
    let strategy = vec![250_000, 250_000, 500_000];
    assert_eq!(pick_index(&strategy, 0), 0);
    assert_eq!(pick_index(&strategy, 249_999), 0);
    assert_eq!(pick_index(&strategy, 250_000), 1);
    assert_eq!(pick_index(&strategy, 499_999), 1);
    assert_eq!(pick_index(&strategy, 500_000), 2);
    assert_eq!(pick_index(&strategy, 999_999), 2);
}

#[test]
fn pick_index_falls_back_to_the_last_place() {
    let short = vec![100_000, 100_000];
    assert_eq!(pick_index(&short, 150_000), 1);
    assert_eq!(pick_index(&short, 900_000), 1);
    assert_eq!(pick_index(&vec![0], 5), 0);
    assert_eq!(pick_index(&vec![0, 0, 0], 0), 2);
}

#[test]
fn sample_strategy_stays_in_range_and_follows_the_seed() {
    let strategy = vec![300_000, 300_000, 399_000];
    let mut rng = StdRng::seed_from_u64(5);
    let mut twin = StdRng::seed_from_u64(5);
    let mut seen = vec![false; 3];
    for _ in 0..200 {
        let index = sample_strategy(&strategy, &mut rng);
        assert!(index < 3);
        assert_eq!(index, sample_strategy(&strategy, &mut twin));
        seen[index] = true;
    }
    assert_eq!(seen, vec![true, true, true]);
    let sure = vec![0, 1_000_000, 0];
    for _ in 0..50 {
        assert_eq!(sample_strategy(&sure, &mut rng), 1);
    }
}

#[test]
fn mixed_strategy_score_weights_each_payoff() {
    assert_eq!(mixed_strategy_score(&vec![500_000, 500_000], &vec![10, 30]), 20);
    assert_eq!(mixed_strategy_score(&vec![250_000, 750_000], &vec![-8, 4]), 1);
    assert_eq!(mixed_strategy_score(&vec![333_333, 333_333, 333_333], &vec![-1, -1, -1]), 0);
    assert_eq!(mixed_strategy_score(&vec![1_000_000], &vec![i64::MIN]), i64::MIN);
    assert_eq!(mixed_strategy_score(&Vec::new(), &Vec::new()), 0);
}

#[test]
fn normalize_matches_the_regrets() {
    let mut strategy = vec![0, 0, 0];
    normalize(&mut strategy, &vec![1, 1, 2]);
    assert_eq!(strategy, vec![250_000, 250_000, 500_000]);
    normalize(&mut strategy, &vec![1, 1, 1]);
    assert_eq!(strategy, vec![333_333, 333_333, 333_333]);
    let total: i64 = strategy.iter().sum();
    assert!(total <= 1_000_000 && total > 1_000_000 - 3);
}

#[test]
fn normalize_without_regret_plays_every_place_alike() {
    let mut strategy = vec![7, 7, 7, 7];
    normalize(&mut strategy, &vec![0, 0, 0, 0]);
    assert_eq!(strategy, vec![250_000, 250_000, 250_000, 250_000]);
    let mut three = vec![0, 0, 0];
    normalize(&mut three, &vec![0, 0, 0]);
    assert_eq!(three, vec![333_333, 333_333, 333_333]);
}

#[test]
fn update_average_is_a_running_mean() {
    let mut average = vec![10, -10, 7];
    update_average(&mut average, &vec![20, -20, 8], 2);
    assert_eq!(average, vec![15, -15, 7]);
    update_average(&mut average, &vec![0, 0], 3);
    assert_eq!(average, vec![10, -10, 7]);
    update_average(&mut average, &vec![4, 5, 6], 1);
    assert_eq!(average, vec![4, 5, 6]);
}

#[test]
fn regret_step_adds_what_an_action_gained() {
    let mut regret = vec![0, 5];
    regret_step(&mut regret, &vec![500_000, 500_000], &vec![10, 30]);
    assert_eq!(regret, vec![0, 15]);
    let mut full = vec![i64::MAX, 0];
    regret_step(&mut full, &vec![1_000_000, 0], &vec![0, 9]);
    assert_eq!(full, vec![i64::MAX, 9]);
    let mut far = vec![1, 1];
    regret_step(&mut far, &vec![1_000_000, 0], &vec![i64::MIN, i64::MAX]);
    assert_eq!(far, vec![1, i64::MAX]);
}

#[test]
fn solver_keeps_regrets_above_zero_and_strategies_whole() {
    let state = sale_state();
    let mut solver = CFR::seeded(Unbounded {}, false, 11);
    assert!(!solver.game_state_added(&state));
    solver.find_nash(&state, 60);
    assert!(solver.game_state_added(&state));
    for player in 0..3u8 {
        let moves = state.legal_moves(player);
        let regret = solver.regret_of(&state, player).unwrap();
        let strategy = solver.strategy_of(&state, player).unwrap();
        let average = solver.average_of(&state, player).unwrap();
        assert_eq!(regret.len(), moves.len());
        assert_eq!(strategy.len(), moves.len());
        assert_eq!(average.len(), moves.len());
        assert!(regret.iter().all(|r| *r >= 0));
        assert!(strategy.iter().all(|s| *s >= 0));
        let total: i64 = strategy.iter().sum();
        assert!(total <= 1_000_000);
        assert!(total > 1_000_000 - moves.len() as i64);
        let action = solver.get_mixed_strategy(&state, player);
        assert!(moves.contains(&action));
    }
    assert_eq!(solver.regret_of(&state, 3), None);
}

#[test]
fn solver_is_repeatable_under_a_seed_in_both_modes() {
    let state = sale_state();
    for alternating in [false, true] {
        let mut first = CFR::seeded(Unbounded {}, alternating, 4);
        let mut second = CFR::seeded(Unbounded {}, alternating, 4);
        first.find_nash(&state, 25);
        second.find_nash(&state, 25);
        for player in 0..3u8 {
            assert_eq!(first.regret_of(&state, player), second.regret_of(&state, player));
            assert_eq!(first.strategy_of(&state, player), second.strategy_of(&state, player));
            assert_eq!(first.average_of(&state, player), second.average_of(&state, player));
            assert_eq!(
                first.get_mixed_strategy(&state, player),
                second.get_mixed_strategy(&state, player)
            );
        }
    }
}

#[test]
fn a_new_node_plays_every_property_alike() {
    let state = sale_state();
    let mut solver = CFR::new(Unbounded {}, true);
    solver.initialise_node(&state);
    assert_eq!(solver.strategy_of(&state, 0), Some(vec![500_000, 500_000]));
    assert_eq!(solver.regret_of(&state, 0), Some(vec![500_000, 500_000]));
    assert_eq!(solver.average_of(&state, 0), Some(vec![0, 0]));
    assert_eq!(solver.strategy_of(&state, 2), Some(vec![333_333, 333_333, 333_333]));
    let other = state.clone();
    solver.add_game_state(other);
}

#[test]
fn one_round_matches_the_strategy_to_the_regrets_and_takes_it_into_the_mean() {
    let state = sale_state();
    for alternating in [false, true] {
        let mut solver = CFR::seeded(Unbounded {}, alternating, 9);
        solver.initialise_node(&state);
        let before: Vec<Vec<i64>> =
            (0..3u8).map(|player| solver.regret_of(&state, player).unwrap()).collect();
        solver.find_nash(&state, 1);
        for player in 0..3u8 {
            let regret = solver.regret_of(&state, player).unwrap();
            let strategy = solver.strategy_of(&state, player).unwrap();
            let mut expected = vec![0; regret.len()];
            normalize(&mut expected, &regret);
            assert_eq!(strategy, expected);
            assert_eq!(solver.average_of(&state, player), Some(strategy));
            assert!(regret.iter().zip(&before[player as usize]).all(|(now, then)| now >= then));
        }
    }
}

#[test]
fn a_bound_that_is_reached_stops_the_solver() {
    let state = sale_state();
    let here = TerminalNode::round_terminator(&state, 0);
    assert!(here.is_terminal(&state));
    let later = TerminalNode::round_terminator(&state, 1);
    assert!(!later.is_terminal(&state));
    let turns = TerminalNode::turn_terminator(&state, 2);
    assert!(!turns.is_terminal(&state));
    let mut moved = state.clone();
    moved.add_turn_no(2);
    assert!(turns.is_terminal(&moved));
    assert!(!Unbounded {}.is_terminal(&moved));
    let mut stopped = CFR::seeded(here, false, 1);
    stopped.find_nash(&state, 10);
    assert_eq!(stopped.strategy_of(&state, 1), Some(vec![500_000, 500_000]));
    assert_eq!(stopped.average_of(&state, 1), Some(vec![0, 0]));
    let mut running = CFR::seeded(later, false, 1);
    running.find_nash(&state, 10);
    assert_ne!(running.average_of(&state, 1), Some(vec![0, 0]));
}

#[test]
fn greedy_baby_offers_one_property_for_every_seat() {
    let state = sale_state();
    let mut baby = GreedyBaby::new(0, "Baby".to_string());
    let offers = baby.batch_decision(&state);
    assert_eq!(offers.len(), 3);
    for player in 0..3u8 {
        assert!(state.legal_moves(player).contains(&offers[player as usize]));
    }
}

#[test]
fn the_solver_leaves_the_nodes_of_other_states_alone() {
    let state = sale_state();
    let mut other = sale_state();
    other.add_turn_no(1);
    other.update_path_encoding_action(0, 0);
    let mut solver = CFR::seeded(Unbounded {}, false, 3);
    solver.initialise_node(&other);
    let before = solver.strategy_of(&other, 2);
    solver.find_nash(&state, 5);
    assert_eq!(solver.strategy_of(&other, 2), before);
    assert_eq!(solver.regret_of(&other, 2), Some(vec![333_333, 333_333, 333_333]));
    assert_eq!(solver.average_of(&other, 2), Some(vec![0, 0, 0]));
}
