use auction_game::engines::algorithms::maxn_player::MaxNPlayer;
use auction_game::engines::q_values::regret::Regret;
use auction_game::engines::scorers::naive_round_score::NaiveRoundScore;
use auction_game::models::game_state::GameState;

fn check_deck() -> Vec<u8> {
    vec![
        0, 0, 2, 2, 3, 3, 4, 4, 5, 5, 6, 6, 7, 7, 8, 8, 9, 9, 10, 10, 11, 11, 12, 12, 13, 13, 14,
        14, 15, 15,
    ]
}

#[test]
fn equal_holdings_score_nothing() {
    let state = GameState::starting_with_decks(3, 0, (1..=30).collect(), check_deck());
    assert_eq!(NaiveRoundScore::round_score_function(&state), vec![0, 0, 0]);
    assert_eq!(MaxNPlayer::round_score_function(&state), vec![0, 0, 0]);
}

#[test]
fn a_leader_scores_what_the_others_are_behind() {
    let mut state = GameState::starting_with_decks(3, 0, (1..=30).collect(), check_deck());
    state.insert_property_ascending(0, 10);
    assert_eq!(NaiveRoundScore::round_score_function(&state), vec![80644, -40322, -40322]);
}

#[test]
fn a_finished_game_scores_each_share() {
    let mut state = GameState::starting_with_decks(3, 0, Vec::new(), Vec::new());
    state.next_game_phase();
    state.insert_check_ascending(0, 15);
    state.insert_check_ascending(1, 14);
    state.insert_check_ascending(2, 15);
    assert!(state.sell_phase_end());
    assert_eq!(NaiveRoundScore::round_score_function(&state), vec![335937, 328125, 335937]);
}

#[test]
fn during_the_sale_properties_count_for_the_checks_to_come() {
    let mut deck = check_deck();
    deck.truncate(27);
    let mut state = GameState::starting_with_decks(3, 0, Vec::new(), deck);
    state.next_game_phase();
    state.insert_check_ascending(0, 15);
    state.insert_check_ascending(1, 14);
    state.insert_check_ascending(2, 15);
    state.insert_property_ascending(0, 5);
    state.insert_property_ascending(2, 30);
    assert_eq!(NaiveRoundScore::round_score_function(&state), vec![-430346, -519520, 949866]);
}

#[test]
fn nothing_at_stake_scores_nothing() {
    let mut state = GameState::starting_with_decks(3, 0, vec![1], Vec::new());
    state.remove_coins(0, 28);
    state.remove_coins(1, 28);
    state.remove_coins(2, 28);
    assert_eq!(NaiveRoundScore::round_score_function(&state), vec![0, 0, 0]);
    let mut selling = GameState::starting_with_decks(3, 0, Vec::new(), vec![3, 4, 5]);
    selling.next_game_phase();
    selling.remove_coins(0, 28);
    selling.remove_coins(1, 28);
    selling.remove_coins(2, 28);
    assert_eq!(NaiveRoundScore::round_score_function(&selling), vec![0, 0, 0]);
}

#[test]
fn shortfalls_are_measured_from_the_best() {
    assert_eq!(Regret::q_values(&vec![3, 9, -1]), vec![6, 0, 10]);
    assert_eq!(Regret::q_values(&Vec::new()), Vec::<i128>::new());
    assert_eq!(
        Regret::q_values(&vec![i64::MIN, i64::MAX]),
        vec![i64::MAX as i128 - i64::MIN as i128, 0]
    );
}
