use auction_game::engines::algorithms::maxn_player::MaxNPlayer;
use auction_game::engines::algorithms::score_node::{Outcome, ScoreMaxN};
use auction_game::engines::controllers::greedy_baby::GreedyBaby;
use auction_game::engines::scorers::naive_round_score::NaiveRoundScore;
use auction_game::engines::traits::PlayerController;
use auction_game::models::enums::GamePhase;
use auction_game::models::game_state::GameState;
use itertools::Itertools;
use rand::rngs::StdRng;
use rand::SeedableRng;

fn check_deck() -> Vec<u8> {
    vec![
        0, 0, 2, 2, 3, 3, 4, 4, 5, 5, 6, 6, 7, 7, 8, 8, 9, 9, 10, 10, 11, 11, 12, 12, 13, 13, 14,
        14, 15, 15,
    ]
}

fn ordered_state(no_players: u8) -> GameState {
    let properties: Vec<u8> = (1..=30).collect();
    GameState::starting_with_decks(no_players, 0, properties, check_deck())
}

fn late_round_state() -> GameState {
    let mut game_state = ordered_state(6);
    game_state.reveal_auction_manual(vec![1, 2, 3, 4, 5, 30]);
    game_state = game_state.generate_next_state_bid(0, 9);
    game_state = game_state.generate_next_state_bid(1, 0);
    game_state = game_state.generate_next_state_bid(2, 0);
    game_state = game_state.generate_next_state_bid(3, 0);
    game_state = game_state.generate_next_state_bid(4, 0);
    game_state
}

fn poor_state(properties: Vec<u8>) -> GameState {
    let mut state = GameState::starting_with_decks(3, 0, properties, check_deck());
    state.remove_coins(0, 27);
    state.remove_coins(1, 27);
    state.remove_coins(2, 26);
    state.reveal_auction();
    state
}

/// What a state comes to when the round is played out, each player for
/// themselves: the check against which the search is held.
fn played_out(state: &GameState) -> Vec<i64> {
    if state.auction_end() {
        return NaiveRoundScore::round_score_function(state);
    }
    let mover = state.current_player();
    let mut best = vec![i64::MIN; state.no_players() as usize];
    for action in state.legal_moves(mover).iter().rev() {
        let reply = played_out(&state.manual_next_state_bid(mover, *action));
        if best[mover as usize] < reply[mover as usize] {
            best = reply;
        }
    }
    best
}

fn first_best(state: &GameState) -> u8 {
    let mover = state.current_player();
    let mut best_action = 0;
    let mut best_score = i64::MIN;
    for action in state.legal_moves(mover) {
        let worth = played_out(&state.manual_next_state_bid(mover, action))[mover as usize];
        if best_score < worth {
            best_action = action;
            best_score = worth;
        }
    }
    best_action
}

/// What a state comes to when play goes on to the end of the round
/// `terminal`, with every batch that may be revealed weighed alike.
fn worth_within(state: &GameState, terminal: u8) -> Vec<i64> {
    let n = state.no_players() as usize;
    if !state.auction_end() {
        let mover = state.current_player();
        let mut best = vec![i64::MIN; n];
        for action in state.legal_moves(mover).iter().rev() {
            let reply = worth_within(&state.manual_next_state_bid(mover, *action), terminal);
            if best[mover as usize] < reply[mover as usize] {
                best = reply;
            }
        }
        return best;
    }
    let deck = state.get_remaining_properties().clone();
    if state.round_no() == terminal || state.game_phase() == GamePhase::Sell || deck.len() < n {
        return NaiveRoundScore::round_score_function(state);
    }
    let mut sums = vec![0i128; n];
    let mut count: i128 = 0;
    for batch in deck.iter().copied().combinations(n) {
        let reply = worth_within(&state.reveal_with(batch), terminal);
        for seat in 0..n {
            sums[seat] += reply[seat] as i128;
        }
        count += 1;
    }
    sums.iter().map(|sum| (sum / count) as i64).collect()
}

fn first_best_within(state: &GameState, rounds: u8) -> u8 {
    let mover = state.current_player();
    let terminal = state.round_no() + rounds;
    let mut best_action = 0;
    let mut best_score = i64::MIN;
    for action in state.legal_moves(mover) {
        let worth = worth_within(&state.manual_next_state_bid(mover, action), terminal)[mover as usize];
        if best_score < worth {
            best_action = action;
            best_score = worth;
        }
    }
    best_action
}

#[test]
fn test_maximax_round() {
    let game_state = late_round_state();
    let mut player = MaxNPlayer::new(0, "Bob".to_string(), false, false);
    let output = player.maximax_round(&game_state, 1, true, 1);
    assert!(game_state.legal_moves(5).contains(&output));
    assert_eq!(output, first_best(&game_state));
}

#[test]
fn search_late_in_a_round_returns_a_legal_bid() {
    let game_state = late_round_state();
    assert_eq!(game_state.current_player(), 5);
    let mut player = MaxNPlayer::seeded(0, "Bob".to_string(), false, false, 7);
    let output = player.maximax_round(&game_state, 1, true, 1);
    assert!(game_state.legal_moves(5).contains(&output));
}

#[test]
fn search_picks_the_bid_that_is_worth_most_to_the_mover() {
    let game_state = late_round_state();
    let mut player = MaxNPlayer::seeded(5, "Eve".to_string(), false, false, 1);
    let output = player.maximax_round(&game_state, 1, false, 0);
    assert_eq!(output, first_best(&game_state));
    let mover = game_state.current_player();
    let mut top = i64::MIN;
    for action in game_state.legal_moves(mover) {
        let child = game_state.manual_next_state_bid(mover, action);
        let kept = player.score_of(&child.get_path_encoding());
        assert_eq!(kept, Some(played_out(&child)));
        let worth = kept.unwrap()[mover as usize];
        if worth > top {
            top = worth;
        }
    }
    let chosen = game_state.manual_next_state_bid(mover, output);
    assert_eq!(player.score_of(&chosen.get_path_encoding()).unwrap()[mover as usize], top);
    assert_eq!(player.score_of(&game_state.get_path_encoding()), Some(played_out(&game_state)));
}

#[test]
fn search_of_a_whole_small_round_agrees_with_playing_it_out() {
    let state = poor_state((1..=9).collect());
    assert_eq!(state.get_coins(), &vec![1u8, 1, 2]);
    let mut player = MaxNPlayer::seeded(0, "Ann".to_string(), false, false, 5);
    let output = player.maximax_round(&state, 1, false, 0);
    assert_eq!(output, first_best(&state));
    let after = state.manual_next_state_bid(0, output);
    let mut second = MaxNPlayer::seeded(1, "Ben".to_string(), false, false, 5);
    if !after.auction_end() {
        assert_eq!(second.maximax_round(&after, 1, false, 0), first_best(&after));
    }
}

#[test]
fn fold_that_leaves_one_bidder_ends_the_round() {
    let game_state = late_round_state();
    let after = game_state.manual_next_state_bid(5, 0);
    assert!(after.auction_end());
    assert_eq!(after.round_no(), game_state.round_no() + 1);
    assert_eq!(after.get_player_properties(0), &vec![30u8]);
    assert_eq!(after.get_player_properties(5), &vec![5u8]);
    assert_eq!(after.current_player(), 0);
    let scores = NaiveRoundScore::round_score_function(&after);
    assert_eq!(scores, vec![-12579, -14134, -10600, -7067, -3533, 47913]);
}

#[test]
fn a_round_ending_fold_is_scored_without_branching() {
    let mut game_state = late_round_state();
    game_state = game_state.generate_next_state_bid(5, 10);
    assert_eq!(game_state.current_player(), 0);
    assert_eq!(game_state.legal_moves(0), vec![0, 2, 3, 4, 5]);
    let mut player = MaxNPlayer::seeded(0, "Bob".to_string(), false, false, 3);
    let _ = player.maximax_round(&game_state, 1, false, 0);
    let folded = game_state.manual_next_state_bid(0, 0);
    assert!(folded.auction_end());
    assert_eq!(folded.get_player_properties(5), &vec![30u8]);
    assert_eq!(
        player.score_of(&folded.get_path_encoding()),
        Some(NaiveRoundScore::round_score_function(&folded))
    );
    let deeper = folded.get_path_encoding() + "|0P5";
    assert_eq!(player.score_of(&deeper), None);
}

#[test]
fn search_is_repeatable_under_a_seed() {
    let mut rng = StdRng::seed_from_u64(42);
    let mut state = GameState::starting_seeded(6, 0, &mut rng);
    state.reveal_auction();
    state = state.generate_next_state_bid(0, 9);
    state = state.generate_next_state_bid(1, 0);
    state = state.generate_next_state_bid(2, 0);
    state = state.generate_next_state_bid(3, 0);
    state = state.generate_next_state_bid(4, 0);
    let mut first = MaxNPlayer::seeded(5, "A".to_string(), false, false, 9);
    let mut second = MaxNPlayer::seeded(5, "B".to_string(), false, false, 9);
    let one = first.maximax_round(&state, 1, true, 2);
    let two = second.maximax_round(&state, 1, true, 2);
    let again = first.maximax_round(&state, 1, true, 2);
    assert_eq!(one, two);
    assert_eq!(one, again);
}

#[test]
fn sampled_search_over_two_rounds_is_repeatable_and_legal() {
    let state = poor_state((1..=9).collect());
    let mut first = MaxNPlayer::seeded(0, "A".to_string(), false, false, 21);
    let mut second = MaxNPlayer::seeded(0, "B".to_string(), false, false, 21);
    let one = first.maximax_round(&state, 2, true, 2);
    let two = second.maximax_round(&state, 2, true, 2);
    assert_eq!(one, two);
    assert!(state.legal_moves(0).contains(&one));
    for action in state.legal_moves(0) {
        let child = state.manual_next_state_bid(0, action);
        assert!(first.score_of(&child.get_path_encoding()).is_some());
    }
}

#[test]
fn exhaustive_search_over_two_rounds_averages_every_batch() {
    let state = poor_state((1..=6).collect());
    let mut player = MaxNPlayer::seeded(0, "A".to_string(), false, false, 2);
    let output = player.maximax_round(&state, 2, false, 0);
    assert!(state.legal_moves(0).contains(&output));
    let mut other = MaxNPlayer::seeded(0, "B".to_string(), false, false, 99);
    assert_eq!(other.maximax_round(&state, 2, false, 0), output);
    let root = player.score_of(&state.get_path_encoding()).unwrap();
    assert_eq!(root.len(), 3);
    assert!(root.iter().all(|s| *s > i64::MIN));
    assert_eq!(output, first_best_within(&state, 2));
    for action in state.legal_moves(0) {
        let child = state.manual_next_state_bid(0, action);
        let kept = player.score_of(&child.get_path_encoding());
        assert_eq!(kept, Some(worth_within(&child, state.round_no() + 2)));
    }
}

#[test]
fn exhaustive_search_scores_a_chance_node_without_a_batch_as_it_stands() {
    let state = poor_state(vec![9, 8, 7, 2, 1]);
    let mut player = MaxNPlayer::seeded(0, "A".to_string(), false, false, 2);
    let output = player.maximax_round(&state, 2, false, 0);
    assert_eq!(output, first_best_within(&state, 2));
    assert_eq!(output, first_best(&state));
}

#[test]
fn sampled_search_without_samples_scores_the_round_as_it_ends() {
    let state = poor_state((1..=6).collect());
    let mut player = MaxNPlayer::seeded(0, "A".to_string(), false, false, 2);
    let output = player.maximax_round(&state, 2, true, 0);
    assert_eq!(output, first_best(&state));
}

#[test]
fn search_over_three_rounds_agrees_with_playing_every_branch() {
    let state = poor_state((1..=6).collect());
    let mut player = MaxNPlayer::seeded(0, "A".to_string(), false, false, 2);
    let output = player.maximax_round(&state, 3, false, 0);
    assert_eq!(output, first_best_within(&state, 3));
}

#[test]
fn search_best_move_refuses_a_state_without_an_auction() {
    let state = ordered_state(6);
    let mut player = MaxNPlayer::seeded(0, "A".to_string(), false, false, 2);
    assert_eq!(player.search_best_move(&state, 1, false, 0), None);
    let late = late_round_state();
    assert_eq!(player.search_best_move(&late, 1, false, 0), Some(first_best(&late)));
    let mut old = late_round_state();
    old.add_round_no(245);
    assert_eq!(player.search_best_move(&old, 1, false, 0), None);
}

#[test]
fn controllers_decide_by_search() {
    let late = late_round_state();
    let mut player = MaxNPlayer::seeded(5, "Max".to_string(), false, false, 2);
    assert_eq!(player.nickname(), "Max");
    assert_eq!(player.decision(&late), first_best(&late));
    let mut baby = GreedyBaby::new(5, "Baby".to_string());
    assert_eq!(baby.nickname(), "Baby");
    assert_eq!(baby.decision(&late), first_best(&late));
}

#[test]
fn chance_node_takes_the_mean_of_three_children() {
    let state = ordered_state(3);
    let mut node = ScoreMaxN::default(&state, 3, 0);
    assert_eq!(node.score, vec![i64::MIN; 3]);
    node.absorb(&vec![30, -10, 7]);
    assert_eq!(node.score, vec![30, -10, 7]);
    node.absorb(&vec![60, -10, 8]);
    assert_eq!(node.score, vec![45, -10, 7]);
    assert_eq!(node.take_report(&vec![1, -11, 9], 0), Outcome::Done { evict: false });
    assert_eq!(node.score, vec![30, -10, 8]);
    assert_eq!(node.remaining_children, 0);
    assert_eq!(node.average_count, 3);
}

#[test]
fn decision_node_keeps_the_best_for_the_mover_and_the_first_on_a_tie() {
    let mut state = ordered_state(3);
    state.reveal_auction();
    state = state.generate_next_state_bid(0, 1);
    assert_eq!(state.current_player(), 1);
    let mut node = ScoreMaxN::default(&state, 3, 0);
    assert_eq!(node.take_report(&vec![5, 10, 0], 1), Outcome::Waiting);
    assert_eq!(node.score, vec![5, 10, 0]);
    assert_eq!(node.take_report(&vec![90, 10, 90], 1), Outcome::Waiting);
    assert_eq!(node.score, vec![5, 10, 0]);
    assert_eq!(node.take_report(&vec![-3, 11, -3], 1), Outcome::Done { evict: false });
    assert_eq!(node.score, vec![-3, 11, -3]);
    assert_eq!(node.average_count, 0);
}

#[test]
fn a_node_deep_below_the_root_leaves_the_table_when_done() {
    let mut state = ordered_state(3);
    state.reveal_auction();
    state = state.generate_next_state_bid(0, 1);
    state = state.generate_next_state_bid(1, 1);
    state = state.generate_next_state_bid(2, 1);
    assert_eq!(state.turn_no(), 4);
    let mut node = ScoreMaxN::default(&state, 1, 0);
    assert_eq!(node.take_report(&vec![1, 2, 3], 1), Outcome::Done { evict: true });
    let mut near = ScoreMaxN::default(&state, 1, 0);
    assert_eq!(near.take_report(&vec![1, 2, 3], 2), Outcome::Done { evict: false });
    let leaf = ScoreMaxN::scored(&state, vec![4, 5, 6]);
    assert_eq!(leaf.score, vec![4, 5, 6]);
    assert_eq!(leaf.remaining_children, 0);
}

#[test]
fn sampled_search_where_only_one_batch_can_be_drawn_agrees_with_the_search_of_every_branch() {
    let state = poor_state((1..=6).collect());
    let mut sampled = MaxNPlayer::seeded(0, "A".to_string(), false, false, 3);
    let output = sampled.maximax_round(&state, 2, true, 2);
    assert_eq!(output, first_best_within(&state, 2));
    for action in state.legal_moves(0) {
        let child = state.manual_next_state_bid(0, action);
        let kept = sampled.score_of(&child.get_path_encoding());
        assert_eq!(kept, Some(worth_within(&child, state.round_no() + 2)));
    }
}
