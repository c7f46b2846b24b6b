use auction_game::models::enums::GamePhase;
use auction_game::models::game_state::GameState;
use rand::rngs::StdRng;
use rand::SeedableRng;

fn check_deck() -> Vec<u8> {
    vec![
        0, 0, 2, 2, 3, 3, 4, 4, 5, 5, 6, 6, 7, 7, 8, 8, 9, 9, 10, 10, 11, 11, 12, 12, 13, 13, 14,
        14, 15, 15,
    ]
}

fn fixed_state(no_players: u8) -> GameState {
    let properties: Vec<u8> = (1..=30).collect();
    GameState::starting_with_decks(no_players, 0, properties, check_deck())
}

fn six_with_low_cards() -> GameState {
    let mut state = fixed_state(6);
    state.reveal_auction_manual(vec![1, 2, 3, 4, 5, 30]);
    state
}

fn sale_state() -> GameState {
    let mut state = GameState::starting_with_decks(3, 0, Vec::new(), check_deck());
    state.insert_property_ascending(0, 20);
    state.insert_property_ascending(0, 5);
    state.insert_property_ascending(1, 7);
    state.insert_property_ascending(2, 30);
    state.insert_property_ascending(2, 7);
    state.next_game_phase();
    state.reveal_auction();
    state
}

#[test]
fn starting_state_has_origin_key() {
    let state = fixed_state(6);
    assert_eq!(state.get_path_encoding(), "|O");
    assert_eq!(state.get_coins(), &vec![14u8; 6]);
    assert_eq!(state.turn_no(), 1);
    assert_eq!(state.round_no(), 0);
    assert!(state.game_phase() == GamePhase::Bid);
    assert!(state.auction_end());
    assert_eq!(state.no_players(), 6);
    assert_eq!(state.current_player(), 0);
}

#[test]
fn starting_coins_depend_on_the_table() {
    assert_eq!(fixed_state(3).get_coins(), &vec![28u8; 3]);
    assert_eq!(fixed_state(4).get_coins(), &vec![21u8; 4]);
    assert_eq!(fixed_state(5).get_coins(), &vec![16u8; 5]);
    assert_eq!(fixed_state(6).get_coins(), &vec![14u8; 6]);
}

#[test]
fn reveal_takes_the_top_of_the_deck() {
    let mut state = fixed_state(6);
    assert_eq!(state.auction_properties_remaining(), 0);
    state.reveal_auction();
    assert_eq!(state.auction_properties_remaining(), 6);
    assert_eq!(state.get_remaining_deck_len(), 24);
    assert_eq!(state.get_remaining_properties(), &(1..=24).collect::<Vec<u8>>());
    assert_eq!(state.get_path_encoding(), "|O|R30:29:28:27:26:25");
    assert_eq!(state.get_parent_encoding(), "|O");
    assert_eq!(state.round_no(), 0);
}

#[test]
fn manual_reveal_sorts_the_batch_and_thins_the_deck() {
    let state = six_with_low_cards();
    assert_eq!(state.auction_properties_remaining(), 6);
    assert_eq!(state.get_remaining_deck_len(), 24);
    assert_eq!(state.get_remaining_properties(), &(6..=29).collect::<Vec<u8>>());
    assert_eq!(state.get_path_encoding(), "|O|R30:5:4:3:2:1");
    assert!(!state.auction_end());
    assert!(!state.bid_round_end());
}

#[test]
fn seeded_start_is_repeatable_and_shuffled() {
    let mut first_rng = StdRng::seed_from_u64(7);
    let mut second_rng = StdRng::seed_from_u64(7);
    let mut first = GameState::starting_seeded(6, 2, &mut first_rng);
    let mut second = GameState::starting_seeded(6, 2, &mut second_rng);
    let mut checks = first.get_remaining_checks().clone();
    assert_eq!(first.get_remaining_checks(), second.get_remaining_checks());
    assert_eq!(first.get_remaining_properties(), second.get_remaining_properties());
    assert_ne!(checks, check_deck());
    checks.sort();
    assert_eq!(checks, check_deck());
    let mut properties = first.get_remaining_properties().clone();
    assert_ne!(properties, (1..=30).collect::<Vec<u8>>());
    properties.sort();
    assert_eq!(properties, (1..=30).collect::<Vec<u8>>());
    first.reveal_auction();
    second.reveal_auction();
    assert_eq!(first.get_path_encoding(), second.get_path_encoding());
    assert_ne!(first.get_path_encoding(), "|O|R30:29:28:27:26:25");
    assert_eq!(first.current_player(), 2);
}

#[test]
fn unseeded_start_deals_every_card_once() {
    let state = GameState::starting(4, 1);
    let mut checks = state.get_remaining_checks().clone();
    checks.sort();
    assert_eq!(checks, check_deck());
    assert_eq!(state.get_remaining_deck_len(), 30);
    assert_eq!(state.get_coins(), &vec![21u8; 4]);
}

#[test]
fn first_bidder_may_fold_or_raise_up_to_all_coins() {
    let state = six_with_low_cards();
    let expected: Vec<u8> = (0..=14).collect();
    assert_eq!(state.legal_moves_bid(0), expected);
    assert_eq!(state.legal_moves(0), expected);
}

#[test]
fn a_raise_must_top_the_highest_bid() {
    let state = six_with_low_cards().generate_next_state_bid(0, 9);
    assert_eq!(state.current_player(), 1);
    assert_eq!(state.previous_player(), 0);
    assert_eq!(state.legal_moves_bid(1), vec![0, 10, 11, 12, 13, 14]);
    assert_eq!(state.legal_moves_bid(0), vec![0, 1, 2, 3, 4, 5]);
    assert_eq!(state.get_player_coins(0), 5);
    assert_eq!(state.turn_no(), 2);
    assert_eq!(state.get_path_encoding(), "|O|R30:5:4:3:2:1|9P0");
    assert_eq!(state.get_parent_encoding(), "|O|R30:5:4:3:2:1");
}

#[test]
fn a_player_who_cannot_top_may_only_fold() {
    let state = six_with_low_cards().generate_next_state_bid(0, 14);
    assert_eq!(state.legal_moves_bid(1), vec![0]);
}

#[test]
fn fold_takes_the_lowest_card_and_returns_half_the_bid() {
    let mut state = six_with_low_cards();
    state = state.generate_next_state_bid(0, 9);
    state = state.generate_next_state_bid(1, 10);
    state = state.generate_next_state_bid(2, 0);
    assert_eq!(state.get_player_properties(2), &vec![1u8]);
    assert_eq!(state.get_player_coins(2), 14);
    assert_eq!(state.auction_properties_remaining(), 5);
    state = state.generate_next_state_bid(3, 0);
    state = state.generate_next_state_bid(4, 0);
    state = state.generate_next_state_bid(5, 0);
    assert_eq!(state.current_player(), 0);
    assert_eq!(state.auction_properties_remaining(), 2);
    let before: u32 = state.get_coins().iter().map(|c| *c as u32).sum();
    let after_fold = state.generate_next_state_bid(0, 0);
    assert_eq!(after_fold.get_player_coins(0), 9);
    assert_eq!(after_fold.get_player_coins(1), 4);
    assert_eq!(after_fold.get_player_properties(0), &vec![5u8]);
    assert_eq!(after_fold.get_player_properties(1), &vec![30u8]);
    let after: u32 = after_fold.get_coins().iter().map(|c| *c as u32).sum();
    assert_eq!(after, before + 4);
    assert!(after_fold.auction_end());
    assert_eq!(after_fold.round_no(), 1);
    assert_eq!(after_fold.current_player(), 1);
    assert_eq!(after_fold.previous_player(), 0);
    assert!(after_fold.game_phase() == GamePhase::Bid);
}

#[test]
fn a_raise_keeps_coins_and_bids_together_the_same() {
    let state = six_with_low_cards();
    let coins_before: u32 = state.get_coins().iter().map(|c| *c as u32).sum();
    let raised = state.manual_next_state_bid(0, 6);
    let coins_after: u32 = raised.get_coins().iter().map(|c| *c as u32).sum();
    assert_eq!(coins_after + 6, coins_before);
    assert_eq!(raised.legal_moves_bid(1), vec![0, 7, 8, 9, 10, 11, 12, 13, 14]);
}

#[test]
fn a_fold_in_mid_auction_loses_the_other_half() {
    let mut state = six_with_low_cards();
    state = state.generate_next_state_bid(0, 5);
    state = state.generate_next_state_bid(1, 6);
    state = state.generate_next_state_bid(2, 0);
    state = state.generate_next_state_bid(3, 0);
    state = state.generate_next_state_bid(4, 0);
    state = state.generate_next_state_bid(5, 0);
    assert_eq!(state.current_player(), 0);
    state = state.generate_next_state_bid(0, 2);
    assert_eq!(state.get_player_coins(0), 7);
    state = state.generate_next_state_bid(1, 2);
    assert_eq!(state.current_player(), 0);
    let folded = state.generate_next_state_bid(0, 0);
    assert_eq!(folded.get_player_coins(0), 7 + 3);
    assert!(folded.auction_end());
}

#[test]
fn turn_passes_over_players_who_have_folded() {
    let mut state = six_with_low_cards();
    state = state.generate_next_state_bid(0, 1);
    state = state.generate_next_state_bid(1, 0);
    state = state.generate_next_state_bid(2, 2);
    state = state.generate_next_state_bid(3, 0);
    state = state.generate_next_state_bid(4, 0);
    state = state.generate_next_state_bid(5, 3);
    assert_eq!(state.current_player(), 0);
    state = state.generate_next_state_bid(0, 3);
    assert_eq!(state.current_player(), 2);
    assert_eq!(state.next_player_bid(), 5);
}

#[test]
fn state_encoding_lists_every_holding() {
    let state = six_with_low_cards();
    assert_eq!(
        state.get_state_encoding(),
        "Bid|c141414141414|p-----|ch-----|b000000000000|a300504030201"
    );
    let next = state.generate_next_state_bid(0, 9).generate_next_state_bid(1, 0);
    assert_eq!(
        next.get_state_encoding(),
        "Bid|c051414141414|p-01----|ch-----|b090000000000|a3005040302"
    );
}

#[test]
fn generate_next_state_bid_reveals_between_rounds() {
    let state = fixed_state(6);
    let revealed = state.generate_next_state_bid(0, 3);
    assert_eq!(revealed.auction_properties_remaining(), 6);
    assert_eq!(revealed.get_path_encoding(), "|O|R30:29:28:27:26:25");
    assert_eq!(revealed.get_coins(), &vec![14u8; 6]);
}

#[test]
fn exhaustive_reveal_lists_every_batch() {
    let state = GameState::starting_with_decks(3, 0, vec![1, 2, 3, 4], check_deck());
    let mut rng = StdRng::seed_from_u64(1);
    let children = state.reveal_auction_perms(false, 0, &mut rng);
    assert_eq!(children.len(), 4);
    let keys: Vec<String> = children.iter().map(|c| c.get_path_encoding()).collect();
    assert_eq!(keys, vec!["|O|R3:2:1", "|O|R4:2:1", "|O|R4:3:1", "|O|R4:3:2"]);
    for child in children.iter() {
        assert_eq!(child.auction_properties_remaining(), 3);
        assert_eq!(child.get_remaining_deck_len(), 1);
        assert_eq!(child.get_parent_encoding(), "|O");
    }
}

#[test]
fn sampled_reveal_draws_the_asked_number_of_batches() {
    let state = fixed_state(5);
    let mut rng = StdRng::seed_from_u64(3);
    let children = state.reveal_auction_perms(true, 4, &mut rng);
    assert_eq!(children.len(), 4);
    let mut again_rng = StdRng::seed_from_u64(3);
    let again = state.reveal_auction_perms(true, 4, &mut again_rng);
    for (child, twin) in children.iter().zip(again.iter()) {
        assert_eq!(child.auction_properties_remaining(), 5);
        assert_eq!(child.get_remaining_deck_len(), 25);
        assert_eq!(child.get_path_encoding(), twin.get_path_encoding());
        assert_eq!(child.get_parent_encoding(), "|O");
    }
    assert!(children.iter().any(|c| c.get_path_encoding() != "|O|R5:4:3:2:1"));
}

#[test]
fn reveal_with_gives_the_state_of_a_batch() {
    let state = fixed_state(3);
    let child = state.reveal_with(vec![4, 9, 2]);
    assert_eq!(child.get_path_encoding(), "|O|R9:4:2");
    assert_eq!(child.get_remaining_deck_len(), 27);
    assert_eq!(state.get_remaining_deck_len(), 30);
}

#[test]
fn sale_serves_the_lowest_offer_first_and_ties_by_seat() {
    let mut state = sale_state();
    assert!(state.game_phase() == GamePhase::Sell);
    assert_eq!(state.auction_properties_remaining(), 3);
    assert_eq!(state.legal_moves(0), vec![5, 20]);
    assert_eq!(state.legal_moves_sell(2), vec![7, 30]);
    let turn = state.turn_no();
    let round = state.round_no();
    let sold = state.manual_next_state_sell(vec![20, 7, 7]);
    assert_eq!(sold.get_player_checks(1), &vec![14u8]);
    assert_eq!(sold.get_player_checks(2), &vec![15u8]);
    assert_eq!(sold.get_player_checks(0), &vec![15u8]);
    assert_eq!(sold.get_player_properties(0), &vec![5u8]);
    assert_eq!(sold.get_player_properties(1), &Vec::<u8>::new());
    assert_eq!(sold.get_player_properties(2), &vec![30u8]);
    assert!(sold.auction_end());
    assert_eq!(sold.turn_no(), turn + 1);
    assert_eq!(sold.round_no(), round + 1);
    assert_eq!(sold.get_path_encoding(), "|O|R15:15:14|S20:7:7");
    assert_eq!(sold.get_parent_encoding(), "|O|R15:15:14");
    assert_eq!(state.auction_properties_remaining(), 3);
}

#[test]
fn sale_gives_the_best_check_to_the_best_offer() {
    let mut state = sale_state();
    let sold = state.generate_next_state_sell(vec![5, 7, 30]);
    assert_eq!(sold.get_player_checks(0), &vec![14u8]);
    assert_eq!(sold.get_player_checks(1), &vec![15u8]);
    assert_eq!(sold.get_player_checks(2), &vec![15u8]);
    assert_eq!(sold.get_player_properties(0), &vec![20u8]);
}

#[test]
fn generate_next_state_sell_reveals_when_nothing_is_on_offer() {
    let mut state = sale_state();
    let mut sold = state.manual_next_state_sell(vec![20, 7, 7]);
    let next = sold.generate_next_state_sell(vec![0, 0, 0]);
    assert_eq!(next.auction_properties_remaining(), 3);
    assert_eq!(next.get_path_encoding(), "|O|R15:15:14|S20:7:7|R14:13:13");
    assert_eq!(next.get_remaining_checks().len(), 24);
}

#[test]
fn phases_end_when_the_decks_are_dealt() {
    let state = fixed_state(3);
    assert!(!state.bid_phase_end());
    assert!(!state.sell_phase_end());
    let empty = GameState::starting_with_decks(3, 0, Vec::new(), Vec::new());
    assert!(empty.bid_phase_end());
    assert!(empty.sell_phase_end());
    let selling = sale_state();
    assert!(selling.bid_phase_end());
    assert!(!selling.sell_phase_end());
}

#[test]
fn tally_adds_checks_and_coins() {
    let mut state = sale_state();
    let sold = state.manual_next_state_sell(vec![20, 7, 7]);
    assert_eq!(
        sold.tally_game_score(),
        "Player 1: 43 points\nPlayer 2: 42 points\nPlayer 3: 43 points\n"
    );
}

#[test]
fn coins_and_counters_can_be_set() {
    let mut state = fixed_state(3);
    state.remove_coins(1, 20);
    state.add_coins(2, 5);
    assert_eq!(state.get_coins(), &vec![28u8, 8, 33]);
    state.add_turn_no(4);
    state.add_round_no(2);
    assert_eq!(state.turn_no(), 5);
    assert_eq!(state.round_no(), 2);
    state.insert_check_ascending(0, 9);
    state.insert_check_ascending(0, 3);
    state.insert_check_ascending(0, 9);
    assert_eq!(state.get_player_checks(0), &vec![3u8, 9, 9]);
    assert_eq!(state.get_properties().get(&0), Some(&Vec::<u8>::new()));
}

#[test]
fn round_reset_clears_bids_and_reactivates() {
    let mut state = six_with_low_cards();
    state.raise_bid(0, 4);
    state.player_now_inactive(3);
    state.increase_bid(1, 2);
    state.win_bid(2);
    assert_eq!(state.current_player(), 2);
    assert_eq!(state.get_player_properties(2), &vec![1u8]);
    assert_eq!(state.legal_moves_bid(3), (0..=14).collect::<Vec<u8>>());
    assert_eq!(state.get_player_coins(0), 10);
    state.take_card(4);
    assert_eq!(state.get_player_properties(4), &vec![2u8]);
    state.fold_bid(5);
    assert_eq!(state.get_player_properties(5), &vec![3u8]);
    state.reset_round();
    assert_eq!(state.auction_properties_remaining(), 3);
}

#[test]
fn awaits_bid_tells_auctions_from_pauses() {
    let state = fixed_state(6);
    assert!(!state.awaits_bid());
    assert_eq!(state.bids_left(), 4096 * 30);
    let revealed = six_with_low_cards();
    assert!(revealed.awaits_bid());
    assert_eq!(revealed.bids_left(), 4096 * 24 + 1 + 6 * 15);
}

#[test]
fn a_reveal_of_given_checks_takes_one_card_for_each_card_drawn() {
    let mut state = GameState::starting_with_decks(3, 0, Vec::new(), vec![2, 2, 3, 3, 4, 4]);
    state.next_game_phase();
    let child = state.reveal_with(vec![2, 3, 4]);
    assert_eq!(child.get_remaining_checks(), &vec![2, 3, 4]);
    assert_eq!(child.auction_properties_remaining(), 3);
    let pair = state.reveal_with(vec![2, 2, 4]);
    assert_eq!(pair.get_remaining_checks(), &vec![3, 3, 4]);
    let mut rng = StdRng::seed_from_u64(5);
    for sampled in state.reveal_auction_perms(true, 8, &mut rng) {
        assert_eq!(sampled.get_remaining_checks().len(), 3);
        assert_eq!(sampled.get_coins(), state.get_coins());
    }
    for chosen in state.reveal_auction_perms(false, 0, &mut rng) {
        assert_eq!(chosen.get_remaining_checks().len(), 3);
    }
}
