use auction_game::engines::algorithms::maxn_player_multi::{
    deepen_auction_end, deepen_standard, get_score, next_attempt, traverse, Attempt,
    GameStateJob, JobKind, Task, TerminalCondition,
};
use auction_game::engines::controllers::minimax::MinimaxPlayer;
use auction_game::engines::controllers::random_player::RandomPlayer;
use auction_game::engines::controllers::terminal_player::HumanPlayer;
use auction_game::engines::scorers::naive_round_score::NaiveRoundScore;
use auction_game::engines::traits::{BatchController, PlayerController};
use auction_game::game_modes::play_with_bots::Play;
use auction_game::game_modes::self_play::SelfPlay;
use auction_game::game_modes::standard::StandardGame;
use auction_game::game_modes::steps::{
    next_bid_step, next_sell_step, starting_seat, BidStep, SellStep,
};
use auction_game::helper::generation::string_to_seed;
use auction_game::models::enums::GamePhase;
use auction_game::models::game_state::GameState;
use log::LevelFilter;
use rand::rngs::StdRng;
use rand::SeedableRng;

fn check_deck() -> Vec<u8> {
    vec![
        0, 0, 2, 2, 3, 3, 4, 4, 5, 5, 6, 6, 7, 7, 8, 8, 9, 9, 10, 10, 11, 11, 12, 12, 13, 13, 14,
        14, 15, 15,
    ]
}

fn bidding_state() -> GameState {
    let mut state = GameState::starting_with_decks(3, 0, (1..=30).collect(), check_deck());
    state.reveal_auction();
    state
}

fn sale_state() -> GameState {
    let mut state = GameState::starting_with_decks(3, 0, Vec::new(), check_deck());
    state.insert_property_ascending(0, 5);
    state.insert_property_ascending(1, 7);
    state.insert_property_ascending(2, 30);
    state.next_game_phase();
    state.reveal_auction();
    state
}

#[test]
fn phase_names_are_spelled_out() {
    assert_eq!(GamePhase::Bid.name(), "Bid");
    assert_eq!(GamePhase::Sell.name(), "Sell");
}

#[test]
fn typed_choice_must_be_a_legal_number() {
    let legal = vec![0, 10, 11, 255];
    assert_eq!(HumanPlayer::read_choice("10", &legal), Some(10));
    assert_eq!(HumanPlayer::read_choice("+11", &legal), Some(11));
    assert_eq!(HumanPlayer::read_choice("0", &legal), Some(0));
    assert_eq!(HumanPlayer::read_choice("000", &legal), Some(0));
    assert_eq!(HumanPlayer::read_choice("255", &legal), Some(255));
    assert_eq!(HumanPlayer::read_choice("256", &legal), None);
    assert_eq!(HumanPlayer::read_choice("12", &legal), None);
    assert_eq!(HumanPlayer::read_choice("", &legal), None);
    assert_eq!(HumanPlayer::read_choice("+", &legal), None);
    assert_eq!(HumanPlayer::read_choice("1o", &legal), None);
    assert_eq!(HumanPlayer::read_choice("-0", &legal), None);
    assert_eq!(HumanPlayer::read_choice(" 10", &legal), None);
    assert_eq!(HumanPlayer::read_choice("99999999999999999999", &legal), None);
    assert_eq!(HumanPlayer::read_digits("+11", &legal), None);
    let human = HumanPlayer::new(2, "Brave Human".to_string());
    assert_eq!(human.id(), 2);
    assert_eq!(human.nickname(), "Brave Human");
}

#[test]
fn random_players_pick_legal_actions() {
    let state = bidding_state();
    let mut player = RandomPlayer::seeded(1, "R".to_string(), 8);
    let mut twin = RandomPlayer::seeded(1, "R".to_string(), 8);
    assert_eq!(player.nickname(), "R");
    let mut seen = std::collections::BTreeSet::new();
    for _ in 0..100 {
        let action = player.decision(&state);
        assert!(state.legal_moves(1).contains(&action));
        assert_eq!(action, twin.decision(&state));
        seen.insert(action);
    }
    assert!(seen.len() > 5);
    let selling = sale_state();
    let offers = player.batch_decision(&selling);
    assert_eq!(offers, vec![5, 7, 30]);
    let mut fresh = RandomPlayer::new(0, "F".to_string());
    assert!(state.legal_moves(0).contains(&fresh.decision(&state)));
    let mut minimax = MinimaxPlayer::new(2, "M".to_string());
    assert_eq!(minimax.nickname(), "M");
    assert!(state.legal_moves(2).contains(&minimax.decision(&state)));
    assert_eq!(minimax.batch_decision(&selling), vec![5, 7, 30]);
}

#[test]
fn game_steps_follow_the_state() {
    let start = GameState::starting_with_decks(3, 1, (1..=30).collect(), check_deck());
    let state = bidding_state();
    assert_eq!(next_bid_step(&state, 0), BidStep::Decide { player: 0 });
    assert_eq!(next_bid_step(&start, 0), BidStep::Decide { player: 1 });
    let mut over = state.generate_next_state_bid(0, 0);
    over = over.generate_next_state_bid(1, 0);
    assert!(over.auction_end());
    assert_eq!(next_bid_step(&over, 0), BidStep::Reveal);
    assert_eq!(next_bid_step(&over, 1), BidStep::Decide { player: 2 });
    let selling = sale_state();
    assert_eq!(next_bid_step(&selling, 0), BidStep::Finished);
    assert_eq!(next_sell_step(&selling), SellStep::Sale);
    let mut sale = sale_state();
    let sold = sale.manual_next_state_sell(vec![5, 7, 30]);
    assert_eq!(next_sell_step(&sold), SellStep::Reveal);
    let mut done = GameState::starting_with_decks(3, 0, Vec::new(), Vec::new());
    done.next_game_phase();
    assert_eq!(next_sell_step(&done), SellStep::Finished);
    assert_eq!(starting_seat(false, 4), 0);
    assert_eq!(starting_seat(true, 4), 4);
}

#[test]
fn game_modes_keep_what_they_are_made_with() {
    let play = Play::new("Test_0".to_string(), LevelFilter::Info, true);
    assert_eq!(play.game_id, "Test_0");
    assert_eq!(play.level_filter(), LevelFilter::Info);
    assert!(play.bool_random_starting_player());
    let own = SelfPlay::new("Test_1".to_string(), LevelFilter::Debug, false);
    assert_eq!(own.game_id, "Test_1");
    assert_eq!(own.level_filter(), LevelFilter::Debug);
    assert!(!own.bool_random_starting_player());
    assert_eq!(SelfPlay::rounds_param(0), 1);
    assert_eq!(SelfPlay::rounds_param(3), 2);
    assert_eq!(SelfPlay::rounds_param(4), 1);
    let players = vec![
        RandomPlayer::seeded(0, "a".to_string(), 1),
        RandomPlayer::seeded(1, "b".to_string(), 2),
        RandomPlayer::seeded(2, "c".to_string(), 3),
    ];
    let game = StandardGame::new("random_game".to_string(), LevelFilter::Info, players, true);
    assert_eq!(game.game_id, "random_game");
    assert_eq!(game.no_players(), 3);
}

#[test]
fn seeds_are_fixed_by_the_text() {
    assert_eq!(string_to_seed("Test_0"), string_to_seed("Test_0"));
    assert_ne!(string_to_seed("Test_0"), string_to_seed("Test_1"));
    let mut hasher = std::collections::hash_map::DefaultHasher::new();
    std::hash::Hash::hash("Test_0", &mut hasher);
    assert_eq!(string_to_seed("Test_0"), std::hash::Hasher::finish(&hasher));
    let mut first = StdRng::seed_from_u64(string_to_seed("Test_0"));
    let mut second = StdRng::seed_from_u64(string_to_seed("Test_0"));
    let one = GameState::starting_seeded(6, 0, &mut first);
    let two = GameState::starting_seeded(6, 0, &mut second);
    assert_eq!(one.get_remaining_checks(), two.get_remaining_checks());
}

#[test]
fn workers_look_for_reports_first_and_steal_last() {
    assert_eq!(next_attempt(None), Some(Attempt::OwnPropagation));
    assert_eq!(next_attempt(Some(Attempt::OwnPropagation)), Some(Attempt::OwnTraversal));
    assert_eq!(next_attempt(Some(Attempt::OwnTraversal)), Some(Attempt::StealTraversal));
    assert_eq!(next_attempt(Some(Attempt::StealTraversal)), Some(Attempt::StealPropagation));
    assert_eq!(next_attempt(Some(Attempt::StealPropagation)), None);
}

#[test]
fn jobs_are_told_apart_by_round_and_phase() {
    let state = bidding_state();
    let job = GameStateJob::new(state.clone(), 0, 1, TerminalCondition::RoundEnd(1));
    assert_eq!(traverse(&job), JobKind::Decision);
    let mut over = state.generate_next_state_bid(0, 0);
    over = over.generate_next_state_bid(1, 0);
    let leaf = job.child(over.clone());
    assert_eq!(leaf.root_round_no, 0);
    assert_eq!(leaf.root_turn_no, 1);
    assert_eq!(traverse(&leaf), JobKind::Leaf);
    let far = GameStateJob::new(over.clone(), 0, 1, TerminalCondition::RoundEnd(2));
    assert_eq!(traverse(&far), JobKind::Chance);
    let selling = GameStateJob::new(sale_state(), 0, 1, TerminalCondition::RoundEnd(9));
    assert_eq!(traverse(&selling), JobKind::Decision);
    let mut sale = sale_state();
    let sold = sale.manual_next_state_sell(vec![5, 7, 30]);
    let sold_job = GameStateJob::new(sold, 0, 1, TerminalCondition::RoundEnd(9));
    assert_eq!(traverse(&sold_job), JobKind::Leaf);
    let entry = get_score(&leaf);
    assert_eq!(entry.score, NaiveRoundScore::round_score_function(&over));
    assert_eq!(entry.remaining_children, 0);
    let task = Task::Traverse(far);
    assert!(matches!(task, Task::Traverse(_)));
    assert!(matches!(Task::Propagate(entry), Task::Propagate(_)));
}

#[test]
fn deepening_makes_one_job_for_every_child() {
    let state = bidding_state();
    let job = GameStateJob::new(state.clone(), 0, 1, TerminalCondition::RoundEnd(1));
    let (jobs, entry) = deepen_standard(&job);
    assert_eq!(jobs.len(), 29);
    assert_eq!(entry.remaining_children, 29);
    assert_eq!(entry.score, vec![i64::MIN; 3]);
    assert_eq!(jobs[0].game_state.get_path_encoding(), "|O|R30:29:28|0P0");
    assert_eq!(jobs[28].game_state.get_path_encoding(), "|O|R30:29:28|28P0");
    let mut over = state.generate_next_state_bid(0, 0);
    over = over.generate_next_state_bid(1, 0);
    let pause = GameStateJob::new(over, 0, 1, TerminalCondition::RoundEnd(2));
    let mut rng = StdRng::seed_from_u64(4);
    let (reveals, node) = deepen_auction_end(&pause, true, 3, &mut rng);
    assert_eq!(reveals.len(), 3);
    assert_eq!(node.remaining_children, 3);
    for reveal in reveals.iter() {
        assert_eq!(reveal.game_state.auction_properties_remaining(), 3);
        assert_eq!(reveal.game_state.get_parent_encoding(), pause.game_state.get_path_encoding());
    }
    let empty = GameStateJob::new(
        GameState::starting_with_decks(3, 0, vec![1, 2], check_deck()),
        0,
        1,
        TerminalCondition::RoundEnd(2),
    );
    let (none, dead) = deepen_auction_end(&empty, false, 0, &mut rng);
    assert_eq!(none.len(), 0);
    assert_eq!(dead.remaining_children, 0);
}
