use auction_game::engines::algorithms::maxn_player::MaxNPlayer;
use auction_game::engines::algorithms::maxn_player_multi::{
    after_report, deepen_auction_end, deepen_standard, get_score, keeps_entry, next_attempt,
    pick_best, traverse, Attempt, GameStateJob, JobKind, ReportStep, Task, TerminalCondition,
};
use auction_game::engines::algorithms::score_node::{Outcome, ScoreMaxN};
use auction_game::models::game_state::GameState;
use crossbeam::scope;
use crossbeam::utils::Backoff;
use crossbeam_deque::{Stealer, Worker};
use dashmap::DashMap;
use rand::rngs::StdRng;
use rand::SeedableRng;
use std::sync::atomic::AtomicBool;
use std::sync::atomic::Ordering::SeqCst;
use std::sync::mpsc::{self, Receiver, Sender};
use std::sync::Arc;

struct Search {
    scores: DashMap<String, ScoreMaxN>,
    done: AtomicBool,
    root_key: String,
    root_turn: u32,
}

fn copy_of(node: &ScoreMaxN) -> ScoreMaxN {
    ScoreMaxN::scored(&node.game_state, node.score.clone())
}

/// One report: under the lock of the parent's entry the score is taken
/// in, and whether the parent is done with it is learned.
fn report_once(search: &Search, node: ScoreMaxN) -> Option<ScoreMaxN> {
    let parent_key = node.game_state.get_parent_encoding();
    let finished = {
        let mut parent = search.scores.get_mut(&parent_key).expect("a parent that is in the table");
        assert!(parent.remaining_children >= 1);
        let outcome = parent.take_report(&node.score, search.root_turn);
        (after_report(outcome, parent_key == search.root_key), copy_of(&parent))
    };
    match finished {
        (ReportStep::Rest, _) => None,
        (ReportStep::Finish, _) => {
            search.done.store(true, SeqCst);
            None
        }
        (ReportStep::Pass { evict }, done) => {
            if evict {
                search.scores.remove(&parent_key);
            }
            Some(done)
        }
    }
}

fn find_task(
    traverser: &Worker<GameStateJob>,
    propagator: &Worker<ScoreMaxN>,
    traverser_stealers: &[Stealer<GameStateJob>],
    propagator_stealers: &[Stealer<ScoreMaxN>],
) -> Option<Task> {
    let mut attempt = next_attempt(None);
    while let Some(place) = attempt {
        let found = match place {
            Attempt::OwnPropagation => propagator.pop().map(Task::Propagate),
            Attempt::OwnTraversal => traverser.pop().map(Task::Traverse),
            Attempt::StealTraversal => {
                traverser_stealers.iter().find_map(|s| s.steal().success()).map(Task::Traverse)
            }
            Attempt::StealPropagation => {
                propagator_stealers.iter().find_map(|s| s.steal().success()).map(Task::Propagate)
            }
        };
        if found.is_some() {
            return found;
        }
        attempt = next_attempt(Some(place));
    }
    None
}

fn work(
    search: Arc<Search>,
    traverser: Worker<GameStateJob>,
    propagator: Worker<ScoreMaxN>,
    traverser_stealers: Vec<Stealer<GameStateJob>>,
    propagator_stealers: Vec<Stealer<ScoreMaxN>>,
    leaves: Sender<GameStateJob>,
    seed: u64,
) {
    let mut rng = StdRng::seed_from_u64(seed);
    let pause = Backoff::new();
    while !search.done.load(SeqCst) {
        match find_task(&traverser, &propagator, &traverser_stealers, &propagator_stealers) {
            Some(Task::Propagate(node)) => {
                if let Some(done) = report_once(&search, node) {
                    propagator.push(done);
                }
            }
            Some(Task::Traverse(job)) => match traverse(&job) {
                JobKind::Leaf => leaves.send(job).expect("a consumer that listens"),
                JobKind::Chance => {
                    let (children, node) = deepen_auction_end(&job, true, 1, &mut rng);
                    if children.is_empty() {
                        leaves.send(job).expect("a consumer that listens");
                        continue;
                    }
                    search.scores.insert(job.game_state.get_path_encoding(), node);
                    for child in children {
                        traverser.push(child);
                    }
                }
                JobKind::Decision => {
                    let (children, node) = deepen_standard(&job);
                    search.scores.insert(job.game_state.get_path_encoding(), node);
                    for child in children {
                        traverser.push(child);
                    }
                }
            },
            None => pause.snooze(),
        }
    }
    while propagator.pop().is_some() {}
    while traverser.pop().is_some() {}
}

fn score_leaves(search: Arc<Search>, leaves: Receiver<GameStateJob>) {
    while let Ok(job) = leaves.recv() {
        if search.done.load(SeqCst) {
            continue;
        }
        let leaf = get_score(&job);
        if keeps_entry(&job) {
            search.scores.insert(job.game_state.get_path_encoding(), copy_of(&leaf));
        }
        let mut next = report_once(&search, leaf);
        while let Some(done) = next {
            next = report_once(&search, done);
        }
    }
}

fn parallel_best_move(root: &GameState, rounds: u8, workers: usize) -> (u8, Vec<Option<Vec<i64>>>) {
    let root_job = GameStateJob::new(
        root.clone(),
        root.round_no(),
        root.turn_no(),
        TerminalCondition::RoundEnd(rounds),
    );
    let (first_jobs, root_node) = deepen_standard(&root_job);
    let search = Arc::new(Search {
        scores: DashMap::new(),
        done: AtomicBool::new(false),
        root_key: root.get_path_encoding(),
        root_turn: root.turn_no(),
    });
    search.scores.insert(root.get_path_encoding(), root_node);
    let traversers: Vec<Worker<GameStateJob>> = (0..workers).map(|_| Worker::new_lifo()).collect();
    let propagators: Vec<Worker<ScoreMaxN>> = (0..workers).map(|_| Worker::new_lifo()).collect();
    for job in first_jobs {
        traversers[0].push(job);
    }
    let (tx, rx) = mpsc::channel::<GameStateJob>();
    let traverser_stealers: Vec<Stealer<GameStateJob>> =
        traversers.iter().map(|w| w.stealer()).collect();
    let propagator_stealers: Vec<Stealer<ScoreMaxN>> =
        propagators.iter().map(|w| w.stealer()).collect();
    scope(|s| {
        let consumer = Arc::clone(&search);
        s.spawn(move |_| score_leaves(consumer, rx));
        for (i, (traverser, propagator)) in traversers.into_iter().zip(propagators).enumerate() {
        let others_t: Vec<Stealer<GameStateJob>> = traverser_stealers
            .iter()
            .enumerate()
            .filter(|(j, _)| *j != i)
            .map(|(_, s)| s.clone())
            .collect();
        let others_p: Vec<Stealer<ScoreMaxN>> = propagator_stealers
            .iter()
            .enumerate()
            .filter(|(j, _)| *j != i)
            .map(|(_, s)| s.clone())
            .collect();
        let shared = Arc::clone(&search);
        let leaves = tx.clone();
        s.spawn(move |_| {
            work(shared, traverser, propagator, others_t, others_p, leaves, i as u64)
        });
        }
        drop(tx);
    })
    .expect("workers that end");
    let mover = root.current_player();
    let actions = root.legal_moves(mover);
    let mut found = Vec::new();
    let mut kept = Vec::new();
    for action in &actions {
        let child = root.manual_next_state_bid(mover, *action);
        let entry = search.scores.get(&child.get_path_encoding()).map(|n| n.score.clone());
        found.push(entry.as_ref().map(|score| score[mover as usize]));
        kept.push(entry);
    }
    (pick_best(&actions, &found), kept)
}

fn late_round_state() -> GameState {
    let checks: Vec<u8> = vec![
        0, 0, 2, 2, 3, 3, 4, 4, 5, 5, 6, 6, 7, 7, 8, 8, 9, 9, 10, 10, 11, 11, 12, 12, 13, 13, 14,
        14, 15, 15,
    ];
    let mut state = GameState::starting_with_decks(6, 0, (1..=30).collect(), checks);
    state.reveal_auction_manual(vec![1, 2, 3, 4, 5, 30]);
    state = state.generate_next_state_bid(0, 9);
    state = state.generate_next_state_bid(1, 0);
    state = state.generate_next_state_bid(2, 0);
    state = state.generate_next_state_bid(3, 0);
    state = state.generate_next_state_bid(4, 0);
    state
}

#[test]
fn one_worker_finds_what_the_sequential_search_finds() {
    let root = late_round_state();
    let mut sequential = MaxNPlayer::seeded(5, "S".to_string(), false, false, 1);
    let expected = sequential.maximax_round(&root, 1, false, 0);
    let (found, kept) = parallel_best_move(&root, 1, 1);
    assert_eq!(found, expected);
    let mover = root.current_player();
    for (action, entry) in root.legal_moves(mover).into_iter().zip(kept) {
        let child = root.manual_next_state_bid(mover, action);
        assert_eq!(entry, sequential.score_of(&child.get_path_encoding()));
    }
}

#[test]
fn many_workers_score_every_bid_of_the_mover() {
    let root = late_round_state();
    let (found, kept) = parallel_best_move(&root, 1, 4);
    assert!(root.legal_moves(5).contains(&found));
    assert!(kept.iter().all(|entry| entry.is_some()));
    let folded = root.manual_next_state_bid(5, 0);
    assert_eq!(kept[0], Some(get_score(&GameStateJob::new(
        folded,
        root.round_no(),
        root.turn_no(),
        TerminalCondition::RoundEnd(1),
    )).score));
}

#[test]
fn pick_best_takes_the_first_of_the_highest_scores() {
    assert_eq!(pick_best(&vec![0, 3, 4, 5], &vec![Some(-5), Some(7), None, Some(7)]), 3);
    assert_eq!(pick_best(&vec![0, 3], &vec![None, None]), 0);
    assert_eq!(pick_best(&vec![0, 3], &vec![Some(i64::MIN), Some(i64::MIN)]), 0);
    assert_eq!(pick_best(&vec![0, 2, 9], &vec![Some(1), Some(2), Some(3)]), 9);
}

#[test]
fn a_leaf_one_turn_below_the_root_keeps_its_entry() {
    let root = GameState::starting_with_decks(3, 0, (1..=9).collect(), Vec::new());
    let mut state = root.clone();
    state.reveal_auction();
    let turn = state.turn_no();
    let child = state.manual_next_state_bid(0, 0);
    let near = GameStateJob::new(child.clone(), 0, turn, TerminalCondition::RoundEnd(1));
    assert!(keeps_entry(&near));
    let far = GameStateJob::new(child, 0, turn + 5, TerminalCondition::RoundEnd(1));
    assert!(!keeps_entry(&far));
    let same = GameStateJob::new(state, 0, turn, TerminalCondition::RoundEnd(1));
    assert!(!keeps_entry(&same));
}

#[test]
fn after_a_report_a_worker_rests_ends_the_search_or_hands_the_score_on() {
    assert_eq!(after_report(Outcome::Waiting, false), ReportStep::Rest);
    assert_eq!(after_report(Outcome::Waiting, true), ReportStep::Rest);
    assert_eq!(after_report(Outcome::Done { evict: false }, true), ReportStep::Finish);
    assert_eq!(after_report(Outcome::Done { evict: true }, true), ReportStep::Finish);
    assert_eq!(
        after_report(Outcome::Done { evict: true }, false),
        ReportStep::Pass { evict: true }
    );
    assert_eq!(
        after_report(Outcome::Done { evict: false }, false),
        ReportStep::Pass { evict: false }
    );
}
