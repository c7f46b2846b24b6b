//! The pieces of the search that many workers share: the jobs that they
//! pass around, what a worker does with a job, and where a worker looks
//! for the next one. Threads, queues and the shared table are the
//! caller's; every decision is made here.

use crate::bindings::subsets::subsets_of;
use crate::engines::algorithms::game_value::bid_children;
use crate::engines::algorithms::score_node::{Outcome, ScoreMaxN, ScoreView};
use crate::engines::algorithms::search_model::{bidding, lemma_can_bid};
use crate::engines::scorers::naive_round_score::{round_scores, NaiveRoundScore};
use crate::models::enums::GamePhase;
use crate::models::game_state::GameState;
use crate::models::state_view::GameStateView;
use rand::rngs::StdRng;
use vstd::prelude::*;

verus! {

/// Where a search stops.
#[derive(Copy, Clone, Debug, PartialEq, Eq, Structural)]
pub enum TerminalCondition {
    /// At the end of the round that is this many rounds after the root's.
    RoundEnd(u8),
}

/// A state to expand, with what a worker needs to know of the search that
/// it belongs to.
pub struct GameStateJob {
    pub game_state: GameState,
    pub root_round_no: u8,
    pub root_turn_no: u32,
    pub terminal_condition: TerminalCondition,
}

/// What a worker can be given to do.
pub enum Task {
    /// Expand a state.
    Traverse(GameStateJob),
    /// Report a node's score to its parent.
    Propagate(ScoreMaxN),
}

/// What a state is to the search.
#[derive(Copy, Clone, Debug, PartialEq, Eq, Structural)]
pub enum JobKind {
    /// The search stops here: the state is scored as it stands.
    Leaf,
    /// A batch is to be revealed: the children are the batches.
    Chance,
    /// A player is to bid: the children are the bids.
    Decision,
}

/// What follows a report to a node.
#[derive(Copy, Clone, Debug, PartialEq, Eq, Structural)]
pub enum ReportStep {
    /// The node waits for more children: nothing follows.
    Rest,
    /// The root is done: the search is over.
    Finish,
    /// The node is done: its score goes on to its parent, and where `evict`
    /// is set, its entry leaves the table first.
    Pass { evict: bool },
}

/// What follows a report with the given outcome, to a node that is the
/// root of the search or is not.
pub open spec fn step_after(outcome: Outcome, at_root: bool) -> ReportStep {
    match outcome {
        Outcome::Waiting => ReportStep::Rest,
        Outcome::Done { evict } => if at_root {
            ReportStep::Finish
        } else {
            ReportStep::Pass { evict }
        },
    }
}

/// Where a worker looks for a task.
#[derive(Copy, Clone, Debug, PartialEq, Eq, Structural)]
pub enum Attempt {
    OwnPropagation,
    OwnTraversal,
    StealTraversal,
    StealPropagation,
}

/// What a state is to a search with the given root and bound: a leaf once
/// the round is over and the bound is reached or the second phase has
/// begun, a chance node once the round is over otherwise, a decision while
/// an auction is under way.
pub open spec fn job_kind(
    s: GameStateView,
    root_round_no: u8,
    terminal_condition: TerminalCondition,
) -> JobKind {
    match terminal_condition {
        TerminalCondition::RoundEnd(search_depth) => {
            if s.auction_end() {
                if s.round_no == root_round_no + search_depth || s.game_phase == GamePhase::Sell {
                    JobKind::Leaf
                } else {
                    JobKind::Chance
                }
            } else {
                JobKind::Decision
            }
        },
    }
}

/// Where a worker looks after `last` has found nothing: its own reports
/// come first, then its own states, then the states of others, then their
/// reports; after that the worker rests.
pub open spec fn attempt_after(last: Option<Attempt>) -> Option<Attempt> {
    match last {
        None => Some(Attempt::OwnPropagation),
        Some(Attempt::OwnPropagation) => Some(Attempt::OwnTraversal),
        Some(Attempt::OwnTraversal) => Some(Attempt::StealTraversal),
        Some(Attempt::StealTraversal) => Some(Attempt::StealPropagation),
        Some(Attempt::StealPropagation) => None,
    }
}

/// The best of the first `upto` actions, with its score: the action whose
/// outcome scores highest, where `found` has for each action the score of
/// its outcome, if the table has one; of equal ones the first; a fold
/// where no outcome scores above the lowest score.
pub open spec fn best_found(actions: Seq<u8>, found: Seq<Option<i64>>, upto: int) -> (u8, i64)
    decreases upto,
{
    if upto <= 0 {
        (0u8, i64::MIN)
    } else {
        let before = best_found(actions, found, upto - 1);
        if found[upto - 1] is Some && before.1 < found[upto - 1]->0 {
            (actions[upto - 1], found[upto - 1]->0)
        } else {
            before
        }
    }
}

impl GameStateJob {
    /// A job for `game_state` in the search with the given root and bound.
    pub fn new(
        game_state: GameState,
        root_round_no: u8,
        root_turn_no: u32,
        terminal_condition: TerminalCondition,
    ) -> (res: Self)
        ensures
            res.game_state == game_state,
            res.root_round_no == root_round_no,
            res.root_turn_no == root_turn_no,
            res.terminal_condition == terminal_condition,
    {
        GameStateJob { game_state, root_round_no, root_turn_no, terminal_condition }
    }

    /// The job of a child of this job's state.
    pub fn child(&self, game_state: GameState) -> (res: Self)
        ensures
            res.game_state == game_state,
            res.root_round_no == self.root_round_no,
            res.root_turn_no == self.root_turn_no,
            res.terminal_condition == self.terminal_condition,
    {
        GameStateJob {
            game_state,
            root_round_no: self.root_round_no,
            root_turn_no: self.root_turn_no,
            terminal_condition: self.terminal_condition,
        }
    }
}

/// Where a worker looks next for a task, after `last` has found nothing;
/// nowhere once it has looked everywhere.
pub fn next_attempt(last: Option<Attempt>) -> (res: Option<Attempt>)
    ensures
        res == attempt_after(last),
{
    match last {
        None => Some(Attempt::OwnPropagation),
        Some(Attempt::OwnPropagation) => Some(Attempt::OwnTraversal),
        Some(Attempt::OwnTraversal) => Some(Attempt::StealTraversal),
        Some(Attempt::StealTraversal) => Some(Attempt::StealPropagation),
        Some(Attempt::StealPropagation) => None,
    }
}

/// What the state of a job is to the search.
pub fn traverse(job: &GameStateJob) -> (res: JobKind)
    ensures
        res == job_kind(job.game_state@, job.root_round_no, job.terminal_condition),
{
    match job.terminal_condition {
        TerminalCondition::RoundEnd(search_depth) => {
            if job.game_state.auction_end() {
                if job.game_state.round_no() as u16 == job.root_round_no as u16
                    + search_depth as u16 || job.game_state.game_phase() == GamePhase::Sell {
                    JobKind::Leaf
                } else {
                    JobKind::Chance
                }
            } else {
                JobKind::Decision
            }
        },
    }
}

/// What a worker does after a report: it rests while the node waits, ends
/// the search once the root is done, and else hands the node's score on,
/// with the node's entry taken out of the table where the node is far
/// from the root.
pub fn after_report(outcome: Outcome, at_root: bool) -> (res: ReportStep)
    ensures
        res == step_after(outcome, at_root),
{
    match outcome {
        Outcome::Waiting => ReportStep::Rest,
        Outcome::Done { evict } => {
            if at_root {
                ReportStep::Finish
            } else {
                ReportStep::Pass { evict }
            }
        },
    }
}

/// The action to take at the root once the search is done: the best of
/// `actions` by the scores that the table has for their outcomes.
pub fn pick_best(actions: &Vec<u8>, found: &Vec<Option<i64>>) -> (res: u8)
    requires
        actions@.len() == found@.len(),
    ensures
        res == best_found(actions@, found@, actions@.len() as int).0,
{
    let mut best_action: u8 = 0;
    let mut best_score: i64 = i64::MIN;
    let mut i: usize = 0;
    while i < actions.len()
        invariant
            actions@.len() == found@.len(),
            i <= actions@.len(),
            (best_action, best_score) == best_found(actions@, found@, i as int),
        decreases actions@.len() - i,
    {
        match found[i] {
            Some(score) => {
                if best_score < score {
                    best_action = actions[i];
                    best_score = score;
                }
            },
            None => {},
        }
        i += 1;
    }
    best_action
}

/// Whether the leaf of a job gets an entry of its own in the table: a leaf
/// one turn below the root does, so that the root finds the outcome of
/// each of its actions.
pub fn keeps_entry(job: &GameStateJob) -> (res: bool)
    ensures
        res == (job.game_state@.turn_no == job.root_turn_no + 1),
{
    job.root_turn_no < u32::MAX && job.game_state.turn_no() == job.root_turn_no + 1
}

/// The entry of a leaf: the leaf with its score.
pub fn get_score(job: &GameStateJob) -> (res: ScoreMaxN)
    requires
        job.game_state.wf(),
        job.game_state@.auction_end(),
    ensures
        res@ == ScoreView::scored(job.game_state@, round_scores(job.game_state@)),
        res.game_state.wf(),
{
    let score: Vec<i64> = NaiveRoundScore::round_score_function(&job.game_state);
    ScoreMaxN::scored(&job.game_state, score)
}

/// The jobs of the states after each legal bid of the player to move, in
/// the order of the bids, and the entry of the state itself, which waits
/// for as many children.
pub fn deepen_standard(game_state_job: &GameStateJob) -> (res: (Vec<GameStateJob>, ScoreMaxN))
    requires
        game_state_job.game_state.wf(),
        bidding(game_state_job.game_state@),
        game_state_job.game_state@.turn_no < u32::MAX,
        game_state_job.game_state@.round_no < u8::MAX,
    ensures
        res.0@.len() == bid_children(game_state_job.game_state@).len(),
        forall|i: int|
            0 <= i < res.0@.len() ==> (#[trigger] res.0@[i]).game_state@ == bid_children(
                game_state_job.game_state@,
            )[i] && res.0@[i].game_state.wf() && res.0@[i].root_round_no
                == game_state_job.root_round_no && res.0@[i].root_turn_no
                == game_state_job.root_turn_no && res.0@[i].terminal_condition
                == game_state_job.terminal_condition,
        res.1@ == ScoreView::fresh(game_state_job.game_state@, res.0@.len(), 0),
        res.1.game_state.wf(),
{
    let state: &GameState = &game_state_job.game_state;
    let ghost s = state@;
    let mover: u8 = state.current_player();
    let legal_moves: Vec<u8> = state.legal_moves(mover);
    let child_states_count: usize = legal_moves.len();
    let mut jobs: Vec<GameStateJob> = Vec::with_capacity(child_states_count);
    let mut i: usize = 0;
    while i < legal_moves.len()
        invariant
            state.wf(),
            s == state@,
            *state == game_state_job.game_state,
            bidding(s),
            s.turn_no < u32::MAX,
            s.round_no < u8::MAX,
            mover == s.current_decision_player->0,
            legal_moves@ == s.legal_moves_bid(mover),
            i <= legal_moves@.len(),
            jobs@.len() == i,
            forall|k: int|
                0 <= k < i ==> (#[trigger] jobs@[k]).game_state@ == bid_children(s)[k]
                    && jobs@[k].game_state.wf() && jobs@[k].root_round_no
                    == game_state_job.root_round_no && jobs@[k].root_turn_no
                    == game_state_job.root_turn_no && jobs@[k].terminal_condition
                    == game_state_job.terminal_condition,
        decreases legal_moves@.len() - i,
    {
        let action: u8 = legal_moves[i];
        proof {
            assert(s.legal_moves_bid(mover)[i as int] == action);
            lemma_can_bid(s, action);
        }
        let child_state: GameState = state.manual_next_state_bid(mover, action);
        jobs.push(game_state_job.child(child_state));
        i += 1;
    }
    let score = ScoreMaxN::default(state, child_states_count, 0);
    (jobs, score)
}

/// The jobs of the states that a reveal may lead to, and the entry of the
/// state itself, which waits for as many children; no jobs where the deck
/// is too short for a batch. The jobs stand in the order in which a stack
/// gives the states back: the last state first. A state that gets no jobs
/// has nothing to wait for: the caller scores it as it stands.
pub fn deepen_auction_end(
    job: &GameStateJob,
    random_sample: bool,
    n_samples: u32,
    rng: &mut StdRng,
) -> (res: (Vec<GameStateJob>, ScoreMaxN))
    requires
        job.game_state.wf(),
        job.game_state@.auction_end(),
    ensures
        forall|i: int|
            0 <= i < res.0@.len() ==> job.game_state@.reveals_to(
                (#[trigger] res.0@[i]).game_state@,
            ) && res.0@[i].game_state.wf() && res.0@[i].root_round_no == job.root_round_no
                && res.0@[i].root_turn_no == job.root_turn_no && res.0@[i].terminal_condition
                == job.terminal_condition,
        job.game_state@.deck().len() < job.game_state@.n() ==> res.0@.len() == 0,
        job.game_state@.deck().len() >= job.game_state@.n() ==> res.0@.len() == (if random_sample {
            n_samples as nat
        } else {
            subsets_of(job.game_state@.deck(), job.game_state@.no_players as nat).len()
        }),
        !random_sample ==> forall|i: int|
            0 <= i < res.0@.len() ==> (#[trigger] res.0@[i]).game_state@
                == job.game_state@.revealed_with(
                subsets_of(job.game_state@.deck(), job.game_state@.no_players as nat)[res.0@.len()
                    - 1 - i],
            ),
        res.1@ == ScoreView::fresh(job.game_state@, res.0@.len(), 0),
        res.1.game_state.wf(),
{
    let state: &GameState = &job.game_state;
    let mut jobs: Vec<GameStateJob> = Vec::new();
    if state.get_remaining_deck_len() >= state.no_players() as usize {
        let mut chances_leaves: Vec<GameState> = state.reveal_auction_perms(
            random_sample,
            n_samples,
            rng,
        );
        let ghost total = chances_leaves@.len();
        let ghost all = chances_leaves@;
        while chances_leaves.len() > 0
            invariant
                *state == job.game_state,
                jobs@.len() + chances_leaves@.len() == total,
                all.len() == total,
                chances_leaves@ == all.take(chances_leaves@.len() as int),
                forall|i: int|
                    0 <= i < jobs@.len() ==> (#[trigger] jobs@[i]).game_state == all[total - 1 - i],
                forall|i: int|
                    0 <= i < chances_leaves@.len() ==> (#[trigger] chances_leaves@[i]).wf()
                        && state@.reveals_to(chances_leaves@[i]@),
                forall|i: int|
                    0 <= i < jobs@.len() ==> state@.reveals_to((#[trigger] jobs@[i]).game_state@)
                        && jobs@[i].game_state.wf() && jobs@[i].root_round_no
                        == job.root_round_no && jobs@[i].root_turn_no == job.root_turn_no
                        && jobs@[i].terminal_condition == job.terminal_condition,
            decreases chances_leaves@.len(),
        {
            let ghost left = chances_leaves@.len();
            let child: GameState = chances_leaves.pop().unwrap();
            jobs.push(job.child(child));
            proof {
                assert(chances_leaves@ =~= all.take(left - 1));
                assert(child == all[left - 1]);
            }
        }
    }
    let score = ScoreMaxN::default(state, jobs.len(), 0);
    (jobs, score)
}

} // verus!
