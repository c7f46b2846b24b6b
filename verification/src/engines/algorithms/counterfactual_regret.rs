//! The solver for the sale, in which all players move at once: regret
//! matching in the manner of CFR+, which never lets a regret fall below
//! zero.

use crate::bindings::hash_map::{
    solver_entries, solver_get, solver_insert, solver_remove, solver_with_capacity,
};
use crate::bindings::move_map::{move_pairs, moves_get_by_left, moves_insert, moves_with_capacity};
use crate::bindings::random::{seeded_rng};
use crate::helper::generation::fresh_rng;
use crate::engines::constants::SCORE_UNIT;
use crate::engines::scorers::naive_round_score::{round_scores, NaiveRoundScore};
use crate::engines::utils::{
    averaged, bounded_weights, is_strategy, matched, mixed, mixed_strategy_score, non_negative, normalize, pick,
    sample_strategy, sum, update_average,
};
use crate::models::enums::{GamePhase, Player};
use crate::models::game_state::GameState;
use crate::models::state_view::GameStateView;
use ahash::AHashMap;
use bimap::BiHashMap;
use rand::rngs::StdRng;
use vstd::prelude::*;

verus! {

/// `x`, or the nearest score where `x` is none.
pub open spec fn clamped(x: int) -> i64 {
    if x > i64::MAX {
        i64::MAX
    } else if x < i64::MIN {
        i64::MIN
    } else {
        x as i64
    }
}

/// What an action has paid beyond the payoff of the strategy as a whole,
/// and 0 where it has paid less.
pub open spec fn gain(payoff: i64, average: int) -> i64 {
    if payoff - average > 0 {
        clamped(payoff - average)
    } else {
        0
    }
}

/// The regrets after a round of play in which place `i` has paid
/// `payoffs[i]` and the strategy as a whole `average`: each regret grows
/// by the gain of its place.
pub open spec fn regrets_after(regret: Seq<i64>, payoffs: Seq<i64>, average: int) -> Seq<i64> {
    Seq::new(regret.len(), |i: int| clamped(regret[i] + gain(payoffs[i], average)))
}

/// A state for which the solver can keep a node: the second phase, and at
/// least one property, and no property twice, in every hand.
pub open spec fn sale_node(s: GameStateView) -> bool {
    &&& s.wf()
    &&& s.game_phase == GamePhase::Sell
    &&& forall|p: int|
        0 <= p < s.n() ==> (#[trigger] s.properties[p]).len() >= 1 && s.properties[p].no_duplicates()
}

/// A state in which a sale can be played: a state for a node, with one
/// check on offer for each player and room in the counters for the sale.
pub open spec fn sale_ready(s: GameStateView) -> bool {
    &&& sale_node(s)
    &&& s.auction_pool.len() == s.n()
    &&& s.turn_no < u32::MAX
    &&& s.round_no < u8::MAX
}

/// As many zeros as `len`.
pub open spec fn zeros(len: nat) -> Seq<i64> {
    Seq::new(len, |i: int| 0i64)
}

/// Whether `node` is a new node for `s`: every player plays every property
/// alike, the regrets start as the strategy, and no strategy has gone
/// into the means.
pub open spec fn fresh_node(node: SolverNode, s: GameStateView) -> bool {
    &&& node.ok(s)
    &&& forall|p: int|
        0 <= p < s.n() ==> (#[trigger] node.strategy@[p])@ == matched(zeros(s.properties[p].len()))
            && node.regret@[p]@ == matched(zeros(s.properties[p].len())) && node.value@[p]@
            == zeros(s.properties[p].len())
}

/// What the solver keeps for a state: for each player the table between
/// the places of the player's actions and the actions, the strategy in
/// play, the regret of each action, and the mean of the strategies played
/// so far.
pub struct SolverNode {
    pub move_map: Vec<BiHashMap<usize, u8>>,
    pub strategy: Vec<Vec<i64>>,
    pub regret: Vec<Vec<i64>>,
    pub value: Vec<Vec<i64>>,
}

/// Whether the table pairs each place of `moves` with the action at that
/// place.
pub open spec fn placed(m: BiHashMap<usize, u8>, moves: Seq<u8>) -> bool {
    forall|i: usize|
        i < moves.len() ==> #[trigger] move_pairs(m).contains_key(i) && move_pairs(m)[i]
            == moves[i as int]
}

impl SolverNode {
    /// What holds of the row of player `p`: one entry for each property
    /// that the player can offer, a strategy that adds up to one whole but
    /// for what rounding takes, no regret below zero, and the property at
    /// each place paired with that place.
    pub open spec fn row_ok(&self, s: GameStateView, p: int) -> bool {
        let moves = s.properties[p];
        &&& self.strategy@[p]@.len() == moves.len()
        &&& is_strategy(self.strategy@[p]@)
        &&& self.regret@[p]@.len() == moves.len()
        &&& non_negative(self.regret@[p]@)
        &&& self.value@[p]@.len() == moves.len()
        &&& placed(self.move_map@[p], moves)
    }

    /// What holds of the first `upto` rows of a node for state `s`.
    pub open spec fn rows_ok(&self, s: GameStateView, upto: int) -> bool {
        &&& self.move_map@.len() == upto
        &&& self.strategy@.len() == upto
        &&& self.regret@.len() == upto
        &&& self.value@.len() == upto
        &&& forall|p: int| 0 <= p < upto ==> #[trigger] self.row_ok(s, p)
    }

    /// What holds of a node for state `s`.
    pub open spec fn ok(&self, s: GameStateView) -> bool {
        self.rows_ok(s, s.n())
    }
}

proof fn lemma_row_ok(node: SolverNode, s: GameStateView, p: int)
    requires
        node.strategy@[p]@.len() == s.properties[p].len(),
        bounded_weights(node.strategy@[p]@),
        sum(node.strategy@[p]@) > SCORE_UNIT - s.properties[p].len(),
        node.regret@[p]@.len() == s.properties[p].len(),
        non_negative(node.regret@[p]@),
        node.value@[p]@.len() == s.properties[p].len(),
        placed(node.move_map@[p], s.properties[p]),
    ensures
        node.row_ok(s, p),
{
}

/// Whether `choices` is a sale in which `player` offers `action` and
/// every player a property of their own.
pub open spec fn offers_with(s: GameStateView, player: int, action: u8, choices: Seq<u8>) -> bool {
    &&& choices.len() == s.n()
    &&& choices[player] == action
    &&& forall|q: int| 0 <= q < s.n() ==> s.properties[q].contains(#[trigger] choices[q])
}

/// Whether `payoff` is what `action` may pay `player`: the player's score
/// after some sale in which the player offers `action`.
pub open spec fn pays(s: GameStateView, player: int, action: u8, payoff: i64) -> bool {
    exists|choices: Seq<u8>| #[trigger]
        offers_with(s, player, action, choices) && payoff == round_scores(
            s.next_sell(choices),
        )[player]
}

/// Whether `payoffs` has, for each property that `player` can offer, what
/// the offer may pay the player.
pub open spec fn payoffs_of(s: GameStateView, player: int, payoffs: Seq<i64>) -> bool {
    &&& payoffs.len() == s.properties[player].len()
    &&& forall|i: int|
        0 <= i < payoffs.len() ==> pays(s, player, s.properties[player][i], #[trigger] payoffs[i])
}

/// Whether the regrets of `player` in `after` are those in `before`, each
/// grown by what its action has gained over the strategy that `before`
/// has in play, for payoffs that the actions may pay.
pub open spec fn regret_stepped(
    before: SolverNode,
    after: SolverNode,
    s: GameStateView,
    player: int,
) -> bool {
    exists|payoffs: Seq<i64>| #[trigger]
        payoffs_of(s, player, payoffs) && after.regret@[player]@ == regrets_after(
            before.regret@[player]@,
            payoffs,
            mixed(before.strategy@[player]@, payoffs),
        )
}

/// Whether the row of `player` in `after` is what one round of regret
/// matching, the `count`-th, makes of the row in `before`: the regrets
/// have grown, the strategy is matched to the new regrets, and the mean of
/// the strategies has taken the new strategy in.
pub open spec fn row_stepped(
    before: SolverNode,
    after: SolverNode,
    s: GameStateView,
    player: int,
    count: int,
) -> bool {
    &&& regret_stepped(before, after, s, player)
    &&& after.strategy@[player]@ == matched(after.regret@[player]@)
    &&& after.value@[player]@ == averaged(
        before.value@[player]@,
        after.strategy@[player]@,
        count,
    )
}

/// Whether `after` is what one round of regret matching, the `count`-th,
/// makes of `before`: every row has made its step, and the actions stand
/// at their places as before.
pub open spec fn stepped(before: SolverNode, after: SolverNode, s: GameStateView, count: int) -> bool {
    &&& after.ok(s)
    &&& after.move_map@ == before.move_map@
    &&& forall|p: int| 0 <= p < s.n() ==> #[trigger] row_stepped(before, after, s, p, count)
}

/// Whether the row of `player` is the same in both nodes.
pub open spec fn row_same(before: SolverNode, after: SolverNode, player: int) -> bool {
    &&& after.regret@[player] == before.regret@[player]
    &&& after.strategy@[player] == before.strategy@[player]
    &&& after.value@[player] == before.value@[player]
}

/// Whether the rows of `after` from `from` on are those of `before`.
pub open spec fn rows_kept(before: SolverNode, after: SolverNode, s: GameStateView, from: int) -> bool {
    forall|p: int| from <= p < s.n() ==> #[trigger] row_same(before, after, p)
}

/// A node stays one for its state when one row gets a strategy, regrets
/// that are not below zero and a mean of the right length, and the other
/// rows stay as they are.
proof fn lemma_node_ok(before: SolverNode, after: SolverNode, s: GameStateView, u: int)
    requires
        before.ok(s),
        0 <= u < s.n(),
        after.move_map@ == before.move_map@,
        after.strategy@.len() == s.n(),
        after.regret@.len() == s.n(),
        after.value@.len() == s.n(),
        forall|p: int| 0 <= p < s.n() && p != u ==> #[trigger] row_same(before, after, p),
        after.strategy@[u]@.len() == s.properties[u].len(),
        bounded_weights(after.strategy@[u]@),
        sum(after.strategy@[u]@) > SCORE_UNIT - s.properties[u].len(),
        after.regret@[u]@.len() == s.properties[u].len(),
        non_negative(after.regret@[u]@),
        after.value@[u]@.len() == s.properties[u].len(),
    ensures
        after.ok(s),
{
    assert forall|p: int| 0 <= p < s.n() implies #[trigger] after.row_ok(s, p) by {
        assert(before.row_ok(s, p));
        assert(after.move_map@[p] == before.move_map@[p]);
        if p != u {
            assert(row_same(before, after, p));
        }
        lemma_row_ok(after, s, p);
    }
}

/// After the row of player `u` has made its step, the rows up to it have
/// made theirs, and the rows behind it are as at the start.
proof fn lemma_rows_after(
    start: SolverNode,
    before: SolverNode,
    after: SolverNode,
    s: GameStateView,
    u: int,
    count: int,
    whole: bool,
)
    requires
        0 <= u < s.n(),
        rows_kept(start, before, s, u),
        forall|p: int| 0 <= p < u ==> #[trigger] regret_stepped(start, before, s, p),
        whole ==> forall|p: int| 0 <= p < u ==> #[trigger] row_stepped(start, before, s, p, count),
        forall|p: int| 0 <= p < s.n() && p != u ==> #[trigger] row_same(before, after, p),
        regret_stepped(before, after, s, u),
        whole ==> row_stepped(before, after, s, u, count),
        !whole ==> after.strategy@[u] == before.strategy@[u] && after.value@[u]
            == before.value@[u],
    ensures
        rows_kept(start, after, s, u + 1),
        forall|p: int| 0 <= p < u + 1 ==> #[trigger] regret_stepped(start, after, s, p),
        whole ==> forall|p: int|
            0 <= p < u + 1 ==> #[trigger] row_stepped(start, after, s, p, count),
{
    assert(row_same(start, before, u));
    assert forall|p: int| u + 1 <= p < s.n() implies #[trigger] row_same(start, after, p) by {
        assert(row_same(start, before, p));
        assert(row_same(before, after, p));
    }
    assert forall|p: int| 0 <= p < u + 1 implies #[trigger] regret_stepped(start, after, s, p) by {
        if p < u {
            assert(regret_stepped(start, before, s, p));
            assert(row_same(before, after, p));
        }
    }
    if whole {
        assert forall|p: int| 0 <= p < u + 1 implies #[trigger] row_stepped(
            start,
            after,
            s,
            p,
            count,
        ) by {
            if p < u {
                assert(row_stepped(start, before, s, p, count));
                assert(row_same(before, after, p));
            }
        }
    }
}

/// After the strategy of player `u` has been matched to the regrets, the
/// rows up to it have made their steps, and the strategies behind it are
/// as at the start.
proof fn lemma_rows_matched(
    start: SolverNode,
    before: SolverNode,
    after: SolverNode,
    s: GameStateView,
    u: int,
    count: int,
)
    requires
        0 <= u < s.n(),
        after.regret@ == before.regret@,
        forall|p: int| 0 <= p < s.n() ==> #[trigger] regret_stepped(start, before, s, p),
        forall|p: int| 0 <= p < u ==> #[trigger] row_stepped(start, before, s, p, count),
        forall|p: int|
            u <= p < s.n() ==> (#[trigger] before.strategy@[p]) == start.strategy@[p]
                && before.value@[p] == start.value@[p],
        forall|p: int|
            0 <= p < s.n() && p != u ==> (#[trigger] after.strategy@[p]) == before.strategy@[p]
                && after.value@[p] == before.value@[p],
        after.strategy@[u]@ == matched(after.regret@[u]@),
        after.value@[u]@ == averaged(before.value@[u]@, after.strategy@[u]@, count),
    ensures
        forall|p: int| 0 <= p < s.n() ==> #[trigger] regret_stepped(start, after, s, p),
        forall|p: int| 0 <= p < u + 1 ==> #[trigger] row_stepped(start, after, s, p, count),
        forall|p: int|
            u + 1 <= p < s.n() ==> (#[trigger] after.strategy@[p]) == start.strategy@[p]
                && after.value@[p] == start.value@[p],
{
    assert forall|p: int| 0 <= p < s.n() implies #[trigger] regret_stepped(start, after, s, p) by {
        assert(regret_stepped(start, before, s, p));
    }
    assert forall|p: int| 0 <= p < u + 1 implies #[trigger] row_stepped(
        start,
        after,
        s,
        p,
        count,
    ) by {
        assert(regret_stepped(start, after, s, p));
        if p < u {
            assert(row_stepped(start, before, s, p, count));
            assert(after.strategy@[p] == before.strategy@[p]);
        } else {
            assert(before.strategy@[u] == start.strategy@[u]);
        }
    }
    assert forall|p: int| u + 1 <= p < s.n() implies (#[trigger] after.strategy@[p])
        == start.strategy@[p] && after.value@[p] == start.value@[p] by {
        assert(before.strategy@[p] == start.strategy@[p]);
        assert(after.strategy@[p] == before.strategy@[p]);
    }
}

/// Whether the node after place `i` of `nodes` is what the round of regret
/// matching after `i` rounds makes of the node at place `i`.
pub open spec fn step_at(nodes: Seq<SolverNode>, s: GameStateView, i: int) -> bool {
    stepped(nodes[i], nodes[i + 1], s, i + 1)
}

/// Whether `nodes` are the nodes of a run of `rounds` rounds of regret
/// matching on `s`: the node before the first round, then the node after
/// each round, the last of them `last`.
pub open spec fn run_of(nodes: Seq<SolverNode>, last: SolverNode, s: GameStateView, rounds: int) -> bool {
    &&& nodes.len() == rounds + 1
    &&& nodes.last() == last
    &&& forall|i: int| 0 <= i < rounds ==> #[trigger] step_at(nodes, s, i)
}

/// Decides where a solver stops.
pub trait Terminator {
    /// Whether the solver stops at `node`.
    spec fn terminal(&self, node: GameStateView) -> bool;

    /// Whether the solver stops at `node`.
    fn is_terminal(&self, node: &GameState) -> (res: bool)
        ensures
            res == self.terminal(node@),
    ;
}

/// A bound on how far a solver looks: a round or a turn that it does not
/// go beyond.
pub struct TerminalNode {
    initial_node: GameState,
    terminal_round: Option<u8>,
    terminal_turn: Option<u32>,
}

impl TerminalNode {
    /// The round that bounds the solver, if one does.
    pub closed spec fn round_bound(&self) -> Option<u8> {
        self.terminal_round
    }

    /// The turn that bounds the solver, if one does.
    pub closed spec fn turn_bound(&self) -> Option<u32> {
        self.terminal_turn
    }

    /// A bound of `no_search_turns` turns from `initial_node` on.
    pub fn turn_terminator(initial_node: &GameState, no_search_turns: u32) -> (res: Self)
        requires
            initial_node@.turn_no + no_search_turns <= u32::MAX,
        ensures
            res.round_bound() is None,
            res.turn_bound() == Some((initial_node@.turn_no + no_search_turns) as u32),
    {
        TerminalNode {
            initial_node: initial_node.clone(),
            terminal_round: None,
            terminal_turn: Some(initial_node.turn_no() + no_search_turns),
        }
    }

    /// A bound of `no_search_rounds` rounds from `initial_node` on.
    pub fn round_terminator(initial_node: &GameState, no_search_rounds: u8) -> (res: Self)
        requires
            initial_node@.round_no + no_search_rounds <= u8::MAX,
        ensures
            res.round_bound() == Some((initial_node@.round_no + no_search_rounds) as u8),
            res.turn_bound() is None,
    {
        TerminalNode {
            initial_node: initial_node.clone(),
            terminal_round: Some(initial_node.round_no() + no_search_rounds),
            terminal_turn: None,
        }
    }
}

impl Terminator for TerminalNode {
    /// A state is beyond the bound once its round, or else its turn, has
    /// reached it.
    open spec fn terminal(&self, node: GameStateView) -> bool {
        if self.round_bound() is Some {
            node.round_no >= self.round_bound()->0
        } else if self.turn_bound() is Some {
            node.turn_no >= self.turn_bound()->0
        } else {
            false
        }
    }

    /// Whether the solver stops at `node`.
    fn is_terminal(&self, node: &GameState) -> (res: bool) {
        if let Some(value) = self.terminal_round {
            node.round_no() >= value
        } else if let Some(value) = self.terminal_turn {
            node.turn_no() >= value
        } else {
            false
        }
    }
}

/// No bound: the solver never stops of itself.
pub struct Unbounded {}

impl Terminator for Unbounded {
    /// An unbounded solver stops nowhere.
    open spec fn terminal(&self, node: GameStateView) -> bool {
        false
    }

    /// Whether the solver stops at `node`.
    fn is_terminal(&self, node: &GameState) -> (res: bool) {
        false
    }
}

/// Adds to each regret the gain of its place, where the places have paid
/// `payoffs` and the strategy in play pays their weighted mean.
pub fn regret_step(regret: &mut Vec<i64>, strategy: &Vec<i64>, payoffs: &Vec<i64>)
    requires
        old(regret)@.len() == payoffs@.len(),
        strategy@.len() == payoffs@.len(),
        bounded_weights(strategy@),
        non_negative(old(regret)@),
    ensures
        final(regret)@ == regrets_after(old(regret)@, payoffs@, mixed(strategy@, payoffs@)),
        non_negative(final(regret)@),
{
    let average_score: i64 = mixed_strategy_score(strategy, payoffs);
    let mut i: usize = 0;
    while i < regret.len()
        invariant
            regret@.len() == old(regret)@.len(),
            regret@.len() == payoffs@.len(),
            non_negative(old(regret)@),
            i <= regret@.len(),
            average_score == mixed(strategy@, payoffs@),
            forall|j: int|
                0 <= j < i ==> regret@[j] == regrets_after(
                    old(regret)@,
                    payoffs@,
                    average_score as int,
                )[j],
            forall|j: int| i <= j < regret@.len() ==> regret@[j] == old(regret)@[j],
            forall|j: int| 0 <= j < i ==> regret@[j] >= 0,
        decreases regret@.len() - i,
    {
        let lead: i128 = payoffs[i] as i128 - average_score as i128;
        let won: i128 = if lead > 0 {
            if lead > i64::MAX as i128 {
                i64::MAX as i128
            } else {
                lead
            }
        } else {
            0
        };
        assert(old(regret)@[i as int] >= 0);
        let grown: i128 = regret[i] as i128 + won;
        let kept: i64 = if grown > i64::MAX as i128 {
            i64::MAX
        } else {
            grown as i64
        };
        regret.set(i, kept);
        i += 1;
    }
    proof {
        assert(regret@ =~= regrets_after(old(regret)@, payoffs@, average_score as int));
        assert forall|j: int| 0 <= j < regret@.len() implies #[trigger] regret@[j] >= 0 by {}
    }
}

/// The solver: a table of nodes by the key of their state, and the source
/// of the draws.
pub struct CFR<T: Terminator> {
    nodes: AHashMap<String, SolverNode>,
    buffer: Vec<GameState>,
    terminator: T,
    alternating_update: bool,
    rng: StdRng,
}

impl<T: Terminator> CFR<T> {
    /// The nodes that the solver keeps.
    pub closed spec fn table(&self) -> Map<Seq<char>, SolverNode> {
        solver_entries(self.nodes)
    }

    /// The states handed to the solver and not yet solved.
    pub closed spec fn pending(&self) -> Seq<GameState> {
        self.buffer@
    }

    /// The bound that the solver was made with.
    pub closed spec fn bound(&self) -> T {
        self.terminator
    }

    /// Whether each player's strategy is matched to the regrets right
    /// after the player's own turn of an iteration, and not only once all
    /// have had theirs.
    pub closed spec fn alternating(&self) -> bool {
        self.alternating_update
    }

    /// A solver that draws from the system's entropy, or from a fixed seed
    /// where the system gives none.
    pub fn new(terminator: T, alternating_update: bool) -> (res: Self)
        ensures
            (res.table() == Map::<Seq<char>, SolverNode>::empty()),
            res.pending().len() == 0,
            res.bound() == terminator,
            res.alternating() == alternating_update,
    {
        CFR {
            nodes: solver_with_capacity(1),
            buffer: Vec::with_capacity(1000),
            terminator,
            alternating_update,
            rng: fresh_rng(),
        }
    }

    /// A solver whose draws are fixed by `seed`.
    pub fn seeded(terminator: T, alternating_update: bool, seed: u64) -> (res: Self)
        ensures
            (res.table() == Map::<Seq<char>, SolverNode>::empty()),
            res.pending().len() == 0,
            res.bound() == terminator,
            res.alternating() == alternating_update,
    {
        CFR {
            nodes: solver_with_capacity(1),
            buffer: Vec::with_capacity(1000),
            terminator,
            alternating_update,
            rng: seeded_rng(seed),
        }
    }

    /// Makes the node of a state: every action of a player as likely as
    /// any other, with a regret to match, and each action paired with its
    /// place.
    pub fn initialise_node(&mut self, game_state: &GameState)
        requires
            game_state.wf(),
            sale_node(game_state@),
        ensures
            final(self).table() == old(self).table().insert(
                game_state@.path_encoding,
                final(self).table()[game_state@.path_encoding],
            ),
            fresh_node(final(self).table()[game_state@.path_encoding], game_state@),
            final(self).pending() == old(self).pending(),
            final(self).bound() == old(self).bound(),
            final(self).alternating() == old(self).alternating(),
    {
        let ghost s = game_state@;
        let path: String = game_state.get_path_encoding();
        let no_players: u8 = game_state.no_players();
        let mut node = SolverNode {
            move_map: Vec::with_capacity(no_players as usize),
            strategy: Vec::with_capacity(no_players as usize),
            regret: Vec::with_capacity(no_players as usize),
            value: Vec::with_capacity(no_players as usize),
        };
        let mut player: u8 = 0;
        while player < no_players
            invariant
                game_state.wf(),
                s == game_state@,
                sale_node(s),
                no_players == s.no_players,
                player <= no_players,
                node.rows_ok(s, player as int),
                forall|p: int|
                    0 <= p < player ==> (#[trigger] node.strategy@[p])@ == matched(
                        zeros(s.properties[p].len()),
                    ) && node.regret@[p]@ == matched(zeros(s.properties[p].len()))
                        && node.value@[p]@ == zeros(s.properties[p].len()),
            decreases no_players - player,
        {
            let player_legal_moves: Vec<u8> = game_state.legal_moves(player);
            let no_moves: usize = player_legal_moves.len();
            let ghost moves = s.properties[player as int];
            assert(moves.len() >= 1 && moves.no_duplicates());
            let mut nothing: Vec<i64> = Vec::with_capacity(no_moves);
            let mut k: usize = 0;
            while k < no_moves
                invariant
                    k <= no_moves,
                    nothing@.len() == k,
                    forall|j: int| 0 <= j < k ==> nothing@[j] == 0,
                decreases no_moves - k,
            {
                nothing.push(0);
                k += 1;
            }
            proof {
                assert(nothing@ =~= zeros(moves.len()));
                assert(non_negative(nothing@));
            }
            let mut initial_strategy: Vec<i64> = nothing.clone();
            normalize(&mut initial_strategy, &nothing);
            let initial_regret: Vec<i64> = initial_strategy.clone();
            let mut player_move_map: BiHashMap<usize, u8> = moves_with_capacity(10);
            let mut index: usize = 0;
            while index < no_moves
                invariant
                    index <= no_moves,
                    no_moves == moves.len(),
                    player_legal_moves@ == moves,
                    moves.no_duplicates(),
                    forall|i: usize|
                        i < index ==> #[trigger] move_pairs(player_move_map).contains_key(i)
                            && move_pairs(player_move_map)[i] == moves[i as int],
                    forall|i: usize|
                        #[trigger] move_pairs(player_move_map).contains_key(i) ==> i < index,
                decreases no_moves - index,
            {
                let ghost before = move_pairs(player_move_map);
                moves_insert(&mut player_move_map, index, player_legal_moves[index]);
                proof {
                    assert forall|i: usize| i < index + 1 implies #[trigger] move_pairs(
                        player_move_map,
                    ).contains_key(i) && move_pairs(player_move_map)[i] == moves[i as int] by {
                        if i < index {
                            assert(before.contains_key(i));
                            assert(moves[i as int] != moves[index as int]);
                        }
                    }
                }
                index += 1;
            }
            let ghost old_node = node;
            node.move_map.push(player_move_map);
            node.strategy.push(initial_strategy);
            node.regret.push(initial_regret);
            node.value.push(nothing);
            proof {
                assert(initial_regret@ =~= initial_strategy@);
                assert forall|p: int| 0 <= p < player + 1 implies #[trigger] node.row_ok(s, p) by {
                    if p < player {
                        assert(old_node.row_ok(s, p));
                        assert(node.strategy@[p] == old_node.strategy@[p]);
                        assert(node.regret@[p] == old_node.regret@[p]);
                        assert(node.value@[p] == old_node.value@[p]);
                        assert(node.move_map@[p] == old_node.move_map@[p]);
                    }
                }
                assert forall|p: int| 0 <= p < player + 1 implies (#[trigger] node.strategy@[p])@
                    == matched(zeros(s.properties[p].len())) && node.regret@[p]@ == matched(
                    zeros(s.properties[p].len()),
                ) && node.value@[p]@ == zeros(s.properties[p].len()) by {
                    if p < player {
                        assert(node.strategy@[p] == old_node.strategy@[p]);
                        assert(node.regret@[p] == old_node.regret@[p]);
                        assert(node.value@[p] == old_node.value@[p]);
                    }
                }
            }
            player += 1;
        }
        solver_insert(&mut self.nodes, path, node);
    }

    /// Hands a state to the solver for later.
    pub fn add_game_state(&mut self, game_state: GameState)
        ensures
            final(self).pending() == old(self).pending().push(game_state),
            final(self).table() == old(self).table(),
            final(self).bound() == old(self).bound(),
            final(self).alternating() == old(self).alternating(),
    {
        self.buffer.push(game_state);
    }

    /// Whether the solver has a node for the state.
    pub fn game_state_added(&self, game_state: &GameState) -> (res: bool)
        ensures
            res == self.table().contains_key(game_state@.path_encoding),
    {
        let path: String = game_state.get_path_encoding();
        solver_get(&self.nodes, &path).is_some()
    }

    /// The strategy in play for `player` in the state, if the solver has a
    /// node for the state.
    pub fn strategy_of(&self, game_state: &GameState, player: Player) -> (res: Option<Vec<i64>>)
        ensures
            res.is_some() == (self.table().contains_key(game_state@.path_encoding) && player
                < self.table()[game_state@.path_encoding].strategy@.len()),
            res.is_some() ==> res.unwrap()@ == self.table()[game_state@.path_encoding].strategy@[player as int]@,
    {
        let path: String = game_state.get_path_encoding();
        match solver_get(&self.nodes, &path) {
            Some(node) => {
                if (player as usize) < node.strategy.len() {
                    let row: Vec<i64> = node.strategy[player as usize].clone();
                    assert(row@ =~= node.strategy@[player as int]@);
                    Some(row)
                } else {
                    None
                }
            },
            None => None,
        }
    }

    /// The regrets of `player` in the state, if the solver has a node for
    /// the state.
    pub fn regret_of(&self, game_state: &GameState, player: Player) -> (res: Option<Vec<i64>>)
        ensures
            res.is_some() == (self.table().contains_key(game_state@.path_encoding) && player
                < self.table()[game_state@.path_encoding].regret@.len()),
            res.is_some() ==> res.unwrap()@ == self.table()[game_state@.path_encoding].regret@[player as int]@,
    {
        let path: String = game_state.get_path_encoding();
        match solver_get(&self.nodes, &path) {
            Some(node) => {
                if (player as usize) < node.regret.len() {
                    let row: Vec<i64> = node.regret[player as usize].clone();
                    assert(row@ =~= node.regret@[player as int]@);
                    Some(row)
                } else {
                    None
                }
            },
            None => None,
        }
    }

    /// The mean of the strategies played so far by `player` in the state,
    /// if the solver has a node for the state.
    pub fn average_of(&self, game_state: &GameState, player: Player) -> (res: Option<Vec<i64>>)
        ensures
            res.is_some() == (self.table().contains_key(game_state@.path_encoding) && player
                < self.table()[game_state@.path_encoding].value@.len()),
            res.is_some() ==> res.unwrap()@ == self.table()[game_state@.path_encoding].value@[player as int]@,
    {
        let path: String = game_state.get_path_encoding();
        match solver_get(&self.nodes, &path) {
            Some(node) => {
                if (player as usize) < node.value.len() {
                    let row: Vec<i64> = node.value[player as usize].clone();
                    assert(row@ =~= node.value@[player as int]@);
                    Some(row)
                } else {
                    None
                }
            },
            None => None,
        }
    }

    /// An action for `player`, drawn from the mean of the strategies that
    /// the solver has played in the state: the property at the place on
    /// which a number drawn below one whole falls when the entries of the
    /// mean are laid end to end.
    pub fn get_mixed_strategy(&mut self, game_state: &GameState, player: Player) -> (res: u8)
        requires
            player < game_state@.no_players,
            game_state@.properties[player as int].len() >= 1,
            old(self).table().contains_key(game_state@.path_encoding),
            old(self).table()[game_state@.path_encoding].ok(game_state@),
        ensures
            game_state@.legal_moves_sell(player).contains(res),
            exists|sample: int|
                0 <= sample < SCORE_UNIT && res == game_state@.properties[player as int][#[trigger] pick(
                    old(self).table()[game_state@.path_encoding].value@[player as int]@,
                    sample,
                )],
            final(self).table() == old(self).table(),
            final(self).pending() == old(self).pending(),
            final(self).bound() == old(self).bound(),
            final(self).alternating() == old(self).alternating(),
    {
        let path: String = game_state.get_path_encoding();
        let node: &SolverNode = solver_get(&self.nodes, &path).unwrap();
        proof {
            assert(node.row_ok(game_state@, player as int));
        }
        let index: usize = sample_strategy(&node.value[player as usize], &mut self.rng);
        let action: u8 = moves_get_by_left(&node.move_map[player as usize], index).unwrap();
        proof {
            assert(game_state@.properties[player as int][index as int] == action);
        }
        action
    }

    /// Runs `iterations` rounds of regret matching on the state, from the
    /// node that the solver has for it, or from a new one. Every round
    /// makes its step from the node that the round before has left. Nothing
    /// but a new node where the solver stops at the state.
    pub fn find_nash(&mut self, initial_state: &GameState, iterations: usize)
        requires
            initial_state.wf(),
            sale_ready(initial_state@),
            old(self).table().contains_key(initial_state@.path_encoding) ==> old(
                self,
            ).table()[initial_state@.path_encoding].ok(initial_state@),
        ensures
            final(self).table().contains_key(initial_state@.path_encoding),
            final(self).table()[initial_state@.path_encoding].ok(initial_state@),
            final(self).table() == old(self).table().insert(
                initial_state@.path_encoding,
                final(self).table()[initial_state@.path_encoding],
            ),
            !old(self).bound().terminal(initial_state@) ==> exists|nodes: Seq<SolverNode>| #[trigger]
                run_of(
                    nodes,
                    final(self).table()[initial_state@.path_encoding],
                    initial_state@,
                    iterations as int,
                ) && (if old(self).table().contains_key(initial_state@.path_encoding) {
                    nodes[0] == old(self).table()[initial_state@.path_encoding]
                } else {
                    fresh_node(nodes[0], initial_state@)
                }),
            old(self).bound().terminal(initial_state@) ==> (if old(self).table().contains_key(
                initial_state@.path_encoding,
            ) {
                final(self).table() == old(self).table()
            } else {
                fresh_node(final(self).table()[initial_state@.path_encoding], initial_state@)
            }),
            final(self).pending() == old(self).pending(),
            final(self).bound() == old(self).bound(),
            final(self).alternating() == old(self).alternating(),
    {
        let ghost s = initial_state@;
        let path: String = initial_state.get_path_encoding();
        if solver_get(&self.nodes, &path).is_none() {
            self.initialise_node(initial_state);
        }
        let ghost first_table = self.table();
        let ghost mut nodes: Seq<SolverNode> = seq![self.table()[s.path_encoding]];
        proof {
            assert(first_table =~= old(self).table().insert(
                s.path_encoding,
                first_table[s.path_encoding],
            ));
        }
        let mut i: usize = 0;
        while i < iterations
            invariant
                initial_state.wf(),
                s == initial_state@,
                sale_ready(s),
                i <= iterations,
                self.table().contains_key(s.path_encoding),
                self.table()[s.path_encoding].ok(s),
                self.table() == first_table.insert(s.path_encoding, self.table()[s.path_encoding]),
                self.bound().terminal(s) ==> self.table() == first_table,
                !self.bound().terminal(s) ==> run_of(nodes, self.table()[s.path_encoding], s, i as int),
                nodes.len() >= 1,
                nodes[0] == first_table[s.path_encoding],
                self.pending() == old(self).pending(),
                self.bound() == old(self).bound(),
                self.alternating() == old(self).alternating(),
            decreases iterations - i,
        {
            let ghost before = nodes;
            let ghost old_table = self.table();
            self.cfr(initial_state, i);
            proof {
                if !self.bound().terminal(s) {
                    nodes = before.push(self.table()[s.path_encoding]);
                    assert forall|j: int| 0 <= j < i + 1 implies #[trigger] step_at(
                        nodes,
                        s,
                        j,
                    ) by {
                        if j < i {
                            assert(step_at(before, s, j));
                            assert(nodes[j] == before[j]);
                            assert(nodes[j + 1] == before[j + 1]);
                        } else {
                            assert(nodes[j] == before.last());
                        }
                    }
                    assert(self.table() =~= first_table.insert(
                        s.path_encoding,
                        self.table()[s.path_encoding],
                    ));
                } else {
                    assert(self.table() =~= first_table.insert(
                        s.path_encoding,
                        self.table()[s.path_encoding],
                    ));
                }
            }
            i += 1;
        }
        proof {
            assert(self.table() =~= old(self).table().insert(
                s.path_encoding,
                self.table()[s.path_encoding],
            ));
            if old(self).table().contains_key(s.path_encoding) {
                assert(first_table =~= old(self).table());
            }
        }
    }

    /// One round of regret matching, the one after `i` rounds: every
    /// action of every player is tried against actions drawn for the
    /// others, regrets grow by what the action has gained over the
    /// strategy in play, the strategies are matched to the regrets anew,
    /// and the means of the strategies take them in. Nothing changes where
    /// the solver stops at the state.
    fn cfr(&mut self, initial_state: &GameState, i: usize)
        requires
            initial_state.wf(),
            sale_ready(initial_state@),
            i < usize::MAX,
            old(self).table().contains_key(initial_state@.path_encoding),
            old(self).table()[initial_state@.path_encoding].ok(initial_state@),
        ensures
            final(self).table().contains_key(initial_state@.path_encoding),
            final(self).table()[initial_state@.path_encoding].ok(initial_state@),
            old(self).bound().terminal(initial_state@) ==> final(self).table() == old(self).table(),
            !old(self).bound().terminal(initial_state@) ==> final(self).table() == old(
                self,
            ).table().insert(
                initial_state@.path_encoding,
                final(self).table()[initial_state@.path_encoding],
            ),
            !old(self).bound().terminal(initial_state@) ==> stepped(
                old(self).table()[initial_state@.path_encoding],
                final(self).table()[initial_state@.path_encoding],
                initial_state@,
                i + 1,
            ),
            final(self).pending() == old(self).pending(),
            final(self).bound() == old(self).bound(),
            final(self).alternating() == old(self).alternating(),
    {
        if self.terminator.is_terminal(initial_state) {
            return ;
        }
        let ghost s = initial_state@;
        let ghost first_table = self.table();
        let path: String = initial_state.get_path_encoding();
        let mut node: SolverNode = solver_remove(&mut self.nodes, &path).unwrap();
        let ghost start = node;
        let mut state: GameState = initial_state.clone();
        let no_players: u8 = initial_state.no_players();
        proof {
            initial_state.lemma_wf();
        }
        let mut update_player: u8 = 0;
        while update_player < no_players
            invariant
                initial_state.wf(),
                s == initial_state@,
                sale_ready(s),
                state.wf(),
                state@ == s,
                no_players == s.no_players,
                update_player <= no_players,
                i < usize::MAX,
                node.ok(s),
                start.ok(s),
                node.move_map@ == start.move_map@,
                rows_kept(start, node, s, update_player as int),
                forall|p: int| 0 <= p < update_player ==> #[trigger] regret_stepped(start, node, s, p),
                self.alternating_update ==> forall|p: int|
                    0 <= p < update_player ==> #[trigger] row_stepped(start, node, s, p, i + 1),
                !self.alternating_update ==> node.strategy@ == start.strategy@ && node.value@
                    == start.value@,
                self.table() == first_table.remove(s.path_encoding),
                self.pending() == old(self).pending(),
                self.bound() == old(self).bound(),
                self.alternating() == old(self).alternating(),
            decreases no_players - update_player,
        {
            let legal_moves: Vec<u8> = initial_state.legal_moves(update_player);
            let mut temp_scores: Vec<i64> = Vec::with_capacity(legal_moves.len());
            let mut move_index: usize = 0;
            while move_index < legal_moves.len()
                invariant
                    initial_state.wf(),
                    s == initial_state@,
                    sale_ready(s),
                    state.wf(),
                    state@ == s,
                    no_players == s.no_players,
                    update_player < no_players,
                    node.ok(s),
                    legal_moves@ == s.properties[update_player as int],
                    move_index <= legal_moves@.len(),
                    temp_scores@.len() == move_index,
                    forall|k: int|
                        0 <= k < move_index ==> pays(
                            s,
                            update_player as int,
                            s.properties[update_player as int][k],
                            #[trigger] temp_scores@[k],
                        ),
                    self.table() == first_table.remove(s.path_encoding),
                    self.pending() == old(self).pending(),
                    self.bound() == old(self).bound(),
                    self.alternating() == old(self).alternating(),
                decreases legal_moves@.len() - move_index,
            {
                let action: u8 = legal_moves[move_index];
                let mut aggregate_sales: Vec<u8> = Vec::with_capacity(no_players as usize);
                let mut move_player: u8 = 0;
                while move_player < no_players
                    invariant
                        s == initial_state@,
                        sale_ready(s),
                        no_players == s.no_players,
                        update_player < no_players,
                        node.ok(s),
                        move_player <= no_players,
                        aggregate_sales@.len() == move_player,
                        s.properties[update_player as int].contains(action),
                        move_player > update_player ==> aggregate_sales@[update_player as int]
                            == action,
                        forall|q: int|
                            0 <= q < move_player ==> s.properties[q].contains(
                                #[trigger] aggregate_sales@[q],
                            ),
                        self.table() == first_table.remove(s.path_encoding),
                        self.pending() == old(self).pending(),
                        self.bound() == old(self).bound(),
                        self.alternating() == old(self).alternating(),
                    decreases no_players - move_player,
                {
                    let ghost before_sales = aggregate_sales@;
                    if move_player == update_player {
                        aggregate_sales.push(action);
                    } else {
                        proof {
                            assert(node.row_ok(s, move_player as int));
                        }
                        let sampled_strategy_index: usize = sample_strategy(
                            &node.strategy[move_player as usize],
                            &mut self.rng,
                        );
                        let sampled_action: u8 = moves_get_by_left(
                            &node.move_map[move_player as usize],
                            sampled_strategy_index,
                        ).unwrap();
                        proof {
                            assert(s.properties[move_player as int][sampled_strategy_index as int]
                                == sampled_action);
                        }
                        aggregate_sales.push(sampled_action);
                    }
                    proof {
                        assert forall|q: int| 0 <= q < move_player + 1 implies s.properties[q].contains(
                            #[trigger] aggregate_sales@[q],
                        ) by {
                            if q < move_player {
                                assert(aggregate_sales@[q] == before_sales[q]);
                            }
                        }
                    }
                    move_player += 1;
                }
                let ghost choices = aggregate_sales@;
                let game_state: GameState = state.generate_next_state_sell(aggregate_sales);
                let scores: Vec<i64> = NaiveRoundScore::round_score_function(&game_state);
                let ghost before_scores = temp_scores@;
                temp_scores.push(scores[update_player as usize]);
                proof {
                    assert(offers_with(s, update_player as int, action, choices));
                    assert(pays(
                        s,
                        update_player as int,
                        s.properties[update_player as int][move_index as int],
                        temp_scores@[move_index as int],
                    ));
                    assert forall|k: int| 0 <= k < move_index + 1 implies pays(
                        s,
                        update_player as int,
                        s.properties[update_player as int][k],
                        #[trigger] temp_scores@[k],
                    ) by {
                        if k < move_index {
                            assert(temp_scores@[k] == before_scores[k]);
                        }
                    }
                }
                move_index += 1;
            }
            proof {
                assert(node.row_ok(s, update_player as int));
                assert(payoffs_of(s, update_player as int, temp_scores@));
            }
            let ghost before = node;
            let mut regret_row: Vec<i64> = node.regret[update_player as usize].clone();
            proof {
                assert(regret_row@ =~= node.regret@[update_player as int]@);
            }
            regret_step(&mut regret_row, &node.strategy[update_player as usize], &temp_scores);
            let ghost new_regret = regret_row@;
            let ghost moves = s.properties[update_player as int];
            if self.alternating_update {
                let mut strategy_row: Vec<i64> = node.strategy[update_player as usize].clone();
                normalize(&mut strategy_row, &regret_row);
                let mut value_row: Vec<i64> = node.value[update_player as usize].clone();
                proof {
                    assert(value_row@ =~= node.value@[update_player as int]@);
                }
                update_average(&mut value_row, &strategy_row, i + 1);
                assert(bounded_weights(strategy_row@) && strategy_row@.len() == moves.len());
                assert(value_row@.len() == moves.len());
                node.strategy.set(update_player as usize, strategy_row);
                node.value.set(update_player as usize, value_row);
            }
            node.regret.set(update_player as usize, regret_row);
            proof {
                let u = update_player as int;
                assert(row_same(start, before, u));
                assert forall|p: int| 0 <= p < s.n() && p != u implies #[trigger] row_same(
                    before,
                    node,
                    p,
                ) by {}
                assert(node.regret@[u]@ == new_regret);
                lemma_node_ok(before, node, s, u);
                assert(regret_stepped(before, node, s, u));
                lemma_rows_after(start, before, node, s, u, i + 1, self.alternating_update);
            }
            update_player += 1;
        }
        if !self.alternating_update {
            let mut player: u8 = 0;
            while player < no_players
                invariant
                    s == initial_state@,
                    sale_ready(s),
                    no_players == s.no_players,
                    player <= no_players,
                    i < usize::MAX,
                    node.ok(s),
                    start.ok(s),
                    node.move_map@ == start.move_map@,
                    forall|p: int| 0 <= p < s.n() ==> #[trigger] regret_stepped(start, node, s, p),
                    forall|p: int|
                        player <= p < s.n() ==> (#[trigger] node.strategy@[p]) == start.strategy@[p]
                            && node.value@[p] == start.value@[p],
                    forall|p: int|
                        0 <= p < player ==> #[trigger] row_stepped(start, node, s, p, i + 1),
                    self.table() == first_table.remove(s.path_encoding),
                    self.pending() == old(self).pending(),
                    self.bound() == old(self).bound(),
                    self.alternating() == old(self).alternating(),
                decreases no_players - player,
            {
                proof {
                    assert(node.row_ok(s, player as int));
                }
                let ghost before = node;
                let mut strategy_row: Vec<i64> = node.strategy[player as usize].clone();
                normalize(&mut strategy_row, &node.regret[player as usize]);
                let mut value_row: Vec<i64> = node.value[player as usize].clone();
                proof {
                    assert(value_row@ =~= node.value@[player as int]@);
                }
                update_average(&mut value_row, &strategy_row, i + 1);
                let ghost moves = s.properties[player as int];
                assert(bounded_weights(strategy_row@) && strategy_row@.len() == moves.len());
                assert(value_row@.len() == moves.len());
                node.strategy.set(player as usize, strategy_row);
                node.value.set(player as usize, value_row);
                proof {
                    let u = player as int;
                    assert forall|p: int| 0 <= p < s.n() && p != u implies #[trigger] row_same(
                        before,
                        node,
                        p,
                    ) by {}
                    assert(before.row_ok(s, u));
                    lemma_node_ok(before, node, s, u);
                    lemma_rows_matched(start, before, node, s, u, i + 1);
                }
                player += 1;
            }
        }
        proof {
            assert(stepped(start, node, s, i + 1));
        }
        solver_insert(&mut self.nodes, path, node);
        proof {
            assert(self.table() =~= first_table.insert(s.path_encoding, node));
        }
    }
}

} // verus!
