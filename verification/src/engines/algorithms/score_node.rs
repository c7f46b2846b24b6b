//! The entry that the search keeps for a node of the game tree, and the
//! rule by which a node takes in the score of one of its children.

use crate::models::game_state::GameState;
use crate::models::state_view::GameStateView;
use vstd::prelude::*;

verus! {

/// The score that a node has before any child has reported: below every
/// score that a child can report.
pub open spec fn unscored() -> i64 {
    i64::MIN
}

/// `t` divided by `c`, rounded towards zero.
pub open spec fn mean(t: int, c: int) -> int {
    if t >= 0 {
        t / c
    } else {
        -((-t) / c)
    }
}

/// What the search keeps for a node: the node's state, its score so far,
/// how many children have yet to report, and, for a chance node, how many
/// have reported and what their scores add up to.
pub struct ScoreMaxN {
    pub game_state: GameState,
    pub score: Vec<i64>,
    pub remaining_children: usize,
    pub average_count: usize,
    pub score_sum: Vec<i128>,
}

/// A node's entry as plain values.
pub struct ScoreView {
    pub state: GameStateView,
    pub score: Seq<i64>,
    pub remaining_children: nat,
    pub average_count: nat,
    pub score_sum: Seq<int>,
}

impl View for ScoreMaxN {
    type V = ScoreView;

    open spec fn view(&self) -> ScoreView {
        ScoreView {
            state: self.game_state@,
            score: self.score@,
            remaining_children: self.remaining_children as nat,
            average_count: self.average_count as nat,
            score_sum: self.score_sum@.map_values(|t: i128| t as int),
        }
    }
}

/// What a report has done to a node.
#[derive(Copy, Clone, Debug, PartialEq, Eq, Structural)]
pub enum Outcome {
    /// The node waits for more children.
    Waiting,
    /// The node is done: its score goes to its parent, and where `evict`
    /// is set, its entry leaves the table.
    Done { evict: bool },
}

impl ScoreView {
    /// Whether a node that is done leaves the table: only nodes more than
    /// two turns below the root of the search do.
    pub open spec fn leaves_table(self, root_turn: int) -> bool {
        self.state.turn_no > root_turn + 2
    }

    /// What the last report has done to the node.
    pub open spec fn outcome(self, root_turn: int) -> Outcome {
        if self.remaining_children >= 1 {
            Outcome::Waiting
        } else {
            Outcome::Done { evict: self.leaves_table(root_turn) }
        }
    }

    /// Whether the node is a chance node: no auction is under way in its
    /// state, so its children are the batches that may be revealed.
    pub open spec fn is_chance(self) -> bool {
        self.state.auction_end()
    }

    /// The shape of an entry: one score and one sum per player, a mover at
    /// a decision node, and sums within what the reported scores allow.
    pub open spec fn wf(self) -> bool {
        &&& self.state.wf()
        &&& self.score.len() == self.state.n()
        &&& self.score_sum.len() == self.state.n()
        &&& self.average_count + self.remaining_children <= usize::MAX
        &&& !self.is_chance() ==> self.state.current_decision_player is Some
        &&& forall|i: int|
            0 <= i < self.score_sum.len() ==> -self.average_count * 0x8000_0000_0000_0000
                <= #[trigger] self.score_sum[i] <= self.average_count * 0x7fff_ffff_ffff_ffff
    }

    /// A fresh entry for a node with `children` children.
    pub open spec fn fresh(state: GameStateView, children: nat, count: nat) -> ScoreView {
        ScoreView {
            state,
            score: Seq::new(state.no_players as nat, |i: int| unscored()),
            remaining_children: children,
            average_count: count,
            score_sum: Seq::new(state.no_players as nat, |i: int| 0int),
        }
    }

    /// The entry of a node that is scored as it stands.
    pub open spec fn scored(state: GameStateView, score: Seq<i64>) -> ScoreView {
        ScoreView {
            state,
            score,
            remaining_children: 0,
            average_count: 0,
            score_sum: Seq::new(state.no_players as nat, |i: int| 0int),
        }
    }

    /// The entry after one child has reported `child`. A chance node's
    /// score becomes the mean of all that was reported. A decision node
    /// takes the child's score where it is better for the player to move,
    /// and keeps its own on a tie.
    pub open spec fn absorbed(self, child: Seq<i64>) -> ScoreView {
        if self.is_chance() {
            let sums = Seq::new(self.score_sum.len(), |i: int| self.score_sum[i] + child[i]);
            ScoreView {
                score: Seq::new(
                    self.score.len(),
                    |i: int| mean(sums[i], self.average_count as int + 1) as i64,
                ),
                score_sum: sums,
                average_count: self.average_count + 1,
                remaining_children: (self.remaining_children - 1) as nat,
                ..self
            }
        } else {
            let mover = self.state.current_decision_player->0 as int;
            ScoreView {
                score: if self.score[mover] < child[mover] {
                    child
                } else {
                    self.score
                },
                remaining_children: (self.remaining_children - 1) as nat,
                ..self
            }
        }
    }
}

/// The mean of scores is a score.
pub proof fn lemma_mean_range(t: int, c: int)
    requires
        c >= 1,
        -c * 0x8000_0000_0000_0000 <= t <= c * 0x7fff_ffff_ffff_ffff,
    ensures
        i64::MIN <= mean(t, c) <= i64::MAX,
{
    if t >= 0 {
        vstd::arithmetic::div_mod::lemma_div_is_ordered(t, c * 0x7fff_ffff_ffff_ffff, c);
        assert((c * 0x7fff_ffff_ffff_ffff) / c == 0x7fff_ffff_ffff_ffff) by (nonlinear_arith)
            requires
                c >= 1,
        ;
        assert(t / c >= 0) by (nonlinear_arith)
            requires
                t >= 0,
                c >= 1,
        ;
    } else {
        vstd::arithmetic::div_mod::lemma_div_is_ordered(-t, c * 0x8000_0000_0000_0000, c);
        assert((c * 0x8000_0000_0000_0000) / c == 0x8000_0000_0000_0000) by (nonlinear_arith)
            requires
                c >= 1,
        ;
        assert((-t) / c >= 0) by (nonlinear_arith)
            requires
                -t >= 0,
                c >= 1,
        ;
    }
}

/// Taking in a child keeps the shape of an entry.
pub proof fn lemma_absorbed_wf(node: ScoreView, child: Seq<i64>)
    requires
        node.wf(),
        node.remaining_children >= 1,
        child.len() == node.state.n(),
    ensures
        node.absorbed(child).wf(),
        node.absorbed(child).state == node.state,
        node.absorbed(child).remaining_children == node.remaining_children - 1,
{
}

/// A chance node that has taken in three children, and no others, scores
/// each player with the mean of the three scores.
pub proof fn law_chance_node_averages(
    state: GameStateView,
    first: Seq<i64>,
    second: Seq<i64>,
    third: Seq<i64>,
    player: int,
)
    requires
        state.wf(),
        state.auction_end(),
        first.len() == state.n(),
        second.len() == state.n(),
        third.len() == state.n(),
        0 <= player < state.n(),
    ensures
        ScoreView::fresh(state, 3, 0).absorbed(first).absorbed(second).absorbed(
            third,
        ).score[player] == mean(first[player] + second[player] + third[player], 3),
        ScoreView::fresh(state, 3, 0).absorbed(first).absorbed(second).absorbed(
            third,
        ).remaining_children == 0,
{
    let a = ScoreView::fresh(state, 3, 0);
    let b = a.absorbed(first);
    let c = b.absorbed(second);
    let d = c.absorbed(third);
    assert(b.score_sum[player] == first[player]);
    assert(c.score_sum[player] == first[player] + second[player]);
    assert(d.score_sum[player] == first[player] + second[player] + third[player]);
    lemma_mean_range(d.score_sum[player], 3);
}

/// A decision node that has taken in children holds, for the player to
/// move, at least what each of them reported.
pub proof fn law_decision_node_maximises(node: ScoreView, child: Seq<i64>)
    requires
        node.wf(),
        !node.is_chance(),
        child.len() == node.state.n(),
    ensures
        ({
            let mover = node.state.current_decision_player->0 as int;
            let after = node.absorbed(child);
            &&& after.score[mover] >= child[mover]
            &&& after.score[mover] >= node.score[mover]
            &&& after.score == child || after.score == node.score
            &&& node.score[mover] >= child[mover] ==> after.score == node.score
        }),
{
}

impl ScoreMaxN {
    /// Whether the entry is sound: its state is, and it has the shape of an
    /// entry.
    pub open spec fn wf(&self) -> bool {
        &&& self.game_state.wf()
        &&& self@.wf()
    }

    /// A fresh entry for a node with `remaining_children` children.
    pub fn default(game_state: &GameState, remaining_children: usize, average_count: usize) -> (res:
        Self)
        requires
            game_state.wf(),
        ensures
            res@ == ScoreView::fresh(
                game_state@,
                remaining_children as nat,
                average_count as nat,
            ),
            res.game_state.wf(),
    {
        let no_players: usize = game_state.no_players() as usize;
        let mut score: Vec<i64> = Vec::with_capacity(no_players);
        let mut score_sum: Vec<i128> = Vec::with_capacity(no_players);
        let mut i: usize = 0;
        while i < no_players
            invariant
                i <= no_players,
                score@.len() == i,
                score_sum@.len() == i,
                forall|j: int| 0 <= j < i ==> score@[j] == i64::MIN,
                forall|j: int| 0 <= j < i ==> score_sum@[j] == 0,
            decreases no_players - i,
        {
            score.push(i64::MIN);
            score_sum.push(0);
            i += 1;
        }
        let res = ScoreMaxN {
            game_state: game_state.clone(),
            score,
            remaining_children,
            average_count,
            score_sum,
        };
        proof {
            let target = ScoreView::fresh(
                game_state@,
                remaining_children as nat,
                average_count as nat,
            );
            assert(res@.score =~= target.score);
            assert(res@.score_sum =~= target.score_sum);
        }
        res
    }

    /// The entry of a node that is scored as it stands and waits for no
    /// child.
    pub fn scored(game_state: &GameState, score: Vec<i64>) -> (res: Self)
        requires
            game_state.wf(),
        ensures
            res@ == ScoreView::scored(game_state@, score@),
            res.game_state.wf(),
    {
        let no_players: usize = game_state.no_players() as usize;
        let mut score_sum: Vec<i128> = Vec::with_capacity(no_players);
        let mut i: usize = 0;
        while i < no_players
            invariant
                i <= no_players,
                score_sum@.len() == i,
                forall|j: int| 0 <= j < i ==> score_sum@[j] == 0,
            decreases no_players - i,
        {
            score_sum.push(0);
            i += 1;
        }
        let res = ScoreMaxN {
            game_state: game_state.clone(),
            score,
            remaining_children: 0,
            average_count: 0,
            score_sum,
        };
        proof {
            let target = ScoreView::scored(game_state@, score@);
            assert(res@.score_sum =~= target.score_sum);
        }
        res
    }

    /// Takes in the score that one child reports and says, in the same
    /// step, whether the node is done with it and whether its entry is to
    /// leave the table: whoever holds the entry learns both at once.
    pub fn take_report(&mut self, child: &Vec<i64>, root_turn: u32) -> (res: Outcome)
        requires
            old(self).wf(),
            old(self)@.remaining_children >= 1,
            child@.len() == old(self)@.state.n(),
        ensures
            final(self).wf(),
            final(self)@ == old(self)@.absorbed(child@),
            res == final(self)@.outcome(root_turn as int),
    {
        self.absorb(child);
        if self.remaining_children >= 1 {
            Outcome::Waiting
        } else {
            Outcome::Done { evict: self.game_state.turn_no() as u64 > root_turn as u64 + 2 }
        }
    }

    /// Takes in the score that one child reports.
    pub fn absorb(&mut self, child: &Vec<i64>)
        requires
            old(self).wf(),
            old(self)@.remaining_children >= 1,
            child@.len() == old(self)@.state.n(),
        ensures
            final(self).wf(),
            final(self)@ == old(self)@.absorbed(child@),
    {
        proof {
            self.game_state.lemma_wf();
        }
        let n: usize = self.score.len();
        if self.game_state.auction_end() {
            let count: usize = self.average_count + 1;
            let mut i: usize = 0;
            while i < n
                invariant
                    i <= n,
                    n == old(self)@.state.n(),
                    child@.len() == n,
                    count == old(self)@.average_count + 1,
                    old(self).wf(),
                    self.game_state == old(self).game_state,
                    self.remaining_children == old(self).remaining_children,
                    self.average_count == old(self).average_count,
                    self.score@.len() == n,
                    self.score_sum@.len() == n,
                    forall|j: int|
                        0 <= j < i ==> self.score_sum@[j] == old(self)@.score_sum[j] + child@[j],
                    forall|j: int| i <= j < n ==> self.score_sum@[j] == old(self)@.score_sum[j],
                    forall|j: int|
                        0 <= j < i ==> self.score@[j] == mean(
                            old(self)@.score_sum[j] + child@[j],
                            count as int,
                        ),
                decreases n - i,
            {
                let ghost before = old(self)@.score_sum[i as int];
                assert(-old(self)@.average_count * 0x8000_0000_0000_0000 <= before
                    <= old(self)@.average_count * 0x7fff_ffff_ffff_ffff);
                let sum: i128 = self.score_sum[i] + child[i] as i128;
                proof {
                    lemma_mean_range(sum as int, count as int);
                }
                let part: i128 = if sum >= 0 {
                    sum / (count as i128)
                } else {
                    -((-sum) / (count as i128))
                };
                self.score_sum.set(i, sum);
                self.score.set(i, part as i64);
                i += 1;
            }
            self.average_count = count;
            self.remaining_children = self.remaining_children - 1;
            proof {
                let target = old(self)@.absorbed(child@);
                assert(self@.score =~= target.score);
                assert(self@.score_sum =~= target.score_sum);
            }
        } else {
            let mover: usize = self.game_state.current_player() as usize;
            if self.score[mover] < child[mover] {
                self.score = child.clone();
                assert(self.score@ =~= child@);
            }
            self.remaining_children = self.remaining_children - 1;
            proof {
                let target = old(self)@.absorbed(child@);
                assert(self@.score_sum =~= target.score_sum);
            }
        }
    }
}

} // verus!
