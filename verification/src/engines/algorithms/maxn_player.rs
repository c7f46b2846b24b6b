//! The sequential search: a depth-first walk over the game tree with an
//! explicit frontier and a table of scores, which picks for the player to
//! move the action whose outcome is best for that player.

use crate::bindings::hash_map::{score_entries, scores_get, scores_insert, scores_with_capacity};
use crate::bindings::random::{seeded_rng};
use crate::helper::generation::fresh_rng;
use crate::engines::algorithms::drawn_steps::{
    drawn_inv, lemma_drawn_end, lemma_drawn_leaf, lemma_drawn_open, lemma_drawn_pop,
    lemma_drawn_start, plans_after,
};
use crate::engines::algorithms::drawn_value::{
    batches_ok, choice_with, draws_of, drawn_ok, no_draws, reveal_children, Drawn, Sampling,
};
use crate::engines::algorithms::frontier::{
    flatten, lemma_depth_nonneg, member_ok, trimmed, walk_stop, weight, with_group, Link,
};
use crate::engines::algorithms::game_value::{
    best_bid, best_move, bid_children, bid_count, child_ok, children, horizon, reveal_count,
    };
use crate::engines::algorithms::propagation::{
    lemma_ready_frame, propagate, table_ok, views, walk_ready, walked,
};
use crate::bindings::subsets::subsets_of;
use crate::engines::algorithms::score_node::{ScoreMaxN, ScoreView};
use crate::engines::algorithms::search_model::{
    bidding, depth_left, is_legal_bid, lemma_bid_child, lemma_live_coins_bound,
    lemma_reveal_child, round_limit, round_over, turn_limit, within,
};
use crate::engines::algorithms::search_steps::{
    children_kept, lemma_end, lemma_leaf, lemma_open, lemma_pop, lemma_single_leaf, lemma_start,
    root_ok, search_inv,
};
use crate::engines::scorers::naive_round_score::{round_scores, NaiveRoundScore};
use crate::engines::traits::PlayerController;
use crate::models::encoding::{
    lemma_last_bar_range, lemma_parent_of_action, lemma_parent_of_batch, parent_of,
};
use crate::models::laws::law_parent_after_reveal;
use crate::models::enums::GamePhase;
use crate::models::game_state::GameState;
use crate::models::state_view::GameStateView;
use ahash::AHashMap;
use rand::rngs::StdRng;
use vstd::prelude::*;

verus! {

/// The states of a frontier as plain values.
pub open spec fn stack_views(stack: Seq<GameState>) -> Seq<GameStateView> {
    stack.map_values(|g: GameState| g@)
}

/// The state from which a search of `rounds` rounds can start: a player is
/// to bid, and the counters of turns and rounds leave room for all that
/// the search can meet.
pub open spec fn search_root(s: GameStateView, rounds: u8) -> bool {
    &&& bidding(s)
    &&& s.turn_no + depth_left(s) <= u32::MAX
    &&& s.round_no + s.remaining_properties.len() + 1 <= u8::MAX
    &&& s.round_no + rounds <= u8::MAX
}

/// The key of the state that the player to move reaches with the `i`-th
/// legal action.
pub open spec fn child_key(root: GameStateView, i: int) -> Seq<char> {
    let mover = root.current_decision_player->0;
    root.next_bid(mover, root.legal_moves_bid(mover)[i]).path_encoding
}

/// The best of the first `upto` legal actions of the player to move, with
/// its score: the action whose outcome, as the table has it, scores
/// highest for that player; of equal ones the first; a fold where the
/// table has no outcome above the lowest score.
pub open spec fn best_action(root: GameStateView, t: Map<Seq<char>, ScoreView>, upto: int) -> (
    u8,
    i64,
)
    decreases upto,
{
    if upto <= 0 {
        (0u8, i64::MIN)
    } else {
        let before = best_action(root, t, upto - 1);
        let mover = root.current_decision_player->0;
        let key = child_key(root, upto - 1);
        if t.contains_key(key) && before.1 < t[key].score[mover as int] {
            (root.legal_moves_bid(mover)[upto - 1], t[key].score[mover as int])
        } else {
            before
        }
    }
}

/// The table with the entry of a leaf one turn below the root put in: such
/// a leaf is scored as it stands.
pub open spec fn registered(
    t: Map<Seq<char>, ScoreView>,
    leaf: GameStateView,
    root_turn: int,
) -> Map<Seq<char>, ScoreView> {
    if leaf.turn_no == root_turn + 1 {
        t.insert(leaf.path_encoding, ScoreView::scored(leaf, round_scores(leaf)))
    } else {
        t
    }
}

/// Where the table has the outcome of each of the first `upto` legal
/// actions, none of them scores higher for the player to move than the
/// best action, and the best action is the first to score as it does.
pub proof fn law_best_action_is_maximal(
    root: GameStateView,
    t: Map<Seq<char>, ScoreView>,
    upto: int,
    i: int,
)
    requires
        0 <= i < upto <= root.legal_moves_bid(root.current_decision_player->0).len(),
        forall|k: int| 0 <= k < upto ==> t.contains_key(#[trigger] child_key(root, k)),
    ensures
        t[child_key(root, i)].score[root.current_decision_player->0 as int] <= best_action(
            root,
            t,
            upto,
        ).1,
        best_action(root, t, upto).1 > i64::MIN ==> exists|j: int|
            0 <= j < upto && root.legal_moves_bid(root.current_decision_player->0)[j]
                == best_action(root, t, upto).0 && #[trigger] t[child_key(root, j)].score[root.current_decision_player->0 as int]
                == best_action(root, t, upto).1 && best_action(root, t, j).1 < best_action(
                root,
                t,
                upto,
            ).1,
    decreases upto,
{
    let mover = root.current_decision_player->0 as int;
    let before = best_action(root, t, upto - 1);
    let key = child_key(root, upto - 1);
    assert(t.contains_key(key));
    if i < upto - 1 {
        law_best_action_is_maximal(root, t, upto - 1, i);
    }
    if before.1 < t[key].score[mover] {
        assert(t[child_key(root, upto - 1)].score[mover] == best_action(root, t, upto).1);
    } else if upto - 1 > 0 {
        law_best_action_is_maximal(root, t, upto - 1, 0);
        if before.1 > i64::MIN {
            let j = choose|j: int|
                0 <= j < upto - 1 && root.legal_moves_bid(root.current_decision_player->0)[j]
                    == before.0 && #[trigger] t[child_key(root, j)].score[mover] == before.1
                    && best_action(root, t, j).1 < before.1;
            assert(t[child_key(root, j)].score[mover] == best_action(root, t, upto).1);
        }
    }
}

/// The best action by any table is a legal bid.
pub proof fn lemma_best_action_legal(root: GameStateView, t: Map<Seq<char>, ScoreView>, upto: int)
    requires
        bidding(root),
        0 <= upto <= root.legal_moves_bid(root.current_decision_player->0).len(),
    ensures
        is_legal_bid(root, best_action(root, t, upto).0),
    decreases upto,
{
    let moves = root.legal_moves_bid(root.current_decision_player->0);
    if upto <= 0 {
        assert(moves[0] == 0);
    } else {
        lemma_best_action_legal(root, t, upto - 1);
        assert(moves[upto - 1] == moves[upto - 1]);
    }
}

/// A player that searches the game tree.
pub struct MaxNPlayer {
    id: u8,
    nickname: String,
    rng: StdRng,
    buffer: Vec<GameState>,
    scores: AHashMap<String, ScoreMaxN>,
    bool_print: bool,
    bool_log: bool,
}

/// Puts into the frontier the state after each legal bid of the player to
/// move, in the order of the bids.
fn expand_bids(
    buffer: &mut Vec<GameState>,
    state: &GameState,
    Ghost(turn_limit): Ghost<int>,
    Ghost(round_limit): Ghost<int>,
) -> (count: usize)
    requires
        state.wf(),
        bidding(state@),
        within(state@, turn_limit, round_limit),
        forall|i: int| 0 <= i < old(buffer)@.len() ==> (#[trigger] old(buffer)@[i]).wf(),
    ensures
        count == state@.legal_moves_bid(state@.current_decision_player->0).len(),
        1 <= count <= 256,
        final(buffer)@.len() == old(buffer)@.len() + count,
        forall|i: int| 0 <= i < final(buffer)@.len() ==> (#[trigger] final(buffer)@[i]).wf(),
        stack_views(final(buffer)@) == stack_views(old(buffer)@) + bid_children(state@),
        forall|i: int|
            0 <= i < count ==> member_ok(
                #[trigger] bid_children(state@)[i],
                state@.path_encoding,
                state@.n(),
                turn_limit,
                round_limit,
            ),
        forall|i: int|
            0 <= i < count ==> 0 <= depth_left(#[trigger] bid_children(state@)[i]) < depth_left(
                state@,
            ),
        bid_children(state@).len() == count,
{
    let ghost s = state@;
    let mover: u8 = state.current_player();
    let moves: Vec<u8> = state.legal_moves_bid(mover);
    let ghost group = bid_children(s);
    let mut i: usize = 0;
    while i < moves.len()
        invariant
            state.wf(),
            s == state@,
            bidding(s),
            within(s, turn_limit, round_limit),
            mover == s.current_decision_player->0,
            moves@ == s.legal_moves_bid(mover),
            group == bid_children(s),
            group.len() == moves@.len(),
            1 <= moves@.len() <= 256,
            i <= moves@.len(),
            buffer@.len() == old(buffer)@.len() + i,
            forall|k: int| 0 <= k < buffer@.len() ==> (#[trigger] buffer@[k]).wf(),
            stack_views(buffer@) == stack_views(old(buffer)@) + group.take(i as int),
        decreases moves@.len() - i,
    {
        let action: u8 = moves[i];
        proof {
            assert(s.legal_moves_bid(mover)[i as int] == action);
            lemma_bid_child(s, action, turn_limit, round_limit);
        }
        let child: GameState = state.manual_next_state_bid(mover, action);
        let ghost before = buffer@;
        buffer.push(child);
        proof {
            assert(group[i as int] == child@);
            assert(group.take(i + 1) =~= group.take(i as int).push(child@));
            assert(stack_views(buffer@) =~= stack_views(before).push(child@));
        }
        i += 1;
    }
    proof {
        assert(group.take(moves@.len() as int) =~= group);
        assert forall|k: int| 0 <= k < group.len() implies member_ok(
            #[trigger] group[k],
            s.path_encoding,
            s.n(),
            turn_limit,
            round_limit,
        ) && 0 <= depth_left(group[k]) < depth_left(s) by {
            let action = s.legal_moves_bid(mover)[k];
            assert(s.legal_moves_bid(mover)[k] == action);
            lemma_bid_child(s, action, turn_limit, round_limit);
            lemma_parent_of_action(s.path_encoding, mover, action);
            lemma_depth_nonneg(group[k]);
        }
    }
    moves.len()
}

/// Puts into the frontier the states that a reveal may lead to; none where
/// the deck is too short for a batch.
fn expand_reveals(
    buffer: &mut Vec<GameState>,
    state: &GameState,
    random_sample: bool,
    n_samples: u32,
    rng: &mut StdRng,
    Ghost(turn_limit): Ghost<int>,
    Ghost(round_limit): Ghost<int>,
) -> (res: (usize, Ghost<Seq<GameStateView>>, Ghost<Seq<Seq<u8>>>))
    requires
        state.wf(),
        round_over(state@),
        state@.game_phase == GamePhase::Bid,
        within(state@, turn_limit, round_limit),
        forall|i: int| 0 <= i < old(buffer)@.len() ==> (#[trigger] old(buffer)@[i]).wf(),
    ensures
        res.1@.len() == res.0,
        final(buffer)@.len() == old(buffer)@.len() + res.0,
        forall|i: int| 0 <= i < final(buffer)@.len() ==> (#[trigger] final(buffer)@[i]).wf(),
        stack_views(final(buffer)@) == stack_views(old(buffer)@) + res.1@,
        forall|i: int|
            0 <= i < res.1@.len() ==> member_ok(
                #[trigger] res.1@[i],
                state@.path_encoding,
                state@.n(),
                turn_limit,
                round_limit,
            ),
        forall|i: int|
            0 <= i < res.1@.len() ==> 0 <= depth_left(#[trigger] res.1@[i]) < depth_left(state@),
        random_sample && state@.deck().len() >= state@.n() ==> res.0 == n_samples,
        state@.deck().len() < state@.n() ==> res.0 == 0,
        res.1@ == reveal_children(state@, res.2@),
        batches_ok(state@, res.2@, (Sampling { random: random_sample, count: n_samples as nat })),
        !random_sample ==> res.1@ == children(state@),
        !random_sample ==> res.0 == reveal_count(state@),
        !random_sample ==> forall|i: int|
            0 <= i < reveal_count(state@) ==> #[trigger] child_ok(state@, i),
{
    let ghost s = state@;
    let ghost before = buffer@;
    proof {
        state.lemma_wf();
    }
    if state.get_remaining_deck_len() < state.no_players() as usize {
        proof {
            assert(stack_views(buffer@) =~= stack_views(before) + Seq::<GameStateView>::empty());
            assert(children(s) =~= Seq::<GameStateView>::empty());
            assert(reveal_children(s, Seq::<Seq<u8>>::empty()) =~= Seq::<GameStateView>::empty());
        }
        return (0, Ghost(Seq::empty()), Ghost(Seq::empty()));
    }
    let mut found: Vec<GameState> = state.reveal_auction_perms(random_sample, n_samples, rng);
    let count: usize = found.len();
    let ghost group = stack_views(found@);
    let ghost batches = if random_sample {
        Seq::new(
            found@.len(),
            |i: int|
                choose|values: Seq<u8>| #[trigger]
                    s.is_batch(values) && found@[i]@ == s.revealed_with(values),
        )
    } else {
        subsets_of(s.deck(), s.no_players as nat)
    };
    proof {
        if !random_sample {
            assert(group =~= children(s));
        }
        assert forall|i: int| 0 <= i < found@.len() implies s.is_batch(#[trigger] batches[i])
            && found@[i]@ == s.revealed_with(batches[i]) by {
            assert(s.reveals_to(found@[i]@));
        }
        assert(group =~= reveal_children(s, batches));
        assert forall|i: int| 0 <= i < group.len() implies member_ok(
            #[trigger] group[i],
            s.path_encoding,
            s.n(),
            turn_limit,
            round_limit,
        ) && 0 <= depth_left(group[i]) < depth_left(s) by {
            assert(s.reveals_to(found@[i]@));
            let values = choose|values: Seq<u8>| #[trigger]
                s.is_batch(values) && found@[i]@ == s.revealed_with(values);
            lemma_reveal_child(s, values, turn_limit, round_limit);
            law_parent_after_reveal(s, values);
            lemma_parent_of_batch(
                s.path_encoding,
                true,
                s.revealed_with(values).auction_pool,
            );
            lemma_depth_nonneg(group[i]);
        }
    }
    buffer.append(&mut found);
    proof {
        assert(stack_views(buffer@) =~= stack_views(before) + group);
    }
    (count, Ghost(group), Ghost(batches))
}

/// Scores a leaf and reports the score towards the root. A leaf one turn
/// below the root gets an entry of its own first.
fn update_score(
    scores: &mut AHashMap<String, ScoreMaxN>,
    initial_state: &GameState,
    initial_path_encoding: &String,
    leaf_state: &GameState,
)
    requires
        initial_state@.turn_no < u32::MAX,
        leaf_state.wf(),
        leaf_state@.auction_end(),
        table_ok(score_entries(*old(scores)), leaf_state@.n()),
        walk_ready(
            views(score_entries(*old(scores))),
            parent_of(leaf_state@.path_encoding),
            initial_path_encoding@,
            leaf_state@.n(),
        ),
    ensures
        table_ok(score_entries(*final(scores)), leaf_state@.n()),
        views(score_entries(*final(scores))) == walked(
            registered(
                views(score_entries(*old(scores))),
                leaf_state@,
                initial_state@.turn_no as int,
            ),
            parent_of(leaf_state@.path_encoding),
            round_scores(leaf_state@),
            initial_path_encoding@,
            initial_state@.turn_no as int,
        ),
{
    proof {
        leaf_state.lemma_wf();
        lemma_last_bar_range(leaf_state@.path_encoding);
    }
    let score: Vec<i64> = NaiveRoundScore::round_score_function(leaf_state);
    let parent_hash: String = leaf_state.get_parent_encoding();
    let ghost t = views(score_entries(*scores));
    if leaf_state.turn_no() == initial_state.turn_no() + 1 {
        let copy: Vec<i64> = score.clone();
        assert(copy@ =~= score@);
        let node = ScoreMaxN::scored(leaf_state, copy);
        scores_insert(scores, leaf_state.get_path_encoding(), node);
        proof {
            let u = views(score_entries(*scores));
            assert(u =~= registered(t, leaf_state@, initial_state@.turn_no as int));
            lemma_ready_frame(t, u, parent_hash@, initial_path_encoding@, leaf_state@.n());
        }
    }
    propagate(scores, initial_path_encoding, initial_state.turn_no(), parent_hash, score);
}

impl PlayerController for MaxNPlayer {
    /// The player can decide where a search over one round can start.
    open spec fn can_decide(&self, game_state: GameStateView) -> bool {
        search_root(game_state, 1)
    }

    /// The player decides for whoever is to move.
    open spec fn decides_for(&self, game_state: GameStateView) -> u8 {
        game_state.current_decision_player->0
    }

    /// The name of the player.
    fn nickname(&self) -> (res: String)
        ensures
            res@ == self.name()@,
    {
        self.nickname.clone()
    }

    /// The bid that is best for the player to move when the round is
    /// played out.
    fn decision(&mut self, game_state: &GameState) -> (res: u8)
        ensures
            res == best_bid(game_state@),
    {
        self.maximax_round(game_state, 1, false, 0)
    }
}

impl MaxNPlayer {
    /// A player with a random source seeded from the system's entropy, or
    /// from a fixed seed where the system gives none.
    pub fn new(id: u8, nickname: String, bool_print: bool, bool_log: bool) -> (res: Self)
        ensures
            res.id() == id,
            res.name()@ == nickname@,
    {
        MaxNPlayer {
            id,
            nickname,
            rng: fresh_rng(),
            buffer: Vec::with_capacity(10000),
            scores: scores_with_capacity(30000),
            bool_print,
            bool_log,
        }
    }

    /// A player whose random draws are fixed by `seed`.
    pub fn seeded(id: u8, nickname: String, bool_print: bool, bool_log: bool, seed: u64) -> (res:
        Self)
        ensures
            res.id() == id,
            res.name()@ == nickname@,
    {
        MaxNPlayer {
            id,
            nickname,
            rng: seeded_rng(seed),
            buffer: Vec::with_capacity(10000),
            scores: scores_with_capacity(30000),
            bool_print,
            bool_log,
        }
    }

    /// The seat that the player was made for.
    pub closed spec fn id(&self) -> u8 {
        self.id
    }

    /// The name that the player was made with.
    pub closed spec fn name(&self) -> String {
        self.nickname
    }

    /// The entries that the last search has left in the table.
    pub closed spec fn table(&self) -> Map<Seq<char>, ScoreView> {
        views(score_entries(self.scores))
    }

    /// The score that the last search has left for the state under `key`.
    pub fn score_of(&self, key: &String) -> (res: Option<Vec<i64>>)
        ensures
            res.is_some() == self.table().contains_key(key@),
            res.is_some() ==> res.unwrap()@ == self.table()[key@].score,
    {
        match scores_get(&self.scores, key) {
            Some(node) => {
                let score = node.score.clone();
                assert(score@ =~= node.score@);
                Some(score)
            },
            None => None,
        }
    }

    /// The bid that is best for the player to move in `initial_state`, by
    /// a search that looks `rounds` rounds ahead. A chance node is scored
    /// by the mean over every batch that may be revealed, or, where
    /// `random_sample` is set, over `n_samples` batches drawn at random; a
    /// chance node for which there is no batch is scored as it stands. The
    /// result is the best bid in the tree whose chance nodes have just the
    /// batches that the search has got: there is such a tree, with as many
    /// batches at each chance node as were asked for, each taken from the
    /// deck of that node.
    #[verifier::rlimit(60)]
    pub fn maximax_round(
        &mut self,
        initial_state: &GameState,
        rounds: u8,
        random_sample: bool,
        n_samples: u32,
    ) -> (res: u8)
        requires
            initial_state.wf(),
            search_root(initial_state@, rounds),
        ensures
            is_legal_bid(initial_state@, res),
            res == best_action(
                initial_state@,
                final(self).table(),
                bid_count(initial_state@),
            ).0,
            !random_sample || rounds == 1 ==> res == best_move(initial_state@, rounds),
            exists|drawn: Drawn| #[trigger]
                drawn_ok(
                    initial_state@,
                    drawn,
                    horizon(initial_state@, rounds),
                    (Sampling { random: random_sample, count: n_samples as nat }),
                ) && res == choice_with(
                    initial_state@,
                    drawn,
                    bid_count(initial_state@),
                    horizon(initial_state@, rounds),
                ).0,
            children_kept(initial_state@, final(self).table(), 0),
            final(self).table().contains_key(initial_state@.path_encoding),
            final(self).id() == old(self).id(),
            final(self).name() == old(self).name(),
    {
        let ghost root = initial_state@;
        let ghost players = root.n();
        let ghost h = horizon(root, rounds);
        let ghost exact = !random_sample || rounds == 1;
        let ghost mode = Sampling { random: random_sample, count: n_samples as nat };
        let terminal_round: u8 = initial_state.round_no() + rounds;
        let initial_path_encoding: String = initial_state.get_path_encoding();
        let mut buffer: Vec<GameState> = Vec::new();
        let mut scores: AHashMap<String, ScoreMaxN> = scores_with_capacity(30000);
        proof {
            initial_state.lemma_wf();
            lemma_depth_nonneg(root);
            lemma_live_coins_bound(root, root.n());
            assert(stack_views(buffer@) =~= Seq::<GameStateView>::empty());
        }
        let count: usize = expand_bids(
            &mut buffer,
            initial_state,
            Ghost(h.turn_limit),
            Ghost(h.round_limit),
        );
        let root_node = ScoreMaxN::default(initial_state, count, 0);
        scores_insert(&mut scores, initial_state.get_path_encoding(), root_node);
        let ghost mut chain: Seq<Link> = seq![
            Link { key: root.path_encoding, group: bid_children(root) },
        ];
        let ghost mut plans: Seq<Drawn> = seq![draws_of(Seq::empty(), bid_count(root) as nat)];
        proof {
            lemma_drawn_start(root, h, mode);
            lemma_start(root, h, exact);
            assert(views(score_entries(scores)) =~= Map::<Seq<char>, ScoreView>::empty().insert(
                root.path_encoding,
                ScoreView::fresh(root, bid_count(root) as nat, 0),
            ));
            assert(stack_views(buffer@) =~= flatten(chain));
        }
        while buffer.len() > 0
            invariant
                self.id == old(self).id,
                self.nickname == old(self).nickname,
                initial_state.wf(),
                root == initial_state@,
                players == root.n(),
                h == horizon(root, rounds),
                exact == (!random_sample || rounds == 1),
                root_ok(root, h),
                root.turn_no < u32::MAX,
                terminal_round == root.round_no + rounds,
                initial_path_encoding@ == root.path_encoding,
                table_ok(score_entries(scores), players),
                search_inv(root, h, exact, views(score_entries(scores)), chain),
                drawn_inv(root, views(score_entries(scores)), chain, plans, h, mode),
                mode == (Sampling { random: random_sample, count: n_samples as nat }),
                stack_views(buffer@) == flatten(chain),
                forall|i: int| 0 <= i < buffer@.len() ==> (#[trigger] buffer@[i]).wf(),
            decreases weight(flatten(chain)),
        {
            let ghost t = views(score_entries(scores));
            let ghost old_flat = flatten(chain);
            proof {
                assert(stack_views(buffer@).len() == buffer@.len());
                lemma_pop(root, h, exact, t, chain);
                lemma_pop(root, h, false, t, chain);
                lemma_drawn_pop(root, t, chain, plans, h, mode);
            }
            let leaf_state: GameState = buffer.pop().unwrap();
            let ghost leaf = leaf_state@;
            let ghost popped = with_group(chain, chain.last().group.drop_last());
            proof {
                assert(leaf == old_flat.last());
                assert(stack_views(buffer@) =~= flatten(popped));
                leaf_state.lemma_wf();
                lemma_last_bar_range(leaf.path_encoding);
            }
            if leaf_state.auction_end() {
                let mut count: usize = 0;
                let ghost mut group: Seq<GameStateView> = Seq::empty();
                let ghost mut batches: Seq<Seq<u8>> = Seq::empty();
                if !(leaf_state.round_no() == terminal_round || leaf_state.game_phase()
                    == GamePhase::Sell) {
                    proof {
                        if rounds == 1 {
                            lemma_single_leaf(root, h, t, popped, leaf);
                        }
                    }
                    let found = expand_reveals(
                        &mut buffer,
                        &leaf_state,
                        random_sample,
                        n_samples,
                        &mut self.rng,
                        Ghost(h.turn_limit),
                        Ghost(h.round_limit),
                    );
                    count = found.0;
                    proof {
                        group = found.1@;
                        batches = found.2@;
                        assert(stack_views(buffer@) =~= flatten(popped) + group);
                    }
                }
                if count == 0 {
                    proof {
                        assert(group =~= Seq::<GameStateView>::empty());
                        assert(stack_views(buffer@) =~= flatten(popped));
                        assert(batches =~= Seq::<Seq<u8>>::empty());
                        lemma_leaf(root, h, exact, t, popped, leaf);
                        lemma_drawn_leaf(root, h, mode, t, popped, plans, leaf);
                    }
                    update_score(&mut scores, initial_state, &initial_path_encoding, &leaf_state);
                    proof {
                        plans = plans_after(
                            registered(t, leaf, root.turn_no as int),
                            popped,
                            plans,
                            round_scores(leaf),
                            no_draws(),
                            root.path_encoding,
                            root.turn_no as int,
                        );
                        chain = trimmed(
                            popped.take(
                                walk_stop(
                                    registered(t, leaf, root.turn_no as int),
                                    popped,
                                    round_scores(leaf),
                                    root.path_encoding,
                                    root.turn_no as int,
                                ) + 1,
                            ),
                        );
                    }
                } else {
                    let node = ScoreMaxN::default(&leaf_state, count, 0);
                    scores_insert(&mut scores, leaf_state.get_path_encoding(), node);
                    proof {
                        assert(views(score_entries(scores)) =~= t.insert(
                            leaf.path_encoding,
                            ScoreView::fresh(leaf, group.len(), 0),
                        ));
                        lemma_open(root, h, exact, t, popped, leaf, group);
                        lemma_drawn_open(root, h, mode, t, popped, plans, leaf, batches, group);
                        plans = plans.push(draws_of(batches, group.len()));
                        chain = trimmed(popped.push(Link { key: leaf.path_encoding, group }));
                    }
                }
            } else {
                Self::deepen_search(
                    &mut scores,
                    &mut buffer,
                    &leaf_state,
                    Ghost(h.turn_limit),
                    Ghost(h.round_limit),
                );
                proof {
                    let group = bid_children(leaf);
                    assert(children(leaf) =~= group);
                    lemma_open(root, h, exact, t, popped, leaf, group);
                    lemma_drawn_open(root, h, mode, t, popped, plans, leaf, Seq::empty(), group);
                    plans = plans.push(draws_of(Seq::empty(), group.len()));
                    chain = trimmed(popped.push(Link { key: leaf.path_encoding, group }));
                }
            }
        }
        proof {
            lemma_end(root, h, exact, views(score_entries(scores)), chain);
            lemma_drawn_end(root, h, mode, views(score_entries(scores)), chain, plans);
        }
        let best: u8 = Self::get_best_action(&scores, initial_state);
        self.scores = scores;
        self.buffer = buffer;
        proof {
            lemma_best_action_legal(root, self.table(), bid_count(root));
        }
        best
    }

    /// The bid that is best for the player to move in `root_state`, by a
    /// search that looks `horizon_rounds` rounds ahead; nothing where no
    /// search can start from the state.
    pub fn search_best_move(
        &mut self,
        root_state: &GameState,
        horizon_rounds: u8,
        random_sample: bool,
        sample_count: u32,
    ) -> (res: Option<u8>)
        requires
            root_state.wf(),
        ensures
            res.is_some() == search_root(root_state@, horizon_rounds),
            res.is_some() ==> is_legal_bid(root_state@, res.unwrap()),
            res.is_some() ==> res.unwrap() == best_action(
                root_state@,
                final(self).table(),
                bid_count(root_state@),
            ).0,
            res.is_some() && (!random_sample || horizon_rounds == 1) ==> res.unwrap() == best_move(
                root_state@,
                horizon_rounds,
            ),
            res.is_some() ==> exists|drawn: Drawn| #[trigger]
                drawn_ok(
                    root_state@,
                    drawn,
                    horizon(root_state@, horizon_rounds),
                    (Sampling { random: random_sample, count: sample_count as nat }),
                ) && res.unwrap() == choice_with(
                    root_state@,
                    drawn,
                    bid_count(root_state@),
                    horizon(root_state@, horizon_rounds),
                ).0,
            res.is_some() ==> children_kept(root_state@, final(self).table(), 0),
            res.is_none() ==> final(self).table() == old(self).table(),
            final(self).id() == old(self).id(),
            final(self).name() == old(self).name(),
    {
        if !root_state.awaits_bid() {
            return None;
        }
        let depth: u128 = root_state.bids_left();
        let deck: usize = root_state.get_remaining_deck_len();
        if depth > u32::MAX as u128 - root_state.turn_no() as u128 {
            return None;
        }
        if root_state.round_no() as u128 + deck as u128 + 1 > u8::MAX as u128 {
            return None;
        }
        if root_state.round_no() as u16 + horizon_rounds as u16 > u8::MAX as u16 {
            return None;
        }
        Some(self.maximax_round(root_state, horizon_rounds, random_sample, sample_count))
    }

    /// Puts the children of a state in which a player is to bid into the
    /// frontier, and an entry for the state into the table.
    fn deepen_search(
        scores: &mut AHashMap<String, ScoreMaxN>,
        buffer: &mut Vec<GameState>,
        leaf_state: &GameState,
        Ghost(turn_limit): Ghost<int>,
        Ghost(round_limit): Ghost<int>,
    )
        requires
            leaf_state.wf(),
            bidding(leaf_state@),
            within(leaf_state@, turn_limit, round_limit),
            table_ok(score_entries(*old(scores)), leaf_state@.n()),
            forall|i: int| 0 <= i < old(buffer)@.len() ==> (#[trigger] old(buffer)@[i]).wf(),
        ensures
            forall|i: int| 0 <= i < final(buffer)@.len() ==> (#[trigger] final(buffer)@[i]).wf(),
            stack_views(final(buffer)@) == stack_views(old(buffer)@) + bid_children(leaf_state@),
            table_ok(score_entries(*final(scores)), leaf_state@.n()),
            views(score_entries(*final(scores))) == views(score_entries(*old(scores))).insert(
                leaf_state@.path_encoding,
                ScoreView::fresh(leaf_state@, bid_children(leaf_state@).len(), 0),
            ),
            1 <= bid_children(leaf_state@).len() <= 256,
            forall|i: int|
                0 <= i < bid_children(leaf_state@).len() ==> member_ok(
                    #[trigger] bid_children(leaf_state@)[i],
                    leaf_state@.path_encoding,
                    leaf_state@.n(),
                    turn_limit,
                    round_limit,
                ),
            forall|i: int|
                0 <= i < bid_children(leaf_state@).len() ==> 0 <= depth_left(
                    #[trigger] bid_children(leaf_state@)[i],
                ) < depth_left(leaf_state@),
    {
        let child_states_count: usize = expand_bids(
            buffer,
            leaf_state,
            Ghost(turn_limit),
            Ghost(round_limit),
        );
        let node = ScoreMaxN::default(leaf_state, child_states_count, 0);
        let ghost t = views(score_entries(*scores));
        scores_insert(scores, leaf_state.get_path_encoding(), node);
        proof {
            assert(views(score_entries(*scores)) =~= t.insert(leaf_state@.path_encoding, node@));
        }
    }

    /// The best legal action of the player to move, by the scores that the
    /// table has for the states that the actions lead to.
    fn get_best_action(scores: &AHashMap<String, ScoreMaxN>, initial_state: &GameState) -> (res:
        u8)
        requires
            initial_state.wf(),
            bidding(initial_state@),
            within(initial_state@, turn_limit(initial_state@), round_limit(initial_state@)),
            table_ok(score_entries(*scores), initial_state@.n()),
        ensures
            res == best_action(
                initial_state@,
                views(score_entries(*scores)),
                initial_state@.legal_moves_bid(initial_state@.current_decision_player->0).len() as int,
            ).0,
    {
        let ghost root = initial_state@;
        let ghost t = views(score_entries(*scores));
        let mover: u8 = initial_state.current_player();
        let moves: Vec<u8> = initial_state.legal_moves(mover);
        let mut best_action_found: u8 = 0;
        let mut best_score: i64 = i64::MIN;
        let mut i: usize = 0;
        proof {
            initial_state.lemma_wf();
        }
        while i < moves.len()
            invariant
                initial_state.wf(),
                root == initial_state@,
                bidding(root),
                within(root, turn_limit(root), round_limit(root)),
                t == views(score_entries(*scores)),
                table_ok(score_entries(*scores), root.n()),
                mover == root.current_decision_player->0,
                moves@ == root.legal_moves_bid(mover),
                i <= moves@.len(),
                (best_action_found, best_score) == best_action(root, t, i as int),
            decreases moves@.len() - i,
        {
            let action: u8 = moves[i];
            proof {
                assert(root.legal_moves_bid(mover)[i as int] == action);
                lemma_bid_child(root, action, turn_limit(root), round_limit(root));
            }
            let next_state: GameState = initial_state.manual_next_state_bid(mover, action);
            let key: String = next_state.get_path_encoding();
            match scores_get(scores, &key) {
                Some(node) => {
                    proof {
                        assert(score_entries(*scores).contains_key(key@));
                        assert(t[key@] == node@);
                    }
                    if best_score < node.score[mover as usize] {
                        best_action_found = action;
                        best_score = node.score[mover as usize];
                    }
                },
                None => {},
            }
            i += 1;
        }
        best_action_found
    }

    /// The scores of all players at the end of a round.
    pub fn round_score_function(game_state: &GameState) -> (res: Vec<i64>)
        requires
            game_state.wf(),
            game_state@.auction_end(),
        ensures
            res@ == round_scores(game_state@),
    {
        NaiveRoundScore::round_score_function(game_state)
    }
}

} // verus!
