//! The steps of a search that may draw its batches: beside the table and
//! the open nodes stands what was drawn at each open node and below those
//! of its children that are done, and the table ends up with what each bid
//! of the player to move is worth in the tree that was drawn.

use crate::engines::algorithms::drawn_value::{
    batches_ok, choice_with, draws_of, drawn_ok, entry_with, kids, lemma_entry_frame,
    lemma_entry_takes, no_draws, stops, worth_with, Drawn, Sampling,
};
use crate::engines::algorithms::frontier::{
    chain_ok, lemma_chain_drop, lemma_chain_frame, lemma_keys_grow, lemma_last_key_apart,
    lemma_walk, link_ok, same_above, trimmed, walk_stop, with_group, Link,
};
use crate::engines::algorithms::game_value::{
    bid_child, bid_children, bid_count, lemma_bid_child_state, lemma_bid_children_differ, Horizon,
};
use crate::engines::algorithms::maxn_player::{best_action, child_key, registered};
use crate::engines::algorithms::propagation::{evicted, walked};
use crate::engines::algorithms::score_node::{lemma_absorbed_wf, ScoreView};
use crate::engines::algorithms::search_model::lemma_live_coins_bound;
use crate::engines::algorithms::search_steps::{
    lemma_root_state_kept, popped_inv, root_ok, unscored_bids,
};
use crate::engines::scorers::naive_round_score::round_scores;
use crate::models::encoding::{lemma_parent_of_action, parent_of};
use crate::models::state_view::GameStateView;
use vstd::prelude::*;

verus! {

/// What was drawn, with `q` as what was drawn below the `i`-th child.
pub open spec fn with_below(p: Drawn, i: int, q: Drawn) -> Drawn {
    Drawn { batches: p.batches, below: p.below.update(i, q) }
}

/// What holds of the open node at place `j` and of what was drawn at it:
/// its waiting children are the first of its children in the tree, the
/// entry waits for just these (and for the child that is open itself, or
/// the `pending` reports owed), and the entry is what the children that
/// have reported come to.
pub open spec fn link_drawn(
    t: Map<Seq<char>, ScoreView>,
    chain: Seq<Link>,
    plans: Seq<Drawn>,
    j: int,
    pending: int,
    h: Horizon,
    mode: Sampling,
) -> bool {
    let link = chain[j];
    let node = t[link.key];
    let p = plans[j];
    let owed = link.group.len() + (if j < chain.len() - 1 {
        1
    } else {
        pending
    });
    &&& !stops(node.state, p, h)
    &&& p.below.len() == kids(node.state, p).len()
    &&& owed <= kids(node.state, p).len()
    &&& node.remaining_children == owed
    &&& node == entry_with(node.state, p, owed, h)
    &&& node.state.auction_end() ==> batches_ok(node.state, p.batches, mode)
    &&& forall|i: int|
        owed <= i < p.below.len() ==> drawn_ok(kids(node.state, p)[i], #[trigger] p.below[i], h, mode)
    &&& link.group == kids(node.state, p).take(link.group.len() as int)
    &&& j >= 1 ==> node.state == kids(t[chain[j - 1].key].state, plans[j - 1])[chain[j
        - 1].group.len() as int]
}

/// What holds of the chain of open nodes and of what was drawn at them.
pub open spec fn chain_drawn(
    t: Map<Seq<char>, ScoreView>,
    chain: Seq<Link>,
    plans: Seq<Drawn>,
    pending: int,
    h: Horizon,
    mode: Sampling,
) -> bool {
    &&& plans.len() == chain.len()
    &&& forall|j: int|
        0 <= j < chain.len() ==> #[trigger] link_drawn(t, chain, plans, j, pending, h, mode)
}

/// What was drawn at the open nodes after a child of the last node, below
/// which `q` was drawn, has reported `score`: the last node takes `q` in;
/// where the node is done with that, it leaves the chain, and what was
/// drawn below it goes to its parent in turn.
pub open spec fn plans_after(
    t: Map<Seq<char>, ScoreView>,
    chain: Seq<Link>,
    plans: Seq<Drawn>,
    score: Seq<i64>,
    q: Drawn,
    root_key: Seq<char>,
    root_turn: int,
) -> Seq<Drawn>
    decreases chain.len(),
{
    let last = chain.len() - 1;
    let key = chain.last().key;
    let node = t[key].absorbed(score);
    let filled = with_below(plans.last(), chain.last().group.len() as int, q);
    if chain.len() <= 1 || node.remaining_children >= 1 || key == root_key {
        plans.update(last, filled)
    } else {
        let taken = t.insert(key, node);
        let kept = if evicted(node, root_turn) {
            taken.remove(key)
        } else {
            taken
        };
        plans_after(
            kept,
            chain.drop_last(),
            plans.drop_last(),
            node.score,
            filled,
            root_key,
            root_turn,
        )
    }
}

/// Whether the table has, for each bid of the player to move from the
/// `from`-th on, what the bid is worth in the tree that was drawn.
pub open spec fn scored_with(
    root: GameStateView,
    t: Map<Seq<char>, ScoreView>,
    p: Drawn,
    from: int,
    h: Horizon,
) -> bool {
    forall|i: int|
        from <= i < bid_count(root) ==> t.contains_key(#[trigger] child_key(root, i))
            && t[child_key(root, i)].score == worth_with(bid_child(root, i), p.below[i], h)
}

/// What holds of table, chain and draws between two steps of a search.
pub open spec fn drawn_inv(
    root: GameStateView,
    t: Map<Seq<char>, ScoreView>,
    chain: Seq<Link>,
    plans: Seq<Drawn>,
    h: Horizon,
    mode: Sampling,
) -> bool {
    &&& chain_drawn(t, chain, plans, 0, h, mode)
    &&& t[chain[0].key].state == root
    &&& scored_with(root, t, plans[0], unscored_bids(chain), h)
}

/// What holds of table, chain and draws once `leaf` has left the frontier
/// and before its entry or its score is in the table.
pub open spec fn popped_drawn(
    root: GameStateView,
    t: Map<Seq<char>, ScoreView>,
    popped: Seq<Link>,
    plans: Seq<Drawn>,
    leaf: GameStateView,
    h: Horizon,
    mode: Sampling,
) -> bool {
    &&& chain_drawn(t, popped, plans, 1, h, mode)
    &&& leaf == kids(t[popped.last().key].state, plans.last())[popped.last().group.len() as int]
    &&& t[popped[0].key].state == root
    &&& scored_with(root, t, plans[0], popped[0].group.len() as int + 1, h)
}

/// What holds of chain and draws depends on the entries of the chain's own
/// nodes only.
proof fn lemma_drawn_frame(
    t: Map<Seq<char>, ScoreView>,
    u: Map<Seq<char>, ScoreView>,
    chain: Seq<Link>,
    plans: Seq<Drawn>,
    pending: int,
    h: Horizon,
    mode: Sampling,
)
    requires
        chain_drawn(t, chain, plans, pending, h, mode),
        forall|j: int| 0 <= j < chain.len() ==> u[(#[trigger] chain[j]).key] == t[chain[j].key],
    ensures
        chain_drawn(u, chain, plans, pending, h, mode),
{
    assert forall|j: int| 0 <= j < chain.len() implies #[trigger] link_drawn(
        u,
        chain,
        plans,
        j,
        pending,
        h,
        mode,
    ) by {
        assert(link_drawn(t, chain, plans, j, pending, h, mode));
        assert(u[chain[j].key] == t[chain[j].key]);
        if j >= 1 {
            assert(u[chain[j - 1].key] == t[chain[j - 1].key]);
        }
    }
}

/// What a node holds after the child that it waits for has reported, and
/// what is then drawn below the node.
proof fn lemma_drawn_takes(
    node: ScoreView,
    p: Drawn,
    q: Drawn,
    score: Seq<i64>,
    g: int,
    h: Horizon,
    mode: Sampling,
)
    requires
        !stops(node.state, p, h),
        p.below.len() == kids(node.state, p).len(),
        0 <= g < kids(node.state, p).len(),
        node.remaining_children == g + 1,
        node == entry_with(node.state, p, g + 1, h),
        node.state.auction_end() ==> batches_ok(node.state, p.batches, mode),
        forall|i: int|
            g + 1 <= i < p.below.len() ==> drawn_ok(
                kids(node.state, p)[i],
                #[trigger] p.below[i],
                h,
                mode,
            ),
        score == worth_with(kids(node.state, p)[g], q, h),
        drawn_ok(kids(node.state, p)[g], q, h, mode),
    ensures
        node.absorbed(score) == entry_with(node.state, with_below(p, g, q), g, h),
        node.absorbed(score).state == node.state,
        node.absorbed(score).remaining_children == g,
        kids(node.state, with_below(p, g, q)) == kids(node.state, p),
        !stops(node.state, with_below(p, g, q), h),
        forall|i: int|
            g <= i < p.below.len() ==> drawn_ok(
                kids(node.state, p)[i],
                #[trigger] with_below(p, g, q).below[i],
                h,
                mode,
            ),
        g == 0 ==> drawn_ok(node.state, with_below(p, g, q), h, mode),
{
    let filled = with_below(p, g, q);
    assert(kids(node.state, filled) == kids(node.state, p));
    lemma_entry_takes(node.state, filled, g, h);
    lemma_entry_frame(node.state, filled, p, g + 1, h);
    assert(filled.below[g] == q);
    assert forall|i: int| g <= i < p.below.len() implies drawn_ok(
        kids(node.state, p)[i],
        #[trigger] filled.below[i],
        h,
        mode,
    ) by {
        if i > g {
            assert(filled.below[i] == p.below[i]);
        }
    }
    if g == 0 {
        assert forall|i: int| 0 <= i < filled.below.len() implies drawn_ok(
            kids(node.state, filled)[i],
            #[trigger] filled.below[i],
            h,
            mode,
        ) by {}
    }
}

/// A report that comes to rest at the last node leaves a chain of the same
/// kind, owed nothing.
proof fn lemma_drawn_stop(
    t: Map<Seq<char>, ScoreView>,
    u: Map<Seq<char>, ScoreView>,
    chain: Seq<Link>,
    plans: Seq<Drawn>,
    score: Seq<i64>,
    q: Drawn,
    h: Horizon,
    mode: Sampling,
)
    requires
        chain.len() >= 1,
        chain_drawn(t, chain, plans, 1, h, mode),
        score == worth_with(
            kids(t[chain.last().key].state, plans.last())[chain.last().group.len() as int],
            q,
            h,
        ),
        drawn_ok(
            kids(t[chain.last().key].state, plans.last())[chain.last().group.len() as int],
            q,
            h,
            mode,
        ),
        u[chain.last().key] == t[chain.last().key].absorbed(score),
        same_above(t, u, chain),
    ensures
        chain_drawn(
            u,
            chain,
            plans.update(
                chain.len() - 1,
                with_below(plans.last(), chain.last().group.len() as int, q),
            ),
            0,
            h,
            mode,
        ),
{
    let last = chain.len() - 1;
    let g = chain[last].group.len() as int;
    let filled = with_below(plans.last(), g, q);
    let after = plans.update(last, filled);
    assert(link_drawn(t, chain, plans, last, 1, h, mode));
    lemma_drawn_takes(t[chain[last].key], plans[last], q, score, g, h, mode);
    assert forall|j: int| 0 <= j < chain.len() implies #[trigger] link_drawn(
        u,
        chain,
        after,
        j,
        0,
        h,
        mode,
    ) by {
        assert(link_drawn(t, chain, plans, j, 1, h, mode));
        if j < last {
            assert(u[chain[j].key] == t[chain[j].key]);
            assert(after[j] == plans[j]);
        } else {
            assert(after[j] == filled);
        }
        if j >= 1 {
            assert(u[chain[j - 1].key] == t[chain[j - 1].key]);
            assert(after[j - 1] == plans[j - 1]);
        }
    }
}

/// A report that passes the last node leaves the chain without that node
/// owed the node's own worth.
proof fn lemma_drawn_pass(
    t: Map<Seq<char>, ScoreView>,
    u: Map<Seq<char>, ScoreView>,
    chain: Seq<Link>,
    plans: Seq<Drawn>,
    score: Seq<i64>,
    q: Drawn,
    h: Horizon,
    mode: Sampling,
)
    requires
        chain.len() >= 2,
        chain_drawn(t, chain, plans, 1, h, mode),
        score == worth_with(
            kids(t[chain.last().key].state, plans.last())[chain.last().group.len() as int],
            q,
            h,
        ),
        drawn_ok(
            kids(t[chain.last().key].state, plans.last())[chain.last().group.len() as int],
            q,
            h,
            mode,
        ),
        t[chain.last().key].absorbed(score).remaining_children == 0,
        same_above(t, u, chain),
    ensures
        chain_drawn(u, chain.drop_last(), plans.drop_last(), 1, h, mode),
        chain.last().group.len() == 0,
        t[chain.last().key].absorbed(score).score == worth_with(
            kids(
                u[chain.drop_last().last().key].state,
                plans.drop_last().last(),
            )[chain.drop_last().last().group.len() as int],
            with_below(plans.last(), 0, q),
            h,
        ),
        t[chain.last().key].absorbed(score).score == worth_with(
            t[chain.last().key].state,
            with_below(plans.last(), 0, q),
            h,
        ),
        drawn_ok(
            kids(
                u[chain.drop_last().last().key].state,
                plans.drop_last().last(),
            )[chain.drop_last().last().group.len() as int],
            with_below(plans.last(), 0, q),
            h,
            mode,
        ),
{
    let last = chain.len() - 1;
    let shorter = chain.drop_last();
    let fewer = plans.drop_last();
    assert(link_drawn(t, chain, plans, last, 1, h, mode));
    let g = chain[last].group.len() as int;
    lemma_drawn_takes(t[chain[last].key], plans[last], q, score, g, h, mode);
    assert(shorter[last - 1] == chain[last - 1]);
    assert(fewer[last - 1] == plans[last - 1]);
    assert(u[chain[last - 1].key] == t[chain[last - 1].key]);
    assert forall|j: int| 0 <= j < shorter.len() implies #[trigger] link_drawn(
        u,
        shorter,
        fewer,
        j,
        1,
        h,
        mode,
    ) by {
        assert(link_drawn(t, chain, plans, j, 1, h, mode));
        assert(shorter[j] == chain[j]);
        assert(fewer[j] == plans[j]);
        assert(u[chain[j].key] == t[chain[j].key]);
        if j >= 1 {
            assert(shorter[j - 1] == chain[j - 1]);
            assert(fewer[j - 1] == plans[j - 1]);
            assert(u[chain[j - 1].key] == t[chain[j - 1].key]);
        }
    }
}

/// A report of what a child is worth in the tree that was drawn leaves
/// every open node with the entry that its reported children come to. What
/// was drawn at the root changes only below the child that is open.
pub proof fn lemma_walk_drawn(
    t: Map<Seq<char>, ScoreView>,
    chain: Seq<Link>,
    plans: Seq<Drawn>,
    score: Seq<i64>,
    q: Drawn,
    root_key: Seq<char>,
    root_turn: int,
    players: int,
    turn_limit: int,
    round_limit: int,
    h: Horizon,
    mode: Sampling,
)
    requires
        chain_ok(t, chain, root_key, players, turn_limit, round_limit, 1),
        score.len() == players,
        chain_drawn(t, chain, plans, 1, h, mode),
        score == worth_with(
            kids(t[chain.last().key].state, plans.last())[chain.last().group.len() as int],
            q,
            h,
        ),
        drawn_ok(
            kids(t[chain.last().key].state, plans.last())[chain.last().group.len() as int],
            q,
            h,
            mode,
        ),
    ensures
        chain_drawn(
            walked(t, chain.last().key, score, root_key, root_turn),
            chain.take(walk_stop(t, chain, score, root_key, root_turn) + 1),
            plans_after(t, chain, plans, score, q, root_key, root_turn),
            0,
            h,
            mode,
        ),
        walk_stop(t, chain, score, root_key, root_turn) == 0 || chain[walk_stop(
            t,
            chain,
            score,
            root_key,
            root_turn,
        )].group.len() > 0,
        plans_after(t, chain, plans, score, q, root_key, root_turn)[0].below.len()
            == plans[0].below.len(),
        forall|i: int|
            0 <= i < plans[0].below.len() && i != chain[0].group.len() ==> (#[trigger] plans_after(
                t,
                chain,
                plans,
                score,
                q,
                root_key,
                root_turn,
            )[0].below[i]) == plans[0].below[i],
        chain.len() == 1 ==> plans_after(t, chain, plans, score, q, root_key, root_turn)[0].below[chain[0].group.len() as int]
            == q,
        chain.len() >= 2 && walk_stop(t, chain, score, root_key, root_turn) == 0 && !evicted(
            t[chain[1].key],
            root_turn,
        ) ==> walked(t, chain.last().key, score, root_key, root_turn).contains_key(chain[1].key)
            && walked(t, chain.last().key, score, root_key, root_turn)[chain[1].key].score
            == worth_with(
            t[chain[1].key].state,
            plans_after(t, chain, plans, score, q, root_key, root_turn)[0].below[chain[0].group.len() as int],
            h,
        ),
    decreases chain.len(),
{
    let last = chain.len() - 1;
    let key = chain.last().key;
    let g = chain.last().group.len() as int;
    assert(link_ok(t, chain, last, players, turn_limit, round_limit, 1));
    assert(link_drawn(t, chain, plans, last, 1, h, mode));
    assert(link_drawn(t, chain, plans, 0, 1, h, mode));
    let node = t[key].absorbed(score);
    let taken = t.insert(key, node);
    let after = walked(t, key, score, root_key, root_turn);
    let filled = with_below(plans.last(), g, q);
    lemma_last_key_apart(t, chain, root_key, players, turn_limit, round_limit);
    lemma_drawn_takes(t[key], plans[last], q, score, g, h, mode);
    if node.remaining_children >= 1 || key == root_key {
        assert(after == taken);
        assert(chain.take(last + 1) =~= chain);
        assert(same_above(t, taken, chain));
        lemma_drawn_stop(t, taken, chain, plans, score, q, h, mode);
        if chain.len() >= 2 {
            assert(last >= 1);
        }
    } else {
        let kept = if evicted(node, root_turn) {
            taken.remove(key)
        } else {
            taken
        };
        let shorter = chain.drop_last();
        let fewer = plans.drop_last();
        assert(after == walked(kept, parent_of(key), node.score, root_key, root_turn));
        assert(parent_of(key) == shorter.last().key);
        assert(same_above(t, kept, chain));
        lemma_drawn_pass(t, kept, chain, plans, score, q, h, mode);
        lemma_absorbed_wf(t[key], score);
        lemma_chain_drop(t, chain, root_key, players, turn_limit, round_limit, 1);
        assert forall|j: int| 0 <= j < shorter.len() implies kept.contains_key(
            (#[trigger] shorter[j]).key,
        ) && kept[shorter[j].key] == t[shorter[j].key] by {
            assert(shorter[j] == chain[j]);
            assert(chain[j].key != key);
            assert(link_ok(t, chain, j, players, turn_limit, round_limit, 1));
        }
        lemma_chain_frame(t, kept, shorter, root_key, players, turn_limit, round_limit, 1);
        lemma_walk_drawn(
            kept,
            shorter,
            fewer,
            node.score,
            filled,
            root_key,
            root_turn,
            players,
            turn_limit,
            round_limit,
            h,
            mode,
        );
        let j = walk_stop(kept, shorter, node.score, root_key, root_turn);
        assert(j == walk_stop(t, chain, score, root_key, root_turn));
        let walk = lemma_walk(
            kept,
            shorter,
            node.score,
            root_key,
            root_turn,
            players,
            turn_limit,
            round_limit,
        );
        assert(shorter.take(j + 1) =~= chain.take(j + 1));
        assert(shorter[j] == chain[j]);
        assert(shorter[0] == chain[0]);
        assert(fewer[0] == plans[0]);
        if j == 0 && !evicted(t[chain[1].key], root_turn) {
            if chain.len() == 2 {
                assert(chain[1].key == key);
                assert(kept.contains_key(key) && kept[key] == node);
                assert forall|m: int| 0 <= m < shorter.len() implies (#[trigger] shorter[m]).key
                    != key by {
                    assert(shorter[m] == chain[m]);
                }
                assert(after.contains_key(key) == kept.contains_key(key) && after[key]
                    == kept[key]);
            } else {
                assert(shorter[1] == chain[1]);
                assert(kept[shorter[1].key] == t[shorter[1].key]);
            }
        }
    }
}

/// The start of a search: nothing is drawn, and nothing has reported.
pub proof fn lemma_drawn_start(root: GameStateView, h: Horizon, mode: Sampling)
    requires
        root_ok(root, h),
        bid_count(root) >= 1,
    ensures
        drawn_inv(
            root,
            Map::<Seq<char>, ScoreView>::empty().insert(
                root.path_encoding,
                ScoreView::fresh(root, bid_count(root) as nat, 0),
            ),
            seq![Link { key: root.path_encoding, group: bid_children(root) }],
            seq![draws_of(Seq::empty(), bid_count(root) as nat)],
            h,
            mode,
        ),
{
    let node = ScoreView::fresh(root, bid_count(root) as nat, 0);
    let t = Map::<Seq<char>, ScoreView>::empty().insert(root.path_encoding, node);
    let chain = seq![Link { key: root.path_encoding, group: bid_children(root) }];
    let p = draws_of(Seq::empty(), bid_count(root) as nat);
    let plans = seq![p];
    assert(kids(root, p) == bid_children(root));
    assert(bid_children(root).take(bid_count(root)) =~= bid_children(root));
    assert(link_drawn(t, chain, plans, 0, 0, h, mode));
}

/// Taking the last state out of the frontier.
pub proof fn lemma_drawn_pop(
    root: GameStateView,
    t: Map<Seq<char>, ScoreView>,
    chain: Seq<Link>,
    plans: Seq<Drawn>,
    h: Horizon,
    mode: Sampling,
)
    requires
        chain.len() >= 1,
        drawn_inv(root, t, chain, plans, h, mode),
        chain.last().group.len() > 0,
    ensures
        popped_drawn(
            root,
            t,
            with_group(chain, chain.last().group.drop_last()),
            plans,
            chain.last().group.last(),
            h,
            mode,
        ),
{
    let group = chain.last().group;
    let popped = with_group(chain, group.drop_last());
    let last = chain.len() - 1;
    assert(link_drawn(t, chain, plans, last, 0, h, mode));
    let all = kids(t[chain[last].key].state, plans[last]);
    assert(group[group.len() - 1] == all[group.len() - 1]);
    assert forall|j: int| 0 <= j < popped.len() implies #[trigger] link_drawn(
        t,
        popped,
        plans,
        j,
        1,
        h,
        mode,
    ) by {
        assert(link_drawn(t, chain, plans, j, 0, h, mode));
        if j == last {
            assert(popped[j].group =~= all.take(group.len() - 1));
        } else {
            assert(popped[j] == chain[j]);
        }
        if j >= 1 {
            assert(popped[j - 1].key == chain[j - 1].key);
            assert(popped[j - 1].group == chain[j - 1].group);
        }
    }
    assert(popped[0].key == chain[0].key);
}

/// The key of the state after a bid at the root is no key of the chain,
/// unless the state is the open child of the root.
proof fn lemma_drawn_key_apart(
    root: GameStateView,
    h: Horizon,
    mode: Sampling,
    t: Map<Seq<char>, ScoreView>,
    chain: Seq<Link>,
    plans: Seq<Drawn>,
    i: int,
    m: int,
)
    requires
        root_ok(root, h),
        chain_ok(t, chain, root.path_encoding, root.n(), h.turn_limit, h.round_limit, 1),
        chain_drawn(t, chain, plans, 1, h, mode),
        t[chain[0].key].state == root,
        0 <= i < bid_count(root),
        i != chain[0].group.len(),
        0 <= m < chain.len(),
    ensures
        chain[m].key != child_key(root, i),
{
    let mover = root.current_decision_player->0;
    lemma_parent_of_action(root.path_encoding, mover, root.legal_moves_bid(mover)[i]);
    assert(link_ok(t, chain, m, root.n(), h.turn_limit, h.round_limit, 1));
    assert(link_drawn(t, chain, plans, m, 1, h, mode));
    if m == 0 {
    } else if m == 1 {
        assert(link_drawn(t, chain, plans, 0, 1, h, mode));
        lemma_bid_children_differ(root, i, chain[0].group.len() as int);
    } else {
        lemma_keys_grow(
            t,
            chain,
            root.path_encoding,
            root.n(),
            h.turn_limit,
            h.round_limit,
            1,
            0,
            m - 1,
        );
    }
}

/// A leaf that has left the frontier and has reported: table, chain and
/// draws are as they should be between two steps.
pub proof fn lemma_drawn_leaf(
    root: GameStateView,
    h: Horizon,
    mode: Sampling,
    t: Map<Seq<char>, ScoreView>,
    popped: Seq<Link>,
    plans: Seq<Drawn>,
    leaf: GameStateView,
)
    requires
        root_ok(root, h),
        popped_inv(root, h, false, t, popped, leaf),
        popped_drawn(root, t, popped, plans, leaf, h, mode),
        leaf.auction_end(),
        leaf.round_no == h.terminal || leaf.game_phase == crate::models::enums::GamePhase::Sell
            || batches_ok(leaf, Seq::empty(), mode),
    ensures
        drawn_inv(
            root,
            walked(
                registered(t, leaf, root.turn_no as int),
                popped.last().key,
                round_scores(leaf),
                root.path_encoding,
                root.turn_no as int,
            ),
            popped.take(
                walk_stop(
                    registered(t, leaf, root.turn_no as int),
                    popped,
                    round_scores(leaf),
                    root.path_encoding,
                    root.turn_no as int,
                ) + 1,
            ),
            plans_after(
                registered(t, leaf, root.turn_no as int),
                popped,
                plans,
                round_scores(leaf),
                no_draws(),
                root.path_encoding,
                root.turn_no as int,
            ),
            h,
            mode,
        ),
        trimmed(
            popped.take(
                walk_stop(
                    registered(t, leaf, root.turn_no as int),
                    popped,
                    round_scores(leaf),
                    root.path_encoding,
                    root.turn_no as int,
                ) + 1,
            ),
        ) == popped.take(
            walk_stop(
                registered(t, leaf, root.turn_no as int),
                popped,
                round_scores(leaf),
                root.path_encoding,
                root.turn_no as int,
            ) + 1,
        ),
{
    let players = root.n();
    let tl = h.turn_limit;
    let rl = h.round_limit;
    let score = round_scores(leaf);
    let root_key = root.path_encoding;
    let root_turn = root.turn_no as int;
    let reg = registered(t, leaf, root_turn);
    let last = popped.len() - 1;
    let g = popped[0].group.len() as int;
    let q = no_draws();
    lemma_live_coins_bound(root, root.n());
    assert(link_ok(t, popped, last, players, tl, rl, 1));
    assert(link_ok(t, popped, 0, players, tl, rl, 1));
    assert(link_drawn(t, popped, plans, 0, 1, h, mode));
    assert(link_drawn(t, popped, plans, last, 1, h, mode));
    assert forall|m: int| 0 <= m < popped.len() implies reg.contains_key(
        (#[trigger] popped[m]).key,
    ) && reg[popped[m].key] == t[popped[m].key] by {
        assert(link_ok(t, popped, m, players, tl, rl, 1));
        if m < last {
            lemma_keys_grow(t, popped, root_key, players, tl, rl, 1, m, last);
        }
    }
    lemma_chain_frame(t, reg, popped, root_key, players, tl, rl, 1);
    lemma_drawn_frame(t, reg, popped, plans, 1, h, mode);
    assert(stops(leaf, q, h));
    assert(kids(leaf, q).len() == 0);
    assert(drawn_ok(leaf, q, h, mode));
    let j = lemma_walk(reg, popped, score, root_key, root_turn, players, tl, rl);
    lemma_walk_drawn(reg, popped, plans, score, q, root_key, root_turn, players, tl, rl, h, mode);
    let after = walked(reg, popped.last().key, score, root_key, root_turn);
    let rest = popped.take(j + 1);
    let drawn = plans_after(reg, popped, plans, score, q, root_key, root_turn);
    assert(rest[0] == popped[0]);
    assert(rest.last() == popped[j]);
    assert(trimmed(rest) == rest);
    assert(link_drawn(after, rest, drawn, 0, 0, h, mode));
    assert(after[rest[0].key].state == root) by {
        lemma_root_state_kept(reg, popped, score, root, h);
    }
    assert(kids(root, plans[0]) == bid_children(root));
    let from = unscored_bids(rest);
    assert forall|i: int| from <= i < bid_count(root) implies after.contains_key(
        #[trigger] child_key(root, i),
    ) && after[child_key(root, i)].score == worth_with(bid_child(root, i), drawn[0].below[i], h) by {
        let key = child_key(root, i);
        let mover = root.current_decision_player->0;
        lemma_parent_of_action(root_key, mover, root.legal_moves_bid(mover)[i]);
        lemma_bid_child_state(root, i);
        if i > g {
            assert(t.contains_key(key));
            assert forall|m: int| 0 <= m < popped.len() implies (#[trigger] popped[m]).key
                != key by {
                lemma_drawn_key_apart(root, h, mode, t, popped, plans, i, m);
            }
            if popped.len() == 1 {
                lemma_bid_children_differ(root, i, g);
            } else {
                lemma_keys_grow(t, popped, root_key, players, tl, rl, 1, 0, last);
            }
            assert(leaf.path_encoding != key);
            assert(reg[key] == t[key]);
            assert(after[key] == reg[key]);
            assert(drawn[0].below[i] == plans[0].below[i]);
        } else {
            assert(i == g && j == 0);
            if popped.len() == 1 {
                assert(leaf == bid_child(root, g));
                assert(reg[key] == ScoreView::scored(leaf, round_scores(leaf)));
                assert(popped[0].key != key);
                assert(after.contains_key(key) == reg.contains_key(key) && after[key] == reg[key]);
                assert(drawn[0].below[g] == q);
            } else {
                assert(link_drawn(t, popped, plans, 1, 1, h, mode));
                assert(link_ok(t, popped, 1, players, tl, rl, 1));
                assert(t[popped[1].key].state == bid_child(root, g));
                assert(popped[1].key == key);
                lemma_bid_child_state(root, g);
                assert(!evicted(reg[popped[1].key], root_turn));
            }
        }
    }
}

/// A state that has left the frontier and is opened: with its entry in the
/// table, its children in the frontier and what was drawn at it beside
/// them, table, chain and draws are as they should be between two steps.
pub proof fn lemma_drawn_open(
    root: GameStateView,
    h: Horizon,
    mode: Sampling,
    t: Map<Seq<char>, ScoreView>,
    popped: Seq<Link>,
    plans: Seq<Drawn>,
    leaf: GameStateView,
    batches: Seq<Seq<u8>>,
    group: Seq<GameStateView>,
)
    requires
        root_ok(root, h),
        popped_inv(root, h, false, t, popped, leaf),
        popped_drawn(root, t, popped, plans, leaf, h, mode),
        group.len() >= 1,
        group == kids(leaf, draws_of(batches, group.len())),
        !stops(leaf, draws_of(batches, group.len()), h),
        leaf.auction_end() ==> batches_ok(leaf, batches, mode),
    ensures
        drawn_inv(
            root,
            t.insert(leaf.path_encoding, ScoreView::fresh(leaf, group.len(), 0)),
            popped.push(Link { key: leaf.path_encoding, group }),
            plans.push(draws_of(batches, group.len())),
            h,
            mode,
        ),
        trimmed(popped.push(Link { key: leaf.path_encoding, group })) == popped.push(
            Link { key: leaf.path_encoding, group },
        ),
{
    let players = root.n();
    let tl = h.turn_limit;
    let rl = h.round_limit;
    let root_key = root.path_encoding;
    let key = leaf.path_encoding;
    let node = ScoreView::fresh(leaf, group.len(), 0);
    let u = t.insert(key, node);
    let p = draws_of(batches, group.len());
    let longer = popped.push(Link { key, group });
    let more = plans.push(p);
    let last = popped.len() - 1;
    let g = popped[0].group.len() as int;
    lemma_live_coins_bound(root, root.n());
    assert(link_ok(t, popped, last, players, tl, rl, 1));
    assert(link_ok(t, popped, 0, players, tl, rl, 1));
    assert(group.take(group.len() as int) =~= group);
    assert forall|j: int| 0 <= j < longer.len() implies #[trigger] link_drawn(
        u,
        longer,
        more,
        j,
        0,
        h,
        mode,
    ) by {
        if j < popped.len() {
            assert(link_drawn(t, popped, plans, j, 1, h, mode));
            assert(link_ok(t, popped, j, players, tl, rl, 1));
            assert(longer[j] == popped[j]);
            assert(more[j] == plans[j]);
            if j < last {
                lemma_keys_grow(t, popped, root_key, players, tl, rl, 1, j, last);
            }
            assert(popped[j].key != key);
            assert(u[popped[j].key] == t[popped[j].key]);
            if j >= 1 {
                assert(longer[j - 1] == popped[j - 1]);
                assert(more[j - 1] == plans[j - 1]);
                assert(link_ok(t, popped, j - 1, players, tl, rl, 1));
                lemma_keys_grow(t, popped, root_key, players, tl, rl, 1, j - 1, last);
                assert(u[popped[j - 1].key] == t[popped[j - 1].key]);
            }
        } else {
            assert(longer[j - 1] == popped[last]);
            assert(more[j - 1] == plans[last]);
            assert(more[j] == p);
            assert(u[popped[last].key] == t[popped[last].key]);
        }
    }
    if last > 0 {
        lemma_keys_grow(t, popped, root_key, players, tl, rl, 1, 0, last);
    }
    assert(u[longer[0].key] == t[popped[0].key]);
    assert(more[0] == plans[0]);
    assert(unscored_bids(longer) == g + 1);
    assert forall|i: int| g + 1 <= i < bid_count(root) implies u.contains_key(
        #[trigger] child_key(root, i),
    ) && u[child_key(root, i)].score == worth_with(bid_child(root, i), more[0].below[i], h) by {
        let other = child_key(root, i);
        let mover = root.current_decision_player->0;
        lemma_parent_of_action(root_key, mover, root.legal_moves_bid(mover)[i]);
        assert(t.contains_key(other));
        if popped.len() == 1 {
            assert(leaf == bid_child(root, g));
            lemma_bid_children_differ(root, i, g);
        }
        assert(key != other);
    }
}

/// The end of a search: with nothing left in the frontier, what was drawn
/// is what a search may draw, and the best action by the table is the best
/// bid in the tree that was drawn.
pub proof fn lemma_drawn_end(
    root: GameStateView,
    h: Horizon,
    mode: Sampling,
    t: Map<Seq<char>, ScoreView>,
    chain: Seq<Link>,
    plans: Seq<Drawn>,
)
    requires
        root_ok(root, h),
        drawn_inv(root, t, chain, plans, h, mode),
        chain.len() == 1,
        chain[0].group.len() == 0,
    ensures
        drawn_ok(root, plans[0], h, mode),
        best_action(root, t, bid_count(root)) == choice_with(root, plans[0], bid_count(root), h),
{
    assert(link_drawn(t, chain, plans, 0, 0, h, mode));
    assert(kids(root, plans[0]) == bid_children(root));
    lemma_scored_choice_with(root, t, plans[0], bid_count(root), h);
}

/// Where the table has what each bid of the player to move is worth in the
/// tree that was drawn, the best action by the table is the best bid in
/// that tree.
pub proof fn lemma_scored_choice_with(
    root: GameStateView,
    t: Map<Seq<char>, ScoreView>,
    p: Drawn,
    upto: int,
    h: Horizon,
)
    requires
        scored_with(root, t, p, 0, h),
        0 <= upto <= bid_count(root),
    ensures
        best_action(root, t, upto) == choice_with(root, p, upto, h),
    decreases upto,
{
    if upto > 0 {
        lemma_scored_choice_with(root, t, p, upto - 1, h);
        assert(t.contains_key(child_key(root, upto - 1)));
    }
}

} // verus!
