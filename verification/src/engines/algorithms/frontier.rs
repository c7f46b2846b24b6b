//! The bookkeeping of a depth-first search: which nodes are open, which of
//! their children still wait in the frontier, and why every report finds
//! the node that it is for.

use crate::engines::algorithms::game_value::{
    child, child_count, child_ok, children, entry_at, is_leaf, lemma_bid_child_state, lemma_child,
    lemma_entry_start, lemma_entry_step, worth, Horizon,
};
use crate::engines::algorithms::propagation::{evicted, walk_ready, walked};
use crate::engines::algorithms::score_node::{lemma_absorbed_wf, ScoreView};
use crate::engines::algorithms::search_model::{
    depth_left, lemma_live_coins_bound, searchable,
};
use crate::models::encoding::parent_of;
use crate::models::state_view::GameStateView;
use vstd::arithmetic::power::{lemma_pow_increases, lemma_pow_positive, pow};
use vstd::prelude::*;

verus! {

/// An open node: its key, and those of its children that still wait in the
/// frontier.
pub struct Link {
    pub key: Seq<char>,
    pub group: Seq<GameStateView>,
}

/// The frontier that a chain of open nodes stands for: the waiting children
/// of the first node, then those of the second, and so on.
pub open spec fn flatten(chain: Seq<Link>) -> Seq<GameStateView>
    decreases chain.len(),
{
    if chain.len() == 0 {
        Seq::empty()
    } else {
        flatten(chain.drop_last()) + chain.last().group
    }
}

/// What holds of a state that waits in the frontier as a child of the node
/// under `key`.
pub open spec fn member_ok(
    s: GameStateView,
    key: Seq<char>,
    players: int,
    turn_limit: int,
    round_limit: int,
) -> bool {
    &&& parent_of(s.path_encoding) == key
    &&& key.len() < s.path_encoding.len()
    &&& searchable(s, turn_limit, round_limit)
    &&& s.n() == players
}

/// What holds of the open node at place `j`: the table has its entry, the
/// entry waits for at least the children in the frontier (and for one more
/// where a child is open itself, or `pending` reports are owed), and the
/// node before it in the chain is its parent.
pub open spec fn link_ok(
    t: Map<Seq<char>, ScoreView>,
    chain: Seq<Link>,
    j: int,
    players: int,
    turn_limit: int,
    round_limit: int,
    pending: int,
) -> bool {
    let link = chain[j];
    &&& t.contains_key(link.key)
    &&& t[link.key].wf()
    &&& t[link.key].state.path_encoding == link.key
    &&& t[link.key].state.n() == players
    &&& t[link.key].remaining_children >= link.group.len() + (if j < chain.len() - 1 {
        1
    } else {
        pending
    })
    &&& forall|i: int|
        0 <= i < link.group.len() ==> member_ok(
            #[trigger] link.group[i],
            link.key,
            players,
            turn_limit,
            round_limit,
        )
    &&& j >= 1 ==> parent_of(link.key) == chain[j - 1].key && chain[j - 1].key.len()
        < link.key.len()
}

/// What holds of the chain of open nodes, from the root of the search down.
pub open spec fn chain_ok(
    t: Map<Seq<char>, ScoreView>,
    chain: Seq<Link>,
    root_key: Seq<char>,
    players: int,
    turn_limit: int,
    round_limit: int,
    pending: int,
) -> bool {
    &&& chain.len() >= 1
    &&& chain[0].key == root_key
    &&& forall|j: int|
        0 <= j < chain.len() ==> #[trigger] link_ok(
            t,
            chain,
            j,
            players,
            turn_limit,
            round_limit,
            pending,
        )
}

/// What holds of the open node at place `j` in a search over every
/// branch: its waiting children are the first of its children in the
/// tree, the entry waits for just these (and for the child that is open
/// itself, or the `pending` reports owed), and the entry is what the
/// children that have reported come to.
pub open spec fn link_exact(
    t: Map<Seq<char>, ScoreView>,
    chain: Seq<Link>,
    j: int,
    pending: int,
    h: Horizon,
) -> bool {
    let link = chain[j];
    let node = t[link.key];
    let owed = link.group.len() + (if j < chain.len() - 1 {
        1
    } else {
        pending
    });
    &&& searchable(node.state, h.turn_limit, h.round_limit)
    &&& !is_leaf(node.state, h)
    &&& owed <= child_count(node.state)
    &&& node.remaining_children == owed
    &&& node == entry_at(node.state, owed, h)
    &&& forall|i: int| 0 <= i < child_count(node.state) ==> #[trigger] child_ok(node.state, i)
    &&& h.terminal == h.first + 1 ==> !node.state.auction_end() && node.state.round_no == h.first
    &&& link.group == children(node.state).take(link.group.len() as int)
    &&& j >= 1 ==> node.state == child(t[chain[j - 1].key].state, chain[j - 1].group.len() as int)
}

/// What holds of the chain of open nodes in a search over every branch.
pub open spec fn chain_exact(
    t: Map<Seq<char>, ScoreView>,
    chain: Seq<Link>,
    pending: int,
    h: Horizon,
) -> bool {
    forall|j: int| 0 <= j < chain.len() ==> #[trigger] link_exact(t, chain, j, pending, h)
}

/// The chain without the open nodes at its end that have no child left in
/// the frontier; the root stays.
pub open spec fn trimmed(chain: Seq<Link>) -> Seq<Link>
    decreases chain.len(),
{
    if chain.len() > 1 && chain.last().group.len() == 0 {
        trimmed(chain.drop_last())
    } else {
        chain
    }
}

/// The base of the weights: more than any node has children.
pub open spec fn base() -> int {
    0x1_0000_0000_0000_0000
}

/// The weight of a state in the frontier.
pub open spec fn heft(s: GameStateView) -> int {
    pow(base(), depth_left(s) as nat)
}

/// The weight of a frontier: it falls with every step of the search.
pub open spec fn weight(states: Seq<GameStateView>) -> int
    decreases states.len(),
{
    if states.len() == 0 {
        0
    } else {
        weight(states.drop_last()) + heft(states.last())
    }
}

/// No frontier weighs less than nothing.
pub proof fn lemma_weight_nonneg(states: Seq<GameStateView>)
    ensures
        weight(states) >= 0,
    decreases states.len(),
{
    if states.len() > 0 {
        lemma_weight_nonneg(states.drop_last());
        lemma_pow_positive(base(), depth_left(states.last()) as nat);
    }
}

/// One more state adds its own weight, which is at least one.
pub proof fn lemma_weight_push(states: Seq<GameStateView>, s: GameStateView)
    ensures
        weight(states.push(s)) == weight(states) + heft(s),
        heft(s) >= 1,
{
    assert(states.push(s).drop_last() =~= states);
    lemma_pow_positive(base(), depth_left(s) as nat);
}

/// Nothing less than no bid can be left.
pub proof fn lemma_depth_nonneg(s: GameStateView)
    requires
        s.wf(),
    ensures
        depth_left(s) >= 0,
{
    lemma_live_coins_bound(s, s.n());
}

/// One more open node adds its waiting children to the frontier.
pub proof fn lemma_flatten_push(chain: Seq<Link>, link: Link)
    ensures
        flatten(chain.push(link)) == flatten(chain) + link.group,
{
    assert(chain.push(link).drop_last() =~= chain);
}

/// The chain with another group in place of the last one.
pub open spec fn with_group(chain: Seq<Link>, group: Seq<GameStateView>) -> Seq<Link> {
    chain.update(chain.len() - 1, Link { key: chain.last().key, group })
}

/// Another group for the last open node changes that part of the frontier
/// alone.
pub proof fn lemma_flatten_with_group(chain: Seq<Link>, group: Seq<GameStateView>)
    requires
        chain.len() >= 1,
    ensures
        flatten(with_group(chain, group)) == flatten(chain.drop_last()) + group,
{
    assert(with_group(chain, group).drop_last() =~= chain.drop_last());
}

/// Open nodes without waiting children add nothing to the frontier.
pub proof fn lemma_flatten_take(chain: Seq<Link>, j: int)
    requires
        0 <= j < chain.len(),
        forall|i: int| j < i < chain.len() ==> (#[trigger] chain[i]).group.len() == 0,
    ensures
        flatten(chain.take(j + 1)) == flatten(chain),
    decreases chain.len(),
{
    if j + 1 == chain.len() {
        assert(chain.take(j + 1) =~= chain);
    } else {
        assert(chain[chain.len() - 1].group.len() == 0);
        assert(chain.drop_last().take(j + 1) =~= chain.take(j + 1));
        assert forall|i: int| j < i < chain.drop_last().len() implies (
        #[trigger] chain.drop_last()[i]).group.len() == 0 by {
            assert(chain.drop_last()[i] == chain[i]);
        }
        lemma_flatten_take(chain.drop_last(), j);
        assert(flatten(chain) =~= flatten(chain.drop_last()));
    }
}

/// Further down the chain the keys are longer.
pub proof fn lemma_keys_grow(
    t: Map<Seq<char>, ScoreView>,
    chain: Seq<Link>,
    root_key: Seq<char>,
    players: int,
    turn_limit: int,
    round_limit: int,
    pending: int,
    i: int,
    j: int,
)
    requires
        chain_ok(t, chain, root_key, players, turn_limit, round_limit, pending),
        0 <= i < j < chain.len(),
    ensures
        chain[i].key.len() < chain[j].key.len(),
    decreases j - i,
{
    assert(link_ok(t, chain, j, players, turn_limit, round_limit, pending));
    if i < j - 1 {
        lemma_keys_grow(t, chain, root_key, players, turn_limit, round_limit, pending, i, j - 1);
    }
}

/// What holds of a chain depends on the entries of its own nodes only.
pub proof fn lemma_chain_frame(
    t: Map<Seq<char>, ScoreView>,
    u: Map<Seq<char>, ScoreView>,
    chain: Seq<Link>,
    root_key: Seq<char>,
    players: int,
    turn_limit: int,
    round_limit: int,
    pending: int,
)
    requires
        chain_ok(t, chain, root_key, players, turn_limit, round_limit, pending),
        forall|j: int|
            0 <= j < chain.len() ==> u.contains_key((#[trigger] chain[j]).key) && u[chain[j].key]
                == t[chain[j].key],
    ensures
        chain_ok(u, chain, root_key, players, turn_limit, round_limit, pending),
{
    assert forall|j: int| 0 <= j < chain.len() implies #[trigger] link_ok(
        u,
        chain,
        j,
        players,
        turn_limit,
        round_limit,
        pending,
    ) by {
        assert(link_ok(t, chain, j, players, turn_limit, round_limit, pending));
        assert(u[chain[j].key] == t[chain[j].key]);
    }
}

/// A chain that is owed a report is one to whose last node a score can be
/// reported.
pub proof fn lemma_chain_ready(
    t: Map<Seq<char>, ScoreView>,
    chain: Seq<Link>,
    root_key: Seq<char>,
    players: int,
    turn_limit: int,
    round_limit: int,
    j: int,
)
    requires
        chain_ok(t, chain, root_key, players, turn_limit, round_limit, 1),
        0 <= j < chain.len(),
    ensures
        walk_ready(t, chain[j].key, root_key, players),
    decreases j,
{
    assert(link_ok(t, chain, j, players, turn_limit, round_limit, 1));
    if j > 0 {
        lemma_chain_ready(t, chain, root_key, players, turn_limit, round_limit, j - 1);
    }
}

/// The chain without its last node, while a report to that node's parent
/// is owed.
pub proof fn lemma_chain_drop(
    t: Map<Seq<char>, ScoreView>,
    chain: Seq<Link>,
    root_key: Seq<char>,
    players: int,
    turn_limit: int,
    round_limit: int,
    pending: int,
)
    requires
        chain_ok(t, chain, root_key, players, turn_limit, round_limit, pending),
        chain.len() >= 2,
    ensures
        chain_ok(t, chain.drop_last(), root_key, players, turn_limit, round_limit, 1),
{
    let shorter = chain.drop_last();
    assert forall|j: int| 0 <= j < shorter.len() implies #[trigger] link_ok(
        t,
        shorter,
        j,
        players,
        turn_limit,
        round_limit,
        1,
    ) by {
        assert(link_ok(t, chain, j, players, turn_limit, round_limit, pending));
        assert(shorter[j] == chain[j]);
        if j >= 1 {
            assert(shorter[j - 1] == chain[j - 1]);
        }
    }
}

/// The place in the chain at which a report to the last node comes to
/// rest: the last of the nodes, going up from the last one, that still
/// waits for a child after the report, or the root.
pub open spec fn walk_stop(
    t: Map<Seq<char>, ScoreView>,
    chain: Seq<Link>,
    score: Seq<i64>,
    root_key: Seq<char>,
    root_turn: int,
) -> int
    decreases chain.len(),
{
    let last = chain.len() - 1;
    let key = chain.last().key;
    let node = t[key].absorbed(score);
    if chain.len() <= 1 || node.remaining_children >= 1 || key == root_key {
        last
    } else {
        let taken = t.insert(key, node);
        let kept = if evicted(node, root_turn) {
            taken.remove(key)
        } else {
            taken
        };
        walk_stop(kept, chain.drop_last(), node.score, root_key, root_turn)
    }
}

/// After a report to the last node of the chain, the chain holds up to
/// some place `j`: the nodes behind it were done and have no child left in
/// the frontier. Entries of nodes outside the chain are as before, and no
/// entry near the root has left the table.
pub proof fn lemma_walk(
    t: Map<Seq<char>, ScoreView>,
    chain: Seq<Link>,
    score: Seq<i64>,
    root_key: Seq<char>,
    root_turn: int,
    players: int,
    turn_limit: int,
    round_limit: int,
) -> (j: int)
    requires
        chain_ok(t, chain, root_key, players, turn_limit, round_limit, 1),
        score.len() == players,
    ensures
        0 <= j < chain.len(),
        j == walk_stop(t, chain, score, root_key, root_turn),
        chain_ok(
            walked(t, chain.last().key, score, root_key, root_turn),
            chain.take(j + 1),
            root_key,
            players,
            turn_limit,
            round_limit,
            0,
        ),
        forall|i: int| j < i < chain.len() ==> (#[trigger] chain[i]).group.len() == 0,
        forall|k: Seq<char>|
            (forall|i: int| 0 <= i < chain.len() ==> (#[trigger] chain[i]).key != k) ==> (
            #[trigger] walked(t, chain.last().key, score, root_key, root_turn).contains_key(k)
                == t.contains_key(k) && walked(t, chain.last().key, score, root_key, root_turn)[k]
                == t[k]),
        forall|k: Seq<char>| #[trigger]
            t.contains_key(k) && !evicted(t[k], root_turn) ==> walked(
                t,
                chain.last().key,
                score,
                root_key,
                root_turn,
            ).contains_key(k) && !evicted(
                walked(t, chain.last().key, score, root_key, root_turn)[k],
                root_turn,
            ),
    decreases chain.len(),
{
    let last = chain.len() - 1;
    let key = chain.last().key;
    assert(link_ok(t, chain, last, players, turn_limit, round_limit, 1));
    let node = t[key].absorbed(score);
    lemma_absorbed_wf(t[key], score);
    let taken = t.insert(key, node);
    let after = walked(t, key, score, root_key, root_turn);
    if node.remaining_children >= 1 || key == root_key {
        assert(after == taken);
        assert(chain.take(last + 1) =~= chain);
        assert forall|j: int| 0 <= j < chain.len() implies #[trigger] link_ok(
            taken,
            chain,
            j,
            players,
            turn_limit,
            round_limit,
            0,
        ) by {
            assert(link_ok(t, chain, j, players, turn_limit, round_limit, 1));
            if j < last {
                lemma_keys_grow(t, chain, root_key, players, turn_limit, round_limit, 1, j, last);
                assert(taken[chain[j].key] == t[chain[j].key]);
            }
        }
        assert forall|k: Seq<char>|
            (forall|i: int| 0 <= i < chain.len() ==> (#[trigger] chain[i]).key != k) implies (
        #[trigger] after.contains_key(k) == t.contains_key(k) && after[k] == t[k]) by {
            assert(chain[last].key != k);
        }
        last
    } else {
        let kept = if evicted(node, root_turn) {
            taken.remove(key)
        } else {
            taken
        };
        if last == 0 {
            assert(key == root_key);
        }
        let parent = parent_of(key);
        let shorter = chain.drop_last();
        assert(parent == shorter.last().key);
        assert(after == walked(kept, parent, node.score, root_key, root_turn));
        lemma_chain_drop(t, chain, root_key, players, turn_limit, round_limit, 1);
        assert forall|j: int| 0 <= j < shorter.len() implies kept.contains_key(
            (#[trigger] shorter[j]).key,
        ) && kept[shorter[j].key] == t[shorter[j].key] by {
            lemma_keys_grow(t, chain, root_key, players, turn_limit, round_limit, 1, j, last);
            assert(shorter[j] == chain[j]);
            assert(link_ok(t, chain, j, players, turn_limit, round_limit, 1));
        }
        lemma_chain_frame(t, kept, shorter, root_key, players, turn_limit, round_limit, 1);
        let j = lemma_walk(
            kept,
            shorter,
            node.score,
            root_key,
            root_turn,
            players,
            turn_limit,
            round_limit,
        );
        assert(shorter.take(j + 1) =~= chain.take(j + 1));
        assert(chain.len() > 1);
        assert forall|i: int| j < i < chain.len() implies (#[trigger] chain[i]).group.len()
            == 0 by {
            if i < last {
                assert(shorter[i] == chain[i]);
            }
        }
        assert forall|k: Seq<char>|
            (forall|i: int| 0 <= i < chain.len() ==> (#[trigger] chain[i]).key != k) implies (
        #[trigger] after.contains_key(k) == t.contains_key(k) && after[k] == t[k]) by {
            assert(chain[last].key != k);
            assert forall|i: int| 0 <= i < shorter.len() implies (#[trigger] shorter[i]).key
                != k by {
                assert(shorter[i] == chain[i]);
            }
            assert(after.contains_key(k) == kept.contains_key(k) && after[k] == kept[k]);
        }
        assert forall|k: Seq<char>| #[trigger]
            t.contains_key(k) && !evicted(t[k], root_turn) implies after.contains_key(k)
            && !evicted(after[k], root_turn) by {
            if k == key {
                assert(!evicted(node, root_turn));
                assert(kept.contains_key(k));
                assert(!evicted(kept[k], root_turn));
            } else {
                assert(kept.contains_key(k) && kept[k] == t[k]);
            }
        }
        j
    }
}

/// What a node that waits for its `k`-th child holds after that child has
/// reported what it comes to.
proof fn lemma_step_value(node: ScoreView, score: Seq<i64>, k: int, h: Horizon)
    requires
        node.remaining_children >= 1,
        searchable(node.state, h.turn_limit, h.round_limit),
        !is_leaf(node.state, h),
        0 <= k < child_count(node.state),
        child_ok(node.state, k),
        node == entry_at(node.state, k + 1, h),
        score == worth(child(node.state, k), h),
    ensures
        node.absorbed(score) == entry_at(node.state, k, h),
        node.absorbed(score).state == node.state,
        node.absorbed(score).remaining_children == node.remaining_children - 1,
{
    lemma_entry_step(node.state, k, h);
}

/// Whether two tables have the same entry under every key of the chain
/// but the last.
pub open spec fn same_above(
    t: Map<Seq<char>, ScoreView>,
    u: Map<Seq<char>, ScoreView>,
    chain: Seq<Link>,
) -> bool {
    forall|j: int| 0 <= j < chain.len() - 1 ==> u[(#[trigger] chain[j]).key] == t[chain[j].key]
}

/// A report that comes to rest at the last node leaves a chain of the same
/// kind, owed nothing.
proof fn lemma_exact_stop(
    t: Map<Seq<char>, ScoreView>,
    u: Map<Seq<char>, ScoreView>,
    chain: Seq<Link>,
    score: Seq<i64>,
    h: Horizon,
)
    requires
        chain.len() >= 1,
        chain_exact(t, chain, 1, h),
        score == worth(child(t[chain.last().key].state, chain.last().group.len() as int), h),
        u[chain.last().key] == t[chain.last().key].absorbed(score),
        same_above(t, u, chain),
    ensures
        chain_exact(u, chain, 0, h),
{
    let last = chain.len() - 1;
    assert(link_exact(t, chain, last, 1, h));
    assert(child_ok(t[chain[last].key].state, chain[last].group.len() as int));
    lemma_step_value(t[chain[last].key], score, chain[last].group.len() as int, h);
    assert forall|j: int| 0 <= j < chain.len() implies #[trigger] link_exact(
        u,
        chain,
        j,
        0,
        h,
    ) by {
        assert(link_exact(t, chain, j, 1, h));
        if j < last {
            assert(u[chain[j].key] == t[chain[j].key]);
        }
        if j >= 1 {
            assert(u[chain[j - 1].key] == t[chain[j - 1].key]);
        }
    }
}

/// A report that passes the last node leaves the chain without that node
/// owed the node's own worth.
proof fn lemma_exact_pass(
    t: Map<Seq<char>, ScoreView>,
    u: Map<Seq<char>, ScoreView>,
    chain: Seq<Link>,
    score: Seq<i64>,
    h: Horizon,
)
    requires
        chain.len() >= 2,
        chain_exact(t, chain, 1, h),
        score == worth(child(t[chain.last().key].state, chain.last().group.len() as int), h),
        t[chain.last().key].absorbed(score).remaining_children == 0,
        same_above(t, u, chain),
    ensures
        chain_exact(u, chain.drop_last(), 1, h),
        chain.last().group.len() == 0,
        t[chain.last().key].absorbed(score).score == worth(t[chain.last().key].state, h),
        t[chain.last().key].absorbed(score).score == worth(
            child(
                u[chain.drop_last().last().key].state,
                chain.drop_last().last().group.len() as int,
            ),
            h,
        ),
{
    let last = chain.len() - 1;
    let shorter = chain.drop_last();
    assert(link_exact(t, chain, last, 1, h));
    assert(child_ok(t[chain[last].key].state, chain[last].group.len() as int));
    lemma_step_value(t[chain[last].key], score, chain[last].group.len() as int, h);
    assert(shorter[last - 1] == chain[last - 1]);
    assert(u[chain[last - 1].key] == t[chain[last - 1].key]);
    assert forall|j: int| 0 <= j < shorter.len() implies #[trigger] link_exact(
        u,
        shorter,
        j,
        1,
        h,
    ) by {
        assert(link_exact(t, chain, j, 1, h));
        assert(shorter[j] == chain[j]);
        assert(u[chain[j].key] == t[chain[j].key]);
        if j >= 1 {
            assert(shorter[j - 1] == chain[j - 1]);
            assert(u[chain[j - 1].key] == t[chain[j - 1].key]);
        }
    }
}

/// The keys of the chain above the last differ from the last.
pub proof fn lemma_last_key_apart(
    t: Map<Seq<char>, ScoreView>,
    chain: Seq<Link>,
    root_key: Seq<char>,
    players: int,
    turn_limit: int,
    round_limit: int,
)
    requires
        chain_ok(t, chain, root_key, players, turn_limit, round_limit, 1),
    ensures
        forall|j: int| 0 <= j < chain.len() - 1 ==> (#[trigger] chain[j]).key != chain.last().key,
        chain.len() >= 2 ==> chain.last().key != root_key,
{
    assert forall|j: int| 0 <= j < chain.len() - 1 implies (#[trigger] chain[j]).key
        != chain.last().key by {
        lemma_keys_grow(
            t,
            chain,
            root_key,
            players,
            turn_limit,
            round_limit,
            1,
            j,
            chain.len() - 1,
        );
    }
    if chain.len() >= 2 {
        assert(chain[0].key != chain.last().key);
    }
}

/// In a search over every branch, a report of what a child is worth
/// leaves every open node with the entry that its reported children come
/// to: the nodes that the report has passed are done and hold what their
/// states are worth, and the node at which it rests still waits for a
/// child in the frontier, unless it is the root.
pub proof fn lemma_walk_exact(
    t: Map<Seq<char>, ScoreView>,
    chain: Seq<Link>,
    score: Seq<i64>,
    root_key: Seq<char>,
    root_turn: int,
    players: int,
    turn_limit: int,
    round_limit: int,
    h: Horizon,
)
    requires
        chain_ok(t, chain, root_key, players, turn_limit, round_limit, 1),
        score.len() == players,
        chain_exact(t, chain, 1, h),
        score == worth(child(t[chain.last().key].state, chain.last().group.len() as int), h),
    ensures
        chain_exact(
            walked(t, chain.last().key, score, root_key, root_turn),
            chain.take(walk_stop(t, chain, score, root_key, root_turn) + 1),
            0,
            h,
        ),
        walk_stop(t, chain, score, root_key, root_turn) == 0 || chain[walk_stop(
            t,
            chain,
            score,
            root_key,
            root_turn,
        )].group.len() > 0,
        forall|i: int|
            walk_stop(t, chain, score, root_key, root_turn) < i < chain.len() && !evicted(
                t[(#[trigger] chain[i]).key],
                root_turn,
            ) ==> walked(t, chain.last().key, score, root_key, root_turn).contains_key(
                chain[i].key,
            ) && walked(t, chain.last().key, score, root_key, root_turn)[chain[i].key].score
                == worth(t[chain[i].key].state, h),
    decreases chain.len(),
{
    let last = chain.len() - 1;
    let key = chain.last().key;
    assert(link_ok(t, chain, last, players, turn_limit, round_limit, 1));
    let node = t[key].absorbed(score);
    let taken = t.insert(key, node);
    let after = walked(t, key, score, root_key, root_turn);
    lemma_last_key_apart(t, chain, root_key, players, turn_limit, round_limit);
    if node.remaining_children >= 1 || key == root_key {
        assert(after == taken);
        assert(chain.take(last + 1) =~= chain);
        assert(same_above(t, taken, chain));
        lemma_exact_stop(t, taken, chain, score, h);
        assert(link_exact(taken, chain, last, 0, h));
    } else {
        let kept = if evicted(node, root_turn) {
            taken.remove(key)
        } else {
            taken
        };
        let shorter = chain.drop_last();
        assert(after == walked(kept, parent_of(key), node.score, root_key, root_turn));
        assert(parent_of(key) == shorter.last().key);
        assert(same_above(t, kept, chain));
        lemma_exact_pass(t, kept, chain, score, h);
        lemma_absorbed_wf(t[key], score);
        assert(kept[shorter.last().key] == t[shorter.last().key]);
        lemma_chain_drop(t, chain, root_key, players, turn_limit, round_limit, 1);
        assert forall|j: int| 0 <= j < shorter.len() implies kept.contains_key(
            (#[trigger] shorter[j]).key,
        ) && kept[shorter[j].key] == t[shorter[j].key] by {
            assert(shorter[j] == chain[j]);
            assert(chain[j].key != key);
            assert(link_ok(t, chain, j, players, turn_limit, round_limit, 1));
        }
        lemma_chain_frame(t, kept, shorter, root_key, players, turn_limit, round_limit, 1);
        lemma_walk_exact(
            kept,
            shorter,
            node.score,
            root_key,
            root_turn,
            players,
            turn_limit,
            round_limit,
            h,
        );
        let j = walk_stop(kept, shorter, node.score, root_key, root_turn);
        assert(j == walk_stop(t, chain, score, root_key, root_turn));
        let walk = lemma_walk(
            kept,
            shorter,
            node.score,
            root_key,
            root_turn,
            players,
            turn_limit,
            round_limit,
        );
        assert(shorter.take(j + 1) =~= chain.take(j + 1));
        assert(shorter[j] == chain[j]);
        assert forall|i: int|
            j < i < chain.len() && !evicted(
                t[(#[trigger] chain[i]).key],
                root_turn,
            ) implies after.contains_key(chain[i].key) && after[chain[i].key].score == worth(t[chain[i].key].state, h) by {
            if i < last {
                assert(shorter[i] == chain[i]);
                assert(kept[shorter[i].key] == t[shorter[i].key]);
            } else {
                assert forall|m: int| 0 <= m < shorter.len() implies (#[trigger] shorter[m]).key
                    != key by {
                    assert(shorter[m] == chain[m]);
                }
                assert(kept.contains_key(key));
                assert(after.contains_key(key) == kept.contains_key(key) && after[key]
                    == kept[key]);
            }
        }
    }
}

/// The frontier holds at least the waiting children of the root.
pub proof fn lemma_flatten_root(chain: Seq<Link>)
    requires
        chain.len() >= 1,
    ensures
        flatten(chain).len() >= chain[0].group.len(),
    decreases chain.len(),
{
    if chain.len() > 1 {
        lemma_flatten_root(chain.drop_last());
    } else {
        assert(flatten(chain.drop_last()).len() >= 0);
    }
}

/// Trimming leaves the root where it is.
pub proof fn lemma_trimmed_root(chain: Seq<Link>)
    requires
        chain.len() >= 1,
    ensures
        trimmed(chain).len() >= 1,
        trimmed(chain)[0] == chain[0],
    decreases chain.len(),
{
    if chain.len() > 1 && chain.last().group.len() == 0 {
        lemma_trimmed_root(chain.drop_last());
    }
}

/// Trimming keeps what holds of a chain and the frontier that it stands
/// for, and leaves a chain that is the root alone or ends in a node with a
/// child in the frontier.
pub proof fn lemma_trimmed(
    t: Map<Seq<char>, ScoreView>,
    chain: Seq<Link>,
    root_key: Seq<char>,
    players: int,
    turn_limit: int,
    round_limit: int,
)
    requires
        chain_ok(t, chain, root_key, players, turn_limit, round_limit, 0),
    ensures
        chain_ok(t, trimmed(chain), root_key, players, turn_limit, round_limit, 0),
        flatten(trimmed(chain)) == flatten(chain),
        trimmed(chain).len() == 1 || trimmed(chain).last().group.len() > 0,
    decreases chain.len(),
{
    if chain.len() > 1 && chain.last().group.len() == 0 {
        let shorter = chain.drop_last();
        lemma_chain_drop(t, chain, root_key, players, turn_limit, round_limit, 0);
        assert forall|j: int| 0 <= j < shorter.len() implies #[trigger] link_ok(
            t,
            shorter,
            j,
            players,
            turn_limit,
            round_limit,
            0,
        ) by {
            assert(link_ok(t, shorter, j, players, turn_limit, round_limit, 1));
        }
        lemma_trimmed(t, shorter, root_key, players, turn_limit, round_limit);
        assert(flatten(chain) =~= flatten(shorter));
    }
}

/// Taking the last waiting child of the last open node out of the frontier
/// leaves a chain that is owed that child's report.
pub proof fn lemma_chain_pop(
    t: Map<Seq<char>, ScoreView>,
    chain: Seq<Link>,
    root_key: Seq<char>,
    players: int,
    turn_limit: int,
    round_limit: int,
)
    requires
        chain_ok(t, chain, root_key, players, turn_limit, round_limit, 0),
        chain.last().group.len() > 0,
    ensures
        chain_ok(
            t,
            with_group(chain, chain.last().group.drop_last()),
            root_key,
            players,
            turn_limit,
            round_limit,
            1,
        ),
        flatten(with_group(chain, chain.last().group.drop_last())) == flatten(
            chain,
        ).drop_last(),
        flatten(chain).len() > 0,
        flatten(chain).last() == chain.last().group.last(),
        member_ok(
            chain.last().group.last(),
            chain.last().key,
            players,
            turn_limit,
            round_limit,
        ),
{
    let group = chain.last().group;
    let popped = with_group(chain, group.drop_last());
    let last = chain.len() - 1;
    assert forall|j: int| 0 <= j < popped.len() implies #[trigger] link_ok(
        t,
        popped,
        j,
        players,
        turn_limit,
        round_limit,
        1,
    ) by {
        assert(link_ok(t, chain, j, players, turn_limit, round_limit, 0));
        if j == last {
            assert forall|i: int| 0 <= i < popped[j].group.len() implies member_ok(
                #[trigger] popped[j].group[i],
                popped[j].key,
                players,
                turn_limit,
                round_limit,
            ) by {
                assert(popped[j].group[i] == chain[j].group[i]);
            }
        } else {
            assert(popped[j] == chain[j]);
        }
        if j >= 1 {
            assert(popped[j - 1].key == chain[j - 1].key);
        }
    }
    lemma_flatten_with_group(chain, group.drop_last());
    assert(link_ok(t, chain, last, players, turn_limit, round_limit, 0));
    assert(flatten(chain) =~= flatten(chain.drop_last()) + group);
    assert(flatten(popped) =~= flatten(chain).drop_last());
}

/// Opening a node whose report is owed: its entry goes into the table, its
/// children into the frontier, and the chain grows by the node.
pub proof fn lemma_chain_open(
    t: Map<Seq<char>, ScoreView>,
    chain: Seq<Link>,
    root_key: Seq<char>,
    players: int,
    turn_limit: int,
    round_limit: int,
    node: ScoreView,
    group: Seq<GameStateView>,
)
    requires
        chain_ok(t, chain, root_key, players, turn_limit, round_limit, 1),
        node.wf(),
        node.state.n() == players,
        node.remaining_children >= group.len(),
        parent_of(node.state.path_encoding) == chain.last().key,
        chain.last().key.len() < node.state.path_encoding.len(),
        forall|i: int|
            0 <= i < group.len() ==> member_ok(
                #[trigger] group[i],
                node.state.path_encoding,
                players,
                turn_limit,
                round_limit,
            ),
    ensures
        chain_ok(
            t.insert(node.state.path_encoding, node),
            chain.push(Link { key: node.state.path_encoding, group }),
            root_key,
            players,
            turn_limit,
            round_limit,
            0,
        ),
        flatten(chain.push(Link { key: node.state.path_encoding, group })) == flatten(chain)
            + group,
{
    let key = node.state.path_encoding;
    let u = t.insert(key, node);
    let longer = chain.push(Link { key, group });
    let last = chain.len() - 1;
    assert forall|j: int| 0 <= j < longer.len() implies #[trigger] link_ok(
        u,
        longer,
        j,
        players,
        turn_limit,
        round_limit,
        0,
    ) by {
        if j < chain.len() {
            assert(link_ok(t, chain, j, players, turn_limit, round_limit, 1));
            assert(longer[j] == chain[j]);
            if j < last {
                lemma_keys_grow(t, chain, root_key, players, turn_limit, round_limit, 1, j, last);
            }
            assert(chain[j].key != key);
            assert(u[chain[j].key] == t[chain[j].key]);
            if j >= 1 {
                assert(longer[j - 1] == chain[j - 1]);
            }
        } else {
            assert(longer[j - 1] == chain[last]);
        }
    }
    lemma_flatten_push(chain, Link { key, group });
}

/// The weight of a group of children, each with less to come than their
/// parent, is at most as many times the weight of the parent divided by
/// the base.
pub proof fn lemma_weight_children(
    before: Seq<GameStateView>,
    group: Seq<GameStateView>,
    parent: GameStateView,
)
    requires
        forall|i: int| 0 <= i < group.len() ==> 0 <= depth_left(#[trigger] group[i]) < depth_left(parent),
        group.len() < base(),
    ensures
        weight(before + group) < weight(before) + heft(parent),
        weight(before + group) >= weight(before),
    decreases group.len(),
{
    lemma_weight_sum(before, group, parent);
    lemma_pow_positive(base(), depth_left(parent) as nat);
    let unit = pow(base(), (depth_left(parent) - 1) as nat);
    if group.len() > 0 {
        reveal(pow);
        assert(heft(parent) == base() * unit);
        lemma_pow_positive(base(), (depth_left(parent) - 1) as nat);
        assert(group.len() * unit < base() * unit) by (nonlinear_arith)
            requires
                group.len() < base(),
                unit > 0,
        ;
    } else {
        assert(group.len() * unit == 0) by (nonlinear_arith)
            requires
                group.len() == 0,
        ;
    }
}

proof fn lemma_weight_sum(
    before: Seq<GameStateView>,
    group: Seq<GameStateView>,
    parent: GameStateView,
)
    requires
        forall|i: int| 0 <= i < group.len() ==> 0 <= depth_left(#[trigger] group[i]) < depth_left(parent),
    ensures
        weight(before) <= weight(before + group) <= weight(before) + group.len() * pow(
            base(),
            (depth_left(parent) - 1) as nat,
        ),
    decreases group.len(),
{
    let unit = pow(base(), (depth_left(parent) - 1) as nat);
    if group.len() == 0 {
        assert(before + group =~= before);
        assert(group.len() * unit == 0) by (nonlinear_arith)
            requires
                group.len() == 0,
        ;
    } else {
        let head = group.drop_last();
        let child = group.last();
        assert forall|i: int| 0 <= i < head.len() implies 0 <= depth_left(#[trigger] head[i])
            < depth_left(parent) by {
            assert(head[i] == group[i]);
        }
        lemma_weight_sum(before, head, parent);
        assert(before + group =~= (before + head).push(child));
        lemma_weight_push(before + head, child);
        assert(0 <= depth_left(group[group.len() - 1]) < depth_left(parent));
        lemma_pow_increases(
            base() as nat,
            depth_left(child) as nat,
            (depth_left(parent) - 1) as nat,
        );
        assert(group.len() * unit == head.len() * unit + unit) by (nonlinear_arith)
            requires
                group.len() == head.len() + 1,
        ;
    }
}

/// In a search over every branch, taking the last waiting child of the last
/// open node out of the frontier leaves a chain that is owed that child's
/// report: the child is the one whose turn it is.
pub proof fn lemma_chain_pop_exact(t: Map<Seq<char>, ScoreView>, chain: Seq<Link>, h: Horizon)
    requires
        chain.len() >= 1,
        chain_exact(t, chain, 0, h),
        chain.last().group.len() > 0,
    ensures
        chain_exact(t, with_group(chain, chain.last().group.drop_last()), 1, h),
        chain.last().group.last() == child(
            t[chain.last().key].state,
            chain.last().group.len() - 1,
        ),
{
    let group = chain.last().group;
    let popped = with_group(chain, group.drop_last());
    let last = chain.len() - 1;
    assert(link_exact(t, chain, last, 0, h));
    assert(group[group.len() - 1] == children(t[chain[last].key].state)[group.len() - 1]);
    assert forall|j: int| 0 <= j < popped.len() implies #[trigger] link_exact(
        t,
        popped,
        j,
        1,
        h,
    ) by {
        assert(link_exact(t, chain, j, 0, h));
        if j == last {
            assert(popped[j].group =~= children(t[chain[j].key].state).take(group.len() - 1));
        } else {
            assert(popped[j] == chain[j]);
        }
        if j >= 1 {
            assert(popped[j - 1].key == chain[j - 1].key);
            assert(popped[j - 1].group == chain[j - 1].group);
        }
    }
}

/// In a search over every branch, opening the state whose report is owed
/// leaves a chain of the same kind: the entry of the state waits for all
/// its children, and none has reported to it yet.
pub proof fn lemma_chain_open_exact(
    t: Map<Seq<char>, ScoreView>,
    chain: Seq<Link>,
    root_key: Seq<char>,
    players: int,
    h: Horizon,
    leaf: GameStateView,
)
    requires
        chain_ok(t, chain, root_key, players, h.turn_limit, h.round_limit, 1),
        chain_exact(t, chain, 1, h),
        leaf == child(t[chain.last().key].state, chain.last().group.len() as int),
        !is_leaf(leaf, h),
        chain.last().key.len() < leaf.path_encoding.len(),
        forall|i: int| 0 <= i < child_count(leaf) ==> #[trigger] child_ok(leaf, i),
        child_count(leaf) >= 0,
    ensures
        chain_exact(
            t.insert(leaf.path_encoding, ScoreView::fresh(leaf, child_count(leaf) as nat, 0)),
            chain.push(Link { key: leaf.path_encoding, group: children(leaf) }),
            0,
            h,
        ),
        searchable(leaf, h.turn_limit, h.round_limit),
{
    let turn_limit = h.turn_limit;
    let round_limit = h.round_limit;
    let node = ScoreView::fresh(leaf, child_count(leaf) as nat, 0);
    let key = leaf.path_encoding;
    let u = t.insert(key, node);
    let group = children(leaf);
    let longer = chain.push(Link { key, group });
    let last = chain.len() - 1;
    assert(link_exact(t, chain, last, 1, h));
    assert(child_ok(t[chain[last].key].state, chain[last].group.len() as int));
    lemma_child(t[chain[last].key].state, chain[last].group.len() as int, h);
    lemma_entry_start(leaf, h);
    if h.terminal == h.first + 1 {
        lemma_live_coins_bound(t[chain[last].key].state, t[chain[last].key].state.n());
        lemma_bid_child_state(
            t[chain[last].key].state,
            chain[last].group.len() as int,
        );
    }
    assert(group.take(group.len() as int) =~= group);
    assert forall|j: int| 0 <= j < longer.len() implies #[trigger] link_exact(
        u,
        longer,
        j,
        0,
        h,
    ) by {
        if j < chain.len() {
            assert(link_exact(t, chain, j, 1, h));
            assert(link_ok(t, chain, j, players, turn_limit, round_limit, 1));
            assert(longer[j] == chain[j]);
            if j < last {
                lemma_keys_grow(t, chain, root_key, players, turn_limit, round_limit, 1, j, last);
            }
            assert(chain[j].key != key);
            assert(u[chain[j].key] == t[chain[j].key]);
            if j >= 1 {
                assert(longer[j - 1] == chain[j - 1]);
                assert(link_ok(t, chain, j - 1, players, turn_limit, round_limit, 1));
                lemma_keys_grow(
                    t,
                    chain,
                    root_key,
                    players,
                    turn_limit,
                    round_limit,
                    1,
                    j - 1,
                    last,
                );
                assert(u[chain[j - 1].key] == t[chain[j - 1].key]);
            }
        } else {
            assert(longer[j - 1] == chain[last]);
            assert(link_ok(t, chain, last, players, turn_limit, round_limit, 1));
            assert(u[chain[last].key] == t[chain[last].key]);
        }
    }
}

} // verus!
