//! The steps of the search, one by one: what holds of the table and of the
//! open nodes before a step holds after it. In a search over every branch
//! the table ends up with what each bid of the player to move is worth.

use crate::engines::algorithms::frontier::{
    chain_exact, chain_ok, flatten, heft, lemma_chain_drop, lemma_chain_frame, lemma_chain_open,
    lemma_chain_open_exact, lemma_chain_pop, lemma_chain_pop_exact, lemma_chain_ready,
    lemma_flatten_root, lemma_flatten_take, lemma_keys_grow, lemma_trimmed, lemma_trimmed_root,
    lemma_walk, lemma_walk_exact, lemma_weight_children, lemma_weight_nonneg, lemma_weight_push,
    link_exact, link_ok, member_ok, trimmed, walk_stop, weight, with_group, Link,
};
use crate::engines::algorithms::game_value::{
    bid_child, bid_children, bid_count, child, child_count, child_ok, children, choice, is_leaf,
    lemma_bid_child_state, lemma_bid_children_differ, lemma_entry_leaf,
    lemma_entry_start, worth, Horizon,
};
use crate::engines::algorithms::maxn_player::{best_action, child_key, registered};
use crate::engines::algorithms::propagation::{evicted, walk_ready, walked};
use crate::engines::algorithms::score_node::{lemma_absorbed_wf, ScoreView};
use crate::engines::algorithms::search_model::{
    bidding, depth_left, lemma_live_coins_bound, round_limit, turn_limit, };
use crate::engines::scorers::naive_round_score::round_scores;
use crate::models::encoding::{lemma_parent_of_action, parent_of};
use crate::models::state_view::GameStateView;
use vstd::prelude::*;

verus! {

/// What holds of the root of a search with horizon `h`: a player is to
/// bid, and the horizon starts at the root and leaves room for all that
/// can follow.
pub open spec fn root_ok(root: GameStateView, h: Horizon) -> bool {
    &&& bidding(root)
    &&& h.turn_limit == turn_limit(root)
    &&& h.round_limit == round_limit(root)
    &&& h.first == root.round_no
    &&& h.turn_limit <= u32::MAX
    &&& h.round_limit <= u8::MAX
}

/// Whether the table has an entry near the root for the state that each
/// legal action of the player to move leads to, from the `from`-th action
/// on.
pub open spec fn children_kept(root: GameStateView, t: Map<Seq<char>, ScoreView>, from: int) -> bool {
    forall|i: int|
        from <= i < bid_count(root) ==> t.contains_key(#[trigger] child_key(root, i))
            && !t[child_key(root, i)].leaves_table(root.turn_no as int)
}

/// Whether the table has, for each bid of the player to move from the
/// `from`-th on, what the bid is worth.
pub open spec fn scored_from(
    root: GameStateView,
    t: Map<Seq<char>, ScoreView>,
    from: int,
    h: Horizon,
) -> bool {
    forall|i: int|
        from <= i < bid_count(root) ==> t.contains_key(#[trigger] child_key(root, i))
            && t[child_key(root, i)].score == worth(bid_child(root, i), h)
}

/// How many of the root's bids have yet to be worked out: those whose
/// states wait in the frontier, and the one that is open.
pub open spec fn unscored_bids(chain: Seq<Link>) -> int {
    chain[0].group.len() + (if chain.len() >= 2 {
        1int
    } else {
        0int
    })
}

/// What holds of table and chain in a search over every branch.
pub open spec fn exact_inv(
    root: GameStateView,
    t: Map<Seq<char>, ScoreView>,
    chain: Seq<Link>,
    h: Horizon,
) -> bool {
    &&& chain_exact(t, chain, 0, h)
    &&& t[chain[0].key].state == root
    &&& scored_from(root, t, unscored_bids(chain), h)
}

/// What holds of table and chain between two steps of a search; `exact`
/// says whether the search goes over every branch.
pub open spec fn search_inv(
    root: GameStateView,
    h: Horizon,
    exact: bool,
    t: Map<Seq<char>, ScoreView>,
    chain: Seq<Link>,
) -> bool {
    &&& chain_ok(t, chain, root.path_encoding, root.n(), h.turn_limit, h.round_limit, 0)
    &&& chain.len() == 1 || chain.last().group.len() > 0
    &&& chain[0].group == bid_children(root).take(chain[0].group.len() as int)
    &&& chain[0].group.len() <= bid_count(root)
    &&& children_kept(root, t, chain[0].group.len() as int)
    &&& exact ==> exact_inv(root, t, chain, h)
}

/// What holds of table and chain once `leaf` has left the frontier and
/// before its entry or its score is in the table.
pub open spec fn popped_inv(
    root: GameStateView,
    h: Horizon,
    exact: bool,
    t: Map<Seq<char>, ScoreView>,
    popped: Seq<Link>,
    leaf: GameStateView,
) -> bool {
    &&& chain_ok(t, popped, root.path_encoding, root.n(), h.turn_limit, h.round_limit, 1)
    &&& member_ok(leaf, popped.last().key, root.n(), h.turn_limit, h.round_limit)
    &&& popped[0].group == bid_children(root).take(popped[0].group.len() as int)
    &&& popped[0].group.len() <= bid_count(root)
    &&& popped.len() == 1 ==> popped[0].group.len() < bid_count(root) && leaf == bid_child(
        root,
        popped[0].group.len() as int,
    )
    &&& children_kept(
        root,
        t,
        popped[0].group.len() + (if popped.len() == 1 {
            1int
        } else {
            0int
        }),
    )
    &&& exact ==> {
        &&& chain_exact(t, popped, 1, h)
        &&& leaf == child(t[popped.last().key].state, popped.last().group.len() as int)
        &&& t[popped[0].key].state == root
        &&& scored_from(root, t, popped[0].group.len() as int + 1, h)
    }
}

/// The start of a search: the root is open, and all its children wait.
pub proof fn lemma_start(root: GameStateView, h: Horizon, exact: bool)
    requires
        root_ok(root, h),
        forall|i: int|
            0 <= i < bid_count(root) ==> member_ok(
                #[trigger] bid_children(root)[i],
                root.path_encoding,
                root.n(),
                h.turn_limit,
                h.round_limit,
            ),
        1 <= bid_count(root) <= usize::MAX,
    ensures
        search_inv(
            root,
            h,
            exact,
            Map::<Seq<char>, ScoreView>::empty().insert(
                root.path_encoding,
                ScoreView::fresh(root, bid_count(root) as nat, 0),
            ),
            seq![Link { key: root.path_encoding, group: bid_children(root) }],
        ),
        flatten(seq![Link { key: root.path_encoding, group: bid_children(root) }])
            == bid_children(root),
{
    let node = ScoreView::fresh(root, bid_count(root) as nat, 0);
    let t = Map::<Seq<char>, ScoreView>::empty().insert(root.path_encoding, node);
    let chain = seq![Link { key: root.path_encoding, group: bid_children(root) }];
    lemma_live_coins_bound(root, root.n());
    assert(link_ok(t, chain, 0, root.n(), h.turn_limit, h.round_limit, 0));
    assert(chain.drop_last() =~= Seq::<Link>::empty());
    assert(flatten(chain.drop_last()) =~= Seq::<GameStateView>::empty());
    assert(flatten(chain) =~= bid_children(root));
    assert(bid_children(root).take(bid_count(root)) =~= bid_children(root));
    assert(children(root) =~= bid_children(root));
    lemma_entry_start(root, h);
    if h.terminal == h.first + 1 {
    }
    assert(link_exact(t, chain, 0, 0, h));
}

/// Taking the last state out of the frontier.
pub proof fn lemma_pop(
    root: GameStateView,
    h: Horizon,
    exact: bool,
    t: Map<Seq<char>, ScoreView>,
    chain: Seq<Link>,
)
    requires
        root_ok(root, h),
        search_inv(root, h, exact, t, chain),
        flatten(chain).len() > 0,
    ensures
        chain.last().group.len() > 0,
        flatten(chain).last() == chain.last().group.last(),
        popped_inv(
            root,
            h,
            exact,
            t,
            with_group(chain, chain.last().group.drop_last()),
            flatten(chain).last(),
        ),
        flatten(with_group(chain, chain.last().group.drop_last())) == flatten(chain).drop_last(),
        weight(flatten(chain)) == weight(
            flatten(with_group(chain, chain.last().group.drop_last())),
        ) + heft(flatten(chain).last()),
        weight(flatten(with_group(chain, chain.last().group.drop_last()))) >= 0,
        heft(flatten(chain).last()) >= 1,
{
    let players = root.n();
    let tl = h.turn_limit;
    let rl = h.round_limit;
    if chain.len() == 1 {
        assert(chain.drop_last() =~= Seq::<Link>::empty());
        assert(flatten(chain.drop_last()) =~= Seq::<GameStateView>::empty());
        assert(flatten(chain) =~= chain.last().group);
    }
    lemma_chain_pop(t, chain, root.path_encoding, players, tl, rl);
    let leaf = flatten(chain).last();
    let popped = with_group(chain, chain.last().group.drop_last());
    assert(flatten(chain) =~= flatten(popped).push(leaf));
    lemma_weight_push(flatten(popped), leaf);
    lemma_weight_nonneg(flatten(popped));
    let from = chain[0].group.len() as int;
    if chain.len() == 1 {
        assert(popped[0].group =~= bid_children(root).take(from - 1));
        assert(leaf == bid_children(root)[from - 1]);
    } else {
        assert(popped[0] == chain[0]);
    }
    if exact {
        lemma_chain_pop_exact(t, chain, h);
        assert(popped[0].key == chain[0].key);
    }
}

/// A state in the frontier of a search over one round, in which no
/// auction is under way, stands at the end of the round.
pub proof fn lemma_single_leaf(
    root: GameStateView,
    h: Horizon,
    t: Map<Seq<char>, ScoreView>,
    popped: Seq<Link>,
    leaf: GameStateView,
)
    requires
        root_ok(root, h),
        popped_inv(root, h, true, t, popped, leaf),
        h.terminal == h.first + 1,
        leaf.auction_end(),
    ensures
        leaf.round_no == h.terminal,
{
    let last = popped.len() - 1;
    assert(link_exact(t, popped, last, 1, h));
    let s = t[popped[last].key].state;
    lemma_live_coins_bound(s, s.n());
    lemma_bid_child_state(s, popped[last].group.len() as int);
}

/// The key of the state after a bid at the root is no key of the chain,
/// unless the state is the open child of the root.
proof fn lemma_child_key_apart(
    root: GameStateView,
    h: Horizon,
    t: Map<Seq<char>, ScoreView>,
    chain: Seq<Link>,
    pending: int,
    i: int,
    m: int,
)
    requires
        bidding(root),
        chain_ok(t, chain, root.path_encoding, root.n(), h.turn_limit, h.round_limit, pending),
        chain_exact(t, chain, pending, h),
        t[chain[0].key].state == root,
        0 <= i < bid_count(root),
        i != chain[0].group.len(),
        0 <= m < chain.len(),
    ensures
        chain[m].key != child_key(root, i),
{
    let mover = root.current_decision_player->0;
    lemma_parent_of_action(root.path_encoding, mover, root.legal_moves_bid(mover)[i]);
    assert(link_ok(t, chain, m, root.n(), h.turn_limit, h.round_limit, pending));
    assert(link_exact(t, chain, m, pending, h));
    if m == 0 {
    } else if m == 1 {
        assert(link_exact(t, chain, 0, pending, h));
        lemma_bid_children_differ(root, i, chain[0].group.len() as int);
    } else {
        lemma_keys_grow(
            t,
            chain,
            root.path_encoding,
            root.n(),
            h.turn_limit,
            h.round_limit,
            pending,
            0,
            m - 1,
        );
    }
}

/// What holds of a chain in a search over every branch depends on the
/// entries of its own nodes only.
proof fn lemma_exact_frame(
    t: Map<Seq<char>, ScoreView>,
    u: Map<Seq<char>, ScoreView>,
    chain: Seq<Link>,
    pending: int,
    h: Horizon,
)
    requires
        chain_exact(t, chain, pending, h),
        forall|j: int| 0 <= j < chain.len() ==> u[(#[trigger] chain[j]).key] == t[chain[j].key],
    ensures
        chain_exact(u, chain, pending, h),
{
    assert forall|j: int| 0 <= j < chain.len() implies #[trigger] link_exact(
        u,
        chain,
        j,
        pending,
        h,
    ) by {
        assert(link_exact(t, chain, j, pending, h));
        assert(u[chain[j].key] == t[chain[j].key]);
        if j >= 1 {
            assert(u[chain[j - 1].key] == t[chain[j - 1].key]);
        }
    }
}

/// Putting the entry of the state that has just left the frontier into the
/// table keeps the entries of the root's children.
proof fn lemma_children_kept_insert(
    root: GameStateView,
    h: Horizon,
    exact: bool,
    t: Map<Seq<char>, ScoreView>,
    popped: Seq<Link>,
    leaf: GameStateView,
    node: ScoreView,
)
    requires
        root_ok(root, h),
        popped_inv(root, h, exact, t, popped, leaf),
        node.state == leaf,
    ensures
        children_kept(root, t.insert(leaf.path_encoding, node), popped[0].group.len() as int),
{
    let u = t.insert(leaf.path_encoding, node);
    let mover = root.current_decision_player->0;
    let low = popped[0].group.len() as int;
    let last = popped.len() - 1;
    lemma_live_coins_bound(root, root.n());
    assert(link_ok(t, popped, last, root.n(), h.turn_limit, h.round_limit, 1));
    if last > 0 {
        lemma_keys_grow(
            t,
            popped,
            root.path_encoding,
            root.n(),
            h.turn_limit,
            h.round_limit,
            1,
            0,
            last,
        );
    }
    assert forall|i: int| low <= i < bid_count(root) implies u.contains_key(
        #[trigger] child_key(root, i),
    ) && !u[child_key(root, i)].leaves_table(root.turn_no as int) by {
        lemma_parent_of_action(root.path_encoding, mover, root.legal_moves_bid(mover)[i]);
        if child_key(root, i) == leaf.path_encoding {
            assert(popped.len() == 1);
            lemma_bid_child_state(root, low);
        } else {
            assert(t.contains_key(child_key(root, i)));
        }
    }
}

/// The walk of a report leaves the state of the root's entry as it is.
pub proof fn lemma_root_state_kept(
    reg: Map<Seq<char>, ScoreView>,
    popped: Seq<Link>,
    score: Seq<i64>,
    root: GameStateView,
    h: Horizon,
)
    requires
        chain_ok(reg, popped, root.path_encoding, root.n(), h.turn_limit, h.round_limit, 1),
        score.len() == root.n(),
        reg[popped[0].key].state == root,
    ensures
        walked(reg, popped.last().key, score, root.path_encoding, root.turn_no as int)[root.path_encoding].state
            == root,
    decreases popped.len(),
{
    let root_key = root.path_encoding;
    let root_turn = root.turn_no as int;
    let players = root.n();
    let last = popped.len() - 1;
    let key = popped.last().key;
    assert(link_ok(reg, popped, last, players, h.turn_limit, h.round_limit, 1));
    let node = reg[key].absorbed(score);
    lemma_absorbed_wf(reg[key], score);
    let taken = reg.insert(key, node);
    if node.remaining_children >= 1 || key == root_key {
        if last > 0 {
            lemma_keys_grow(
                reg,
                popped,
                root_key,
                players,
                h.turn_limit,
                h.round_limit,
                1,
                0,
                last,
            );
        }
    } else {
        let kept = if evicted(node, root_turn) {
            taken.remove(key)
        } else {
            taken
        };
        let shorter = popped.drop_last();
        lemma_chain_drop(
            reg,
            popped,
            root_key,
            players,
            h.turn_limit,
            h.round_limit,
            1,
        );
        assert forall|m: int| 0 <= m < shorter.len() implies kept.contains_key(
            (#[trigger] shorter[m]).key,
        ) && kept[shorter[m].key] == reg[shorter[m].key] by {
            lemma_keys_grow(
                reg,
                popped,
                root_key,
                players,
                h.turn_limit,
                h.round_limit,
                1,
                m,
                last,
            );
            assert(shorter[m] == popped[m]);
            assert(link_ok(reg, popped, m, players, h.turn_limit, h.round_limit, 1));
        }
        lemma_chain_frame(
            reg,
            kept,
            shorter,
            root_key,
            players,
            h.turn_limit,
            h.round_limit,
            1,
        );
        assert(shorter[0] == popped[0]);
        lemma_root_state_kept(kept, shorter, node.score, root, h);
        assert(parent_of(key) == shorter.last().key);
    }
}

/// What a search over every branch has worked out for the root's bids
/// after a leaf has reported.
proof fn lemma_exact_leaf(
    root: GameStateView,
    h: Horizon,
    t: Map<Seq<char>, ScoreView>,
    popped: Seq<Link>,
    leaf: GameStateView,
)
    requires
        root_ok(root, h),
        popped_inv(root, h, true, t, popped, leaf),
        is_leaf(leaf, h),
    ensures
        exact_inv(
            root,
            walked(
                registered(t, leaf, root.turn_no as int),
                popped.last().key,
                round_scores(leaf),
                root.path_encoding,
                root.turn_no as int,
            ),
            popped.take(
                walk_stop(
                    registered(t, leaf, root.turn_no as int),
                    popped,
                    round_scores(leaf),
                    root.path_encoding,
                    root.turn_no as int,
                ) + 1,
            ),
            h,
        ),
        walk_stop(
            registered(t, leaf, root.turn_no as int),
            popped,
            round_scores(leaf),
            root.path_encoding,
            root.turn_no as int,
        ) == 0 || popped[walk_stop(
            registered(t, leaf, root.turn_no as int),
            popped,
            round_scores(leaf),
            root.path_encoding,
            root.turn_no as int,
        )].group.len() > 0,
{
    let players = root.n();
    let tl = h.turn_limit;
    let rl = h.round_limit;
    let score = round_scores(leaf);
    let root_key = root.path_encoding;
    let root_turn = root.turn_no as int;
    let reg = registered(t, leaf, root_turn);
    let last = popped.len() - 1;
    let g = popped[0].group.len() as int;
    lemma_live_coins_bound(root, root.n());
    assert(link_ok(t, popped, last, players, tl, rl, 1));
    assert(link_ok(t, popped, 0, players, tl, rl, 1));
    assert(link_exact(t, popped, 0, 1, h));
    assert(link_exact(t, popped, last, 1, h));
    assert forall|m: int| 0 <= m < popped.len() implies reg.contains_key(
        (#[trigger] popped[m]).key,
    ) && reg[popped[m].key] == t[popped[m].key] by {
        assert(link_ok(t, popped, m, players, tl, rl, 1));
        if m < last {
            lemma_keys_grow(t, popped, root_key, players, tl, rl, 1, m, last);
        }
    }
    lemma_chain_frame(t, reg, popped, root_key, players, tl, rl, 1);
    lemma_exact_frame(t, reg, popped, 1, h);
    lemma_entry_leaf(leaf, 0, h);
    let j = lemma_walk(reg, popped, score, root_key, root_turn, players, tl, rl);
    lemma_walk_exact(reg, popped, score, root_key, root_turn, players, tl, rl, h);
    let after = walked(reg, popped.last().key, score, root_key, root_turn);
    let rest = popped.take(j + 1);
    assert(rest[0] == popped[0]);
    assert(link_exact(after, rest, 0, 0, h));
    assert(link_ok(after, rest, 0, players, tl, rl, 0));
    assert(after[rest[0].key].state == root) by {
        lemma_root_state_kept(reg, popped, score, root, h);
    }
    let from = unscored_bids(rest);
    assert forall|i: int| from <= i < bid_count(root) implies after.contains_key(
        #[trigger] child_key(root, i),
    ) && after[child_key(root, i)].score == worth(bid_child(root, i), h) by {
        let key = child_key(root, i);
        let mover = root.current_decision_player->0;
        lemma_parent_of_action(root_key, mover, root.legal_moves_bid(mover)[i]);
        lemma_bid_child_state(root, i);
        if i > g {
            assert(t.contains_key(key));
            assert forall|m: int| 0 <= m < popped.len() implies (#[trigger] popped[m]).key
                != key by {
                lemma_child_key_apart(root, h, t, popped, 1, i, m);
            }
            if popped.len() == 1 {
                lemma_bid_children_differ(root, i, g);
            } else {
                lemma_keys_grow(t, popped, root_key, players, tl, rl, 1, 0, last);
            }
            assert(leaf.path_encoding != key);
            assert(reg[key] == t[key]);
            assert(after[key] == reg[key]);
        } else {
            assert(i == g && j == 0);
            if popped.len() == 1 {
                assert(leaf == bid_child(root, g));
                assert(reg[key] == ScoreView::scored(leaf, round_scores(leaf)));
                assert(popped[0].key != key);
                assert(after.contains_key(key) == reg.contains_key(key) && after[key] == reg[key]);
            } else {
                assert(link_exact(t, popped, 1, 1, h));
                assert(link_ok(t, popped, 1, players, tl, rl, 1));
                assert(t[popped[1].key].state == bid_child(root, g));
                assert(popped[1].key == key);
                lemma_bid_child_state(root, g);
                assert(!evicted(reg[popped[1].key], root_turn));
            }
        }
    }
}

/// A leaf that has left the frontier: its score can be reported, and once
/// it has been, table and chain are as they should be between two steps.
pub proof fn lemma_leaf(
    root: GameStateView,
    h: Horizon,
    exact: bool,
    t: Map<Seq<char>, ScoreView>,
    popped: Seq<Link>,
    leaf: GameStateView,
)
    requires
        root_ok(root, h),
        popped_inv(root, h, exact, t, popped, leaf),
        leaf.auction_end(),
        exact ==> is_leaf(leaf, h),
    ensures
        walk_ready(t, parent_of(leaf.path_encoding), root.path_encoding, leaf.n()),
        search_inv(
            root,
            h,
            exact,
            walked(
                registered(t, leaf, root.turn_no as int),
                parent_of(leaf.path_encoding),
                round_scores(leaf),
                root.path_encoding,
                root.turn_no as int,
            ),
            trimmed(
                popped.take(
                    walk_stop(
                        registered(t, leaf, root.turn_no as int),
                        popped,
                        round_scores(leaf),
                        root.path_encoding,
                        root.turn_no as int,
                    ) + 1,
                ),
            ),
        ),
        flatten(
            trimmed(
                popped.take(
                    walk_stop(
                        registered(t, leaf, root.turn_no as int),
                        popped,
                        round_scores(leaf),
                        root.path_encoding,
                        root.turn_no as int,
                    ) + 1,
                ),
            ),
        ) == flatten(popped),
{
    let players = root.n();
    let tl = h.turn_limit;
    let rl = h.round_limit;
    let score = round_scores(leaf);
    let root_key = root.path_encoding;
    let root_turn = root.turn_no as int;
    let reg = registered(t, leaf, root_turn);
    let last = popped.len() - 1;
    lemma_chain_ready(t, popped, root_key, players, tl, rl, last);
    assert forall|m: int| 0 <= m < popped.len() implies reg.contains_key(
        (#[trigger] popped[m]).key,
    ) && reg[popped[m].key] == t[popped[m].key] by {
        assert(link_ok(t, popped, m, players, tl, rl, 1));
        if m < last {
            lemma_keys_grow(t, popped, root_key, players, tl, rl, 1, m, last);
        }
    }
    lemma_chain_frame(t, reg, popped, root_key, players, tl, rl, 1);
    let j = lemma_walk(reg, popped, score, root_key, root_turn, players, tl, rl);
    let after = walked(reg, popped.last().key, score, root_key, root_turn);
    let rest = popped.take(j + 1);
    lemma_flatten_take(popped, j);
    lemma_trimmed(after, rest, root_key, players, tl, rl);
    lemma_trimmed_root(rest);
    assert(rest[0] == popped[0]);
    // The entries of the root's children stay.
    if leaf.turn_no == root.turn_no + 1 {
        lemma_children_kept_insert(
            root,
            h,
            exact,
            t,
            popped,
            leaf,
            ScoreView::scored(leaf, round_scores(leaf)),
        );
    } else if popped.len() == 1 {
        lemma_live_coins_bound(root, root.n());
        lemma_bid_child_state(root, popped[0].group.len() as int);
    }
    assert(children_kept(root, reg, popped[0].group.len() as int));
    assert(children_kept(root, after, popped[0].group.len() as int));
    if exact {
        lemma_exact_leaf(root, h, t, popped, leaf);
        assert(trimmed(rest) == rest);
    }
}

/// A state that has left the frontier and is opened: with its entry in
/// the table and its children in the frontier, table and chain are as
/// they should be between two steps, and the frontier weighs less than
/// before the state left it.
pub proof fn lemma_open(
    root: GameStateView,
    h: Horizon,
    exact: bool,
    t: Map<Seq<char>, ScoreView>,
    popped: Seq<Link>,
    leaf: GameStateView,
    group: Seq<GameStateView>,
)
    requires
        root_ok(root, h),
        popped_inv(root, h, exact, t, popped, leaf),
        1 <= group.len() <= usize::MAX,
        forall|i: int|
            0 <= i < group.len() ==> member_ok(
                #[trigger] group[i],
                leaf.path_encoding,
                root.n(),
                h.turn_limit,
                h.round_limit,
            ),
        forall|i: int| 0 <= i < group.len() ==> 0 <= depth_left(#[trigger] group[i]) < depth_left(leaf),
        exact ==> !is_leaf(leaf, h) && group == children(leaf) && forall|i: int|
            0 <= i < child_count(leaf) ==> #[trigger] child_ok(leaf, i),
    ensures
        search_inv(
            root,
            h,
            exact,
            t.insert(leaf.path_encoding, ScoreView::fresh(leaf, group.len(), 0)),
            trimmed(popped.push(Link { key: leaf.path_encoding, group })),
        ),
        flatten(trimmed(popped.push(Link { key: leaf.path_encoding, group }))) == flatten(popped)
            + group,
        0 <= weight(flatten(popped) + group) < weight(flatten(popped)) + heft(leaf),
{
    lemma_weight_nonneg(flatten(popped) + group);
    let players = root.n();
    let tl = h.turn_limit;
    let rl = h.round_limit;
    let root_key = root.path_encoding;
    let node = ScoreView::fresh(leaf, group.len(), 0);
    let u = t.insert(leaf.path_encoding, node);
    let opened = popped.push(Link { key: leaf.path_encoding, group });
    let last = popped.len() - 1;
    lemma_chain_open(t, popped, root_key, players, tl, rl, node, group);
    lemma_trimmed(u, opened, root_key, players, tl, rl);
    lemma_trimmed_root(opened);
    lemma_weight_children(flatten(popped), group, leaf);
    lemma_children_kept_insert(root, h, exact, t, popped, leaf, node);
    assert(opened[0] == popped[0]);
    assert(trimmed(opened) == opened);
    if exact {
        let g = popped[0].group.len() as int;
        lemma_chain_open_exact(t, popped, root_key, players, h, leaf);
        assert(link_ok(t, popped, 0, players, tl, rl, 1));
        assert(link_ok(t, popped, last, players, tl, rl, 1));
        assert(link_exact(t, popped, 0, 1, h));
        if last > 0 {
            lemma_keys_grow(t, popped, root_key, players, tl, rl, 1, 0, last);
        }
        assert(u[opened[0].key] == t[popped[0].key]);
        assert(unscored_bids(opened) == g + 1);
        assert forall|i: int| g + 1 <= i < bid_count(root) implies u.contains_key(
            #[trigger] child_key(root, i),
        ) && u[child_key(root, i)].score == worth(bid_child(root, i), h) by {
            let key = child_key(root, i);
            let mover = root.current_decision_player->0;
            lemma_parent_of_action(root_key, mover, root.legal_moves_bid(mover)[i]);
            assert(t.contains_key(key));
            if popped.len() == 1 {
                assert(leaf == bid_child(root, g));
                lemma_bid_children_differ(root, i, g);
            }
            assert(leaf.path_encoding != key);
        }
    }
}

/// The end of a search: with nothing left in the frontier, the table has
/// an entry for every bid of the player to move, and in a search over
/// every branch the best action by the table is the best bid.
pub proof fn lemma_end(
    root: GameStateView,
    h: Horizon,
    exact: bool,
    t: Map<Seq<char>, ScoreView>,
    chain: Seq<Link>,
)
    requires
        root_ok(root, h),
        search_inv(root, h, exact, t, chain),
        flatten(chain).len() == 0,
    ensures
        children_kept(root, t, 0),
        t.contains_key(root.path_encoding),
        exact ==> best_action(root, t, bid_count(root)) == choice(root, bid_count(root), h),
{
    lemma_flatten_root(chain);
    assert(link_ok(t, chain, 0, root.n(), h.turn_limit, h.round_limit, 0));
    if exact {
        lemma_scored_choice(root, t, bid_count(root), h);
    }
}

/// Where the table has what each bid of the player to move is worth, the
/// best action by the table is the best bid.
pub proof fn lemma_scored_choice(
    root: GameStateView,
    t: Map<Seq<char>, ScoreView>,
    upto: int,
    h: Horizon,
)
    requires
        scored_from(root, t, 0, h),
        0 <= upto <= bid_count(root),
    ensures
        best_action(root, t, upto) == choice(root, upto, h),
    decreases upto,
{
    if upto > 0 {
        lemma_scored_choice(root, t, upto - 1, h);
        assert(t.contains_key(child_key(root, upto - 1)));
    }
}

} // verus!
