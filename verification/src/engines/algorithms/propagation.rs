//! How a score travels up the tree: from a node that is done to its parent,
//! and on for as long as the parent is done with it too.

use crate::bindings::hash_map::{score_entries, scores_insert, scores_remove};
use crate::engines::algorithms::score_node::{
    lemma_absorbed_wf, Outcome, ScoreMaxN, ScoreView,
};
use crate::models::encoding::{lemma_last_bar_range, parent_of};
use ahash::AHashMap;
use vstd::prelude::*;

verus! {

/// The entries of a score table as plain values.
pub open spec fn views(entries: Map<Seq<char>, ScoreMaxN>) -> Map<Seq<char>, ScoreView> {
    entries.map_values(|node: ScoreMaxN| node@)
}

/// Whether every entry of a score table is sound, belongs to a game of
/// `players` players, and is kept under the key of its own state.
pub open spec fn table_ok(entries: Map<Seq<char>, ScoreMaxN>, players: int) -> bool {
    forall|k: Seq<char>| #[trigger]
        entries.contains_key(k) ==> {
            &&& entries[k].wf()
            &&& entries[k]@.state.path_encoding == k
            &&& entries[k]@.state.n() == players
        }
}

/// Whether a node that is done leaves the table: only nodes more than two
/// turns below the root of the search do.
pub open spec fn evicted(node: ScoreView, root_turn: int) -> bool {
    node.leaves_table(root_turn)
}

/// Whether a score can be reported to the node under `key`: the node is in
/// the table and waits for a child, and where this report is its last, the
/// same holds of its parent, up to the root of the search.
pub open spec fn walk_ready(
    t: Map<Seq<char>, ScoreView>,
    key: Seq<char>,
    root_key: Seq<char>,
    players: int,
) -> bool
    decreases key.len(),
{
    &&& t.contains_key(key)
    &&& t[key].wf()
    &&& t[key].state.path_encoding == key
    &&& t[key].state.n() == players
    &&& t[key].remaining_children >= 1
    &&& (key == root_key || t[key].remaining_children >= 2 || (parent_of(key).len() < key.len()
        && walk_ready(t, parent_of(key), root_key, players)))
}

/// The table after `score` has been reported to the node under `key`. The
/// node takes the score in. If it still waits for a child, or is the root
/// of the search, nothing more happens. Else the node is done: it leaves
/// the table unless it is near the root, and its own score is reported to
/// its parent.
pub open spec fn walked(
    t: Map<Seq<char>, ScoreView>,
    key: Seq<char>,
    score: Seq<i64>,
    root_key: Seq<char>,
    root_turn: int,
) -> Map<Seq<char>, ScoreView>
    decreases key.len(),
{
    if !t.contains_key(key) {
        t
    } else {
        let node = t[key].absorbed(score);
        let taken = t.insert(key, node);
        if node.remaining_children >= 1 || key == root_key {
            taken
        } else {
            let kept = if evicted(node, root_turn) {
                taken.remove(key)
            } else {
                taken
            };
            if parent_of(key).len() < key.len() {
                walked(kept, parent_of(key), node.score, root_key, root_turn)
            } else {
                kept
            }
        }
    }
}

/// Whether a report to a node is ready depends on the entries under
/// shorter keys only.
pub proof fn lemma_ready_frame(
    t: Map<Seq<char>, ScoreView>,
    u: Map<Seq<char>, ScoreView>,
    key: Seq<char>,
    root_key: Seq<char>,
    players: int,
)
    requires
        walk_ready(t, key, root_key, players),
        forall|k: Seq<char>|
            k.len() <= key.len() ==> (#[trigger] t.contains_key(k) == u.contains_key(k) && (
            t.contains_key(k) ==> t[k] == u[k])),
    ensures
        walk_ready(u, key, root_key, players),
    decreases key.len(),
{
    if !(key == root_key || t[key].remaining_children >= 2) {
        assert(t.contains_key(key));
        assert forall|k: Seq<char>| k.len() <= parent_of(key).len() implies (
        #[trigger] t.contains_key(k) == u.contains_key(k) && (t.contains_key(k) ==> t[k] == u[k])) by {
            assert(k.len() <= key.len());
        }
        lemma_ready_frame(t, u, parent_of(key), root_key, players);
    }
}

/// Reports `score` to the node under `parent_key`, and on towards the root
/// for as long as the nodes on the way are done.
pub fn propagate(
    scores: &mut AHashMap<String, ScoreMaxN>,
    root_key: &String,
    root_turn: u32,
    parent_key: String,
    score: Vec<i64>,
)
    requires
        table_ok(score_entries(*old(scores)), score@.len() as int),
        walk_ready(
            views(score_entries(*old(scores))),
            parent_key@,
            root_key@,
            score@.len() as int,
        ),
    ensures
        table_ok(score_entries(*final(scores)), score@.len() as int),
        views(score_entries(*final(scores))) == walked(
            views(score_entries(*old(scores))),
            parent_key@,
            score@,
            root_key@,
            root_turn as int,
        ),
{
    let ghost players = score@.len() as int;
    let ghost target = walked(
        views(score_entries(*old(scores))),
        parent_key@,
        score@,
        root_key@,
        root_turn as int,
    );
    let mut key: String = parent_key;
    let mut score: Vec<i64> = score;
    loop
        invariant_except_break
            walk_ready(views(score_entries(*scores)), key@, root_key@, players),
            walked(views(score_entries(*scores)), key@, score@, root_key@, root_turn as int)
                == target,
        invariant
            table_ok(score_entries(*scores), players),
            score@.len() == players,
        ensures
            table_ok(score_entries(*scores), players),
            views(score_entries(*scores)) == target,
        decreases key@.len(),
    {
        let ghost before = score_entries(*scores);
        let ghost t = views(before);
        let mut node: ScoreMaxN = scores_remove(scores, &key).unwrap();
        proof {
            assert(before.contains_key(key@));
            assert(node == before[key@]);
            assert(t[key@] == node@);
            lemma_absorbed_wf(node@, score@);
            node.game_state.lemma_wf();
            lemma_last_bar_range(key@);
        }
        let outcome: Outcome = node.take_report(&score, root_turn);
        let at_root: bool = key == *root_key;
        let evict: bool = match outcome {
            Outcome::Waiting => {
                scores_insert(scores, key, node);
                proof {
                    assert(views(score_entries(*scores)) =~= t.insert(key@, node@));
                }
                break ;
            },
            Outcome::Done { evict } => evict,
        };
        if at_root {
            scores_insert(scores, key, node);
            proof {
                assert(views(score_entries(*scores)) =~= t.insert(key@, node@));
            }
            break ;
        }
        score = node.score.clone();
        let parent: String = node.game_state.get_parent_encoding();
        let ghost taken = t.insert(key@, node@);
        let ghost kept = if evict {
            taken.remove(key@)
        } else {
            taken
        };
        if !evict {
            scores_insert(scores, key, node);
        }
        proof {
            assert(views(score_entries(*scores)) =~= kept);
            assert(parent@.len() < key@.len());
            lemma_ready_frame(t, kept, parent@, root_key@, players);
        }
        key = parent;
    }
}

} // verus!
