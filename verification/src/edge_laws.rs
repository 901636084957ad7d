//! What holds of the edges and the reachable biomes that moves reduce to.

use crate::edges::{
    edge_label, drawn_edge, merge_move, move_label, position_of, reach_move, reach_moves, reduce_moves, Edge,
    Move,
};
use crate::model::{Graph, Id};
use vstd::prelude::*;

verus! {

/// The position of the first move at or after `from` that has the label `label`.
pub open spec fn first_move(g: Graph, moves: Seq<Move>, label: Seq<char>, from: int) -> Option<int>
    decreases moves.len() - from,
{
    if from >= moves.len() {
        None
    } else if 0 <= from && move_label(g, moves[from]) == label {
        Some(from)
    } else {
        first_move(g, moves, label, from + 1)
    }
}

/// Whether an enabled move has the label `label`.
pub open spec fn label_enabled(g: Graph, moves: Seq<Move>, label: Seq<char>) -> bool {
    exists|t: int|
        0 <= t < moves.len() && move_label(g, #[trigger] moves[t]) == label && moves[t].enabled
}

/// Whether `edges` are the edges of `moves`: each is drawn as the first move
/// with its label asks and is enabled exactly when an enabled move has its
/// label; the edges stand in the order of those first moves, so no two share
/// a label; and every move has its edge.
pub open spec fn is_edge_list(g: Graph, moves: Seq<Move>, edges: Seq<Edge>) -> bool {
    &&& forall|e: int|
        0 <= e < edges.len() ==> {
            &&& first_move(g, moves, (#[trigger] edges[e]).id, 0) matches Some(t)
            &&& 0 <= t < moves.len()
            &&& edges[e] == drawn_edge(
                g,
                moves[t].from as int,
                moves[t].to as int,
                label_enabled(g, moves, edges[e].id),
            )
        }
    &&& forall|a: int, b: int|
        0 <= a < b < edges.len() ==> first_move(g, moves, (#[trigger] edges[a]).id, 0)->0
            < first_move(g, moves, (#[trigger] edges[b]).id, 0)->0
    &&& forall|t: int|
        0 <= t < moves.len() ==> exists|e: int|
            0 <= e < edges.len() && (#[trigger] edges[e]).id == move_label(g, #[trigger] moves[t])
}

/// Whether the biome with the identity `id` is the entry biome or one that
/// an enabled move leads to.
pub open spec fn is_reached(g: Graph, moves: Seq<Move>, id: Id) -> bool {
    ||| g.len() > 0 && id == g[0].id
    ||| exists|t: int|
        0 <= t < moves.len() && (#[trigger] moves[t]).enabled && g[moves[t].to as int].id == id
}

/// What `position_of` finds is the first edge with the label, and where it
/// finds none there is none.
pub proof fn lemma_position_of(edges: Seq<Edge>, id: Seq<char>, from: int)
    requires
        0 <= from,
    ensures
        match position_of(edges, id, from) {
            Some(e) => {
                &&& from <= e < edges.len()
                &&& edges[e].id == id
                &&& forall|j: int| from <= j < e ==> (#[trigger] edges[j]).id != id
            },
            None => forall|j: int| from <= j < edges.len() ==> (#[trigger] edges[j]).id != id,
        },
    decreases edges.len() - from,
{
    if from < edges.len() && edges[from].id != id {
        lemma_position_of(edges, id, from + 1);
    }
}

/// What `first_move` finds is the first move with the label, and where it
/// finds none there is none.
pub proof fn lemma_first_move(g: Graph, moves: Seq<Move>, label: Seq<char>, from: int)
    requires
        0 <= from,
    ensures
        match first_move(g, moves, label, from) {
            Some(t) => {
                &&& from <= t < moves.len()
                &&& move_label(g, moves[t]) == label
                &&& forall|u: int| from <= u < t ==> move_label(g, #[trigger] moves[u]) != label
            },
            None => forall|u: int|
                from <= u < moves.len() ==> move_label(g, #[trigger] moves[u]) != label,
        },
    decreases moves.len() - from,
{
    if from < moves.len() && move_label(g, moves[from]) != label {
        lemma_first_move(g, moves, label, from + 1);
    }
}

/// The first move with a label after one more move: the one before, or the
/// new move where none had the label.
pub proof fn lemma_first_move_push(g: Graph, moves: Seq<Move>, m: Move, label: Seq<char>)
    ensures
        first_move(g, moves.push(m), label, 0) == match first_move(g, moves, label, 0) {
            Some(t) => Some(t),
            None => if move_label(g, m) == label {
                Some(moves.len() as int)
            } else {
                None
            },
        },
{
    let longer = moves.push(m);
    lemma_first_move(g, moves, label, 0);
    lemma_first_move(g, longer, label, 0);
    match first_move(g, moves, label, 0) {
        Some(t) => {
            assert(longer[t] == moves[t]);
            match first_move(g, longer, label, 0) {
                Some(u) => {
                    if u < t {
                        assert(longer[u] == moves[u]);
                    }
                },
                None => {},
            }
        },
        None => {
            match first_move(g, longer, label, 0) {
                Some(u) => {
                    if u < moves.len() {
                        assert(longer[u] == moves[u]);
                    }
                },
                None => {
                    assert(longer[moves.len() as int] == m);
                },
            }
        },
    }
}

/// A label is enabled after one more move if it was before, or if the new
/// move is enabled and has the label.
pub proof fn lemma_label_enabled_push(g: Graph, moves: Seq<Move>, m: Move, label: Seq<char>)
    ensures
        label_enabled(g, moves.push(m), label) == (label_enabled(g, moves, label) || (move_label(
            g,
            m,
        ) == label && m.enabled)),
{
    let longer = moves.push(m);
    if label_enabled(g, moves, label) {
        let t = choose|t: int|
            0 <= t < moves.len() && move_label(g, #[trigger] moves[t]) == label && moves[t].enabled;
        assert(longer[t] == moves[t]);
    }
    if move_label(g, m) == label && m.enabled {
        assert(longer[moves.len() as int] == m);
    }
    if label_enabled(g, longer, label) {
        let t = choose|t: int|
            0 <= t < longer.len() && move_label(g, #[trigger] longer[t]) == label
                && longer[t].enabled;
        if t < moves.len() {
            assert(longer[t] == moves[t]);
        }
    }
}

/// The edges of a list of edges have labels of their own: no two share one.
pub proof fn lemma_edge_labels_differ(g: Graph, moves: Seq<Move>, edges: Seq<Edge>)
    requires
        is_edge_list(g, moves, edges),
    ensures
        forall|a: int, b: int|
            0 <= a < edges.len() && 0 <= b < edges.len() && a != b ==> (#[trigger] edges[a]).id
                != (#[trigger] edges[b]).id,
{
    assert forall|a: int, b: int|
        0 <= a < edges.len() && 0 <= b < edges.len() && a != b implies (#[trigger] edges[a]).id
        != (#[trigger] edges[b]).id by {
        if a < b {
            assert(first_move(g, moves, edges[a].id, 0)->0 < first_move(g, moves, edges[b].id, 0)->0);
        } else {
            assert(first_move(g, moves, edges[b].id, 0)->0 < first_move(g, moves, edges[a].id, 0)->0);
        }
    }
}

/// Taking one more move into the edges of `moves` gives the edges of the
/// moves with that move at their end.
pub proof fn lemma_merge_keeps_edge_list(g: Graph, moves: Seq<Move>, edges: Seq<Edge>, m: Move)
    requires
        is_edge_list(g, moves, edges),
    ensures
        is_edge_list(g, moves.push(m), merge_move(g, edges, m)),
{
    let longer = moves.push(m);
    let merged = merge_move(g, edges, m);
    let label = move_label(g, m);
    lemma_position_of(edges, label, 0);
    lemma_edge_labels_differ(g, moves, edges);
    lemma_first_move(g, moves, label, 0);
    assert(longer[moves.len() as int] == m);
    assert forall|t: int| 0 <= t < moves.len() implies longer[t] == moves[t] by {}
    match position_of(edges, label, 0) {
        Some(at) => {
            assert(first_move(g, moves, label, 0) is Some);
            assert forall|e: int| 0 <= e < merged.len() implies {
                &&& first_move(g, longer, (#[trigger] merged[e]).id, 0) matches Some(t)
                &&& 0 <= t < longer.len()
                &&& merged[e] == drawn_edge(
                    g,
                    longer[t].from as int,
                    longer[t].to as int,
                    label_enabled(g, longer, merged[e].id),
                )
            } by {
                assert(merged[e].id == edges[e].id);
                lemma_first_move_push(g, moves, m, edges[e].id);
                lemma_label_enabled_push(g, moves, m, edges[e].id);
                let t = first_move(g, moves, edges[e].id, 0)->0;
                assert(longer[t] == moves[t]);
                if e != at {
                    assert(edges[e].id != edges[at].id);
                }
            }
            assert forall|a: int, b: int| 0 <= a < b < merged.len() implies first_move(
                g,
                longer,
                (#[trigger] merged[a]).id,
                0,
            )->0 < first_move(g, longer, (#[trigger] merged[b]).id, 0)->0 by {
                assert(merged[a].id == edges[a].id);
                assert(merged[b].id == edges[b].id);
                lemma_first_move_push(g, moves, m, edges[a].id);
                lemma_first_move_push(g, moves, m, edges[b].id);
            }
            assert forall|t: int| 0 <= t < longer.len() implies exists|e: int|
                0 <= e < merged.len() && (#[trigger] merged[e]).id == move_label(
                    g,
                    #[trigger] longer[t],
                ) by {
                if t < moves.len() {
                    let e = choose|e: int|
                        0 <= e < edges.len() && (#[trigger] edges[e]).id == move_label(g, moves[t]);
                    assert(merged[e].id == edges[e].id);
                } else {
                    assert(merged[at].id == label);
                }
            }
        },
        None => {
            assert(first_move(g, moves, label, 0) is None) by {
                if first_move(g, moves, label, 0) is Some {
                    let t = first_move(g, moves, label, 0)->0;
                    let e = choose|e: int|
                        0 <= e < edges.len() && (#[trigger] edges[e]).id == move_label(g, moves[t]);
                    assert(edges[e].id == label);
                }
            }
            assert(!label_enabled(g, moves, label));
            assert forall|e: int| 0 <= e < merged.len() implies {
                &&& first_move(g, longer, (#[trigger] merged[e]).id, 0) matches Some(t)
                &&& 0 <= t < longer.len()
                &&& merged[e] == drawn_edge(
                    g,
                    longer[t].from as int,
                    longer[t].to as int,
                    label_enabled(g, longer, merged[e].id),
                )
            } by {
                lemma_first_move_push(g, moves, m, merged[e].id);
                lemma_label_enabled_push(g, moves, m, merged[e].id);
                if e < edges.len() {
                    assert(merged[e] == edges[e]);
                    let t = first_move(g, moves, edges[e].id, 0)->0;
                    assert(longer[t] == moves[t]);
                    assert(edges[e].id != label);
                } else {
                    assert(merged[e].id == label);
                }
            }
            assert forall|a: int, b: int| 0 <= a < b < merged.len() implies first_move(
                g,
                longer,
                (#[trigger] merged[a]).id,
                0,
            )->0 < first_move(g, longer, (#[trigger] merged[b]).id, 0)->0 by {
                lemma_first_move_push(g, moves, m, merged[a].id);
                lemma_first_move_push(g, moves, m, merged[b].id);
                assert(merged[a] == edges[a]);
                if b < edges.len() {
                    assert(merged[b] == edges[b]);
                } else {
                    assert(merged[b].id == label);
                }
            }
            assert forall|t: int| 0 <= t < longer.len() implies exists|e: int|
                0 <= e < merged.len() && (#[trigger] merged[e]).id == move_label(
                    g,
                    #[trigger] longer[t],
                ) by {
                if t < moves.len() {
                    let e = choose|e: int|
                        0 <= e < edges.len() && (#[trigger] edges[e]).id == move_label(g, moves[t]);
                    assert(merged[e] == edges[e]);
                } else {
                    assert(merged[edges.len() as int].id == label);
                }
            }
        },
    }
}

/// The edges that moves reduce to are the edges of those moves.
pub proof fn lemma_reduce_is_edge_list(g: Graph, moves: Seq<Move>)
    ensures
        is_edge_list(g, moves, reduce_moves(g, moves)),
    decreases moves.len(),
{
    if moves.len() > 0 {
        lemma_reduce_is_edge_list(g, moves.drop_last());
        lemma_merge_keeps_edge_list(
            g,
            moves.drop_last(),
            reduce_moves(g, moves.drop_last()),
            moves.last(),
        );
        assert(moves.drop_last().push(moves.last()) == moves);
    }
}

/// The reachable biomes of moves hold no identity twice, and hold exactly
/// the entry biome and the biomes that enabled moves lead to.
pub proof fn lemma_reach_is_reached(g: Graph, moves: Seq<Move>)
    ensures
        reach_moves(g, moves).no_duplicates(),
        forall|id: Id| reach_moves(g, moves).contains(id) <==> is_reached(g, moves, id),
    decreases moves.len(),
{
    let reached = reach_moves(g, moves);
    if moves.len() == 0 {
        if g.len() > 0 {
            assert(reached[0] == g[0].id);
        }
    } else {
        let before = moves.drop_last();
        let m = moves.last();
        let earlier = reach_moves(g, before);
        lemma_reach_is_reached(g, before);
        assert(reached == reach_move(g, earlier, m));
        assert forall|t: int| 0 <= t < before.len() implies before[t] == moves[t] by {}
        assert forall|id: Id| reached.contains(id) <==> is_reached(g, moves, id) by {
            if reached.contains(id) {
                let at = choose|at: int| 0 <= at < reached.len() && reached[at] == id;
                if at < earlier.len() {
                    assert(earlier[at] == id);
                    assert(earlier.contains(id));
                    assert(is_reached(g, before, id));
                    if !(g.len() > 0 && id == g[0].id) {
                        let t = choose|t: int|
                            0 <= t < before.len() && (#[trigger] before[t]).enabled
                                && g[before[t].to as int].id == id;
                        assert(moves[t] == before[t]);
                    }
                } else {
                    assert(moves[moves.len() - 1] == m);
                }
            }
            if is_reached(g, moves, id) {
                if g.len() > 0 && id == g[0].id {
                    assert(is_reached(g, before, id));
                    let at = choose|at: int| 0 <= at < earlier.len() && earlier[at] == id;
                    assert(reached[at] == id);
                } else {
                    let t = choose|t: int|
                        0 <= t < moves.len() && (#[trigger] moves[t]).enabled
                            && g[moves[t].to as int].id == id;
                    if t < before.len() {
                        assert(before[t] == moves[t]);
                        assert(is_reached(g, before, id));
                        let at = choose|at: int| 0 <= at < earlier.len() && earlier[at] == id;
                        assert(reached[at] == id);
                    } else {
                        if earlier.contains(id) {
                            let at = choose|at: int| 0 <= at < earlier.len() && earlier[at] == id;
                            assert(reached[at] == id);
                        } else {
                            assert(reached[earlier.len() as int] == id);
                        }
                    }
                }
            }
        }
    }
}

/// One more move leaves every edge in its place, drawn as before, and
/// leaves an enabled edge enabled.
pub proof fn lemma_merge_keeps_enabled(g: Graph, edges: Seq<Edge>, m: Move)
    ensures
        merge_move(g, edges, m).len() >= edges.len(),
        forall|e: int|
            0 <= e < edges.len() ==> {
                let after = #[trigger] merge_move(g, edges, m)[e];
                &&& after == Edge { enabled: after.enabled, ..edges[e] }
                &&& edges[e].enabled ==> after.enabled
            },
{
    lemma_position_of(edges, move_label(g, m), 0);
}

/// More moves leave every edge in its place, drawn as before, and never
/// turn an enabled edge back to disabled.
pub proof fn lemma_enabled_stays(g: Graph, moves: Seq<Move>, more: Seq<Move>)
    ensures
        reduce_moves(g, moves + more).len() >= reduce_moves(g, moves).len(),
        forall|e: int|
            0 <= e < reduce_moves(g, moves).len() ==> {
                let before = reduce_moves(g, moves)[e];
                let after = #[trigger] reduce_moves(g, moves + more)[e];
                &&& after == Edge { enabled: after.enabled, ..before }
                &&& before.enabled ==> after.enabled
            },
    decreases more.len(),
{
    if more.len() == 0 {
        assert(moves + more == moves);
    } else {
        let all = moves + more;
        assert(all.drop_last() == moves + more.drop_last());
        assert(all.last() == more.last());
        lemma_enabled_stays(g, moves, more.drop_last());
        lemma_merge_keeps_enabled(g, reduce_moves(g, all.drop_last()), all.last());
        assert forall|e: int| 0 <= e < reduce_moves(g, moves).len() implies {
            let before = reduce_moves(g, moves)[e];
            let after = #[trigger] reduce_moves(g, moves + more)[e];
            &&& after == Edge { enabled: after.enabled, ..before }
            &&& before.enabled ==> after.enabled
        } by {
            let middle = reduce_moves(g, moves + more.drop_last())[e];
            let after = merge_move(g, reduce_moves(g, all.drop_last()), all.last())[e];
            assert(after == Edge { enabled: after.enabled, ..middle });
        }
    }
}

/// The lower-case names are written in letters only, and no two identities
/// share one.
pub proof fn lemma_keys(a: Id, b: Id)
    ensures
        a.key().len() > 0,
        forall|k: int| 0 <= k < a.key().len() ==> a.key()[k] != '-',
        a.key() == b.key() ==> a == b,
{
    reveal_strlit("prisonquart");
    reveal_strlit("arboretum");
    reveal_strlit("promenade");
    reveal_strlit("toxicsewers");
    reveal_strlit("prisondepths");
    reveal_strlit("corruptedprison");
    reveal_strlit("morass");
    reveal_strlit("ossuary");
    reveal_strlit("ramparts");
    reveal_strlit("ancientsewers");
    reveal_strlit("nest");
    reveal_strlit("bridge");
    reveal_strlit("crypt");
    reveal_strlit("stilt");
    reveal_strlit("slumbering");
    reveal_strlit("graveyard");
    reveal_strlit("clocktower");
    reveal_strlit("sepulcher");
    reveal_strlit("cavern");
    reveal_strlit("clockroom");
    reveal_strlit("haven");
    reveal_strlit("castle");
    reveal_strlit("throne");
    reveal_strlit("lab");
    reveal_strlit("observatory");
    if a.key() == b.key() {
        assert(a.key().len() == b.key().len());
        assert(a.key()[0] == b.key()[0]);
        assert(a.key()[1] == b.key()[1]);
        assert(a.key()[2] == b.key()[2]);
    }
}

/// An edge label names one pair of biomes: two pairs with the same label are
/// the same pair.
pub proof fn lemma_edge_label_names_one_pair(from: Id, to: Id, other_from: Id, other_to: Id)
    requires
        edge_label(from, to) == edge_label(other_from, other_to),
    ensures
        from == other_from,
        to == other_to,
{
    reveal_strlit("-");
    lemma_keys(from, other_from);
    lemma_keys(other_from, from);
    lemma_keys(to, other_to);
    let dash = "-"@;
    let left = edge_label(from, to);
    let right = edge_label(other_from, other_to);
    let a = from.key();
    let b = other_from.key();
    assert(dash.len() == 1 && dash[0] == '-');
    assert(left[a.len() as int] == '-');
    assert(right[b.len() as int] == '-');
    if a.len() < b.len() {
        assert(right[a.len() as int] == b[a.len() as int]);
    } else if b.len() < a.len() {
        assert(left[b.len() as int] == a[b.len() as int]);
    }
    assert(a =~= b) by {
        assert forall|k: int| 0 <= k < a.len() implies a[k] == b[k] by {
            assert(left[k] == a[k]);
            assert(right[k] == b[k]);
        }
    }
    assert(to.key() =~= other_to.key()) by {
        assert(left.len() == right.len());
        assert forall|k: int| 0 <= k < to.key().len() implies to.key()[k] == other_to.key()[k] by {
            assert(left[a.len() + 1 + k] == to.key()[k]);
            assert(right[b.len() + 1 + k] == other_to.key()[k]);
        }
    }
}

} // verus!
