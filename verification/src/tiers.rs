//! Biomes by row: the grouping that a renderer draws, with each biome marked
//! as reachable or not.

use crate::filter::contains_id;
use crate::model::{Biome, Graph, Id, Node, RouteError};
use vstd::prelude::*;

verus! {

/// The number of rows the layout has. Rows are counted from 1.
pub const TIER_COUNT: usize = 14;

/// The biomes of the graph that lie in `row`, in graph order.
pub open spec fn in_row(g: Graph, row: int) -> Seq<Node>
    decreases g.len(),
{
    if g.len() == 0 {
        Seq::empty()
    } else if g.last().row == row {
        in_row(g.drop_last(), row).push(g.last())
    } else {
        in_row(g.drop_last(), row)
    }
}

/// Whether every biome lies in a row that the layout has.
pub open spec fn rows_fit(g: Graph) -> bool {
    forall|i: int| 0 <= i < g.len() ==> 1 <= (#[trigger] g[i]).row <= TIER_COUNT
}

/// Whether `tiers` are the rows of the graph that hold a biome, from the
/// first row down, each with its biomes in graph order.
pub open spec fn is_tiering(g: Graph, tiers: Seq<Seq<Node>>) -> bool {
    &&& forall|k: int|
        0 <= k < tiers.len() ==> (#[trigger] tiers[k]).len() > 0 && tiers[k] == in_row(
            g,
            tiers[k][0].row as int,
        )
    &&& forall|k: int, l: int|
        0 <= k < l < tiers.len() ==> (#[trigger] tiers[k])[0].row < (#[trigger] tiers[l])[0].row
    &&& forall|i: int|
        0 <= i < g.len() ==> exists|k: int|
            0 <= k < tiers.len() && (#[trigger] tiers[k])[0].row == (#[trigger] g[i]).row
}

/// The graph with each biome marked as enabled exactly when its identity is
/// in `whitelist`.
pub open spec fn mark_reachable(g: Graph, whitelist: Seq<Id>) -> Graph {
    Seq::new(g.len(), |i: int| (Node { enabled: whitelist.contains(g[i].id), ..g[i] }))
}

/// Every biome in `in_row(g, row)` lies in `row`.
pub proof fn lemma_in_row_rows(g: Graph, row: int)
    ensures
        forall|k: int| 0 <= k < in_row(g, row).len() ==> (#[trigger] in_row(g, row)[k]).row == row,
        in_row(g, row).len() > 0 <==> exists|i: int| 0 <= i < g.len() && (#[trigger] g[i]).row == row,
    decreases g.len(),
{
    if g.len() > 0 {
        let before = g.drop_last();
        lemma_in_row_rows(before, row);
        if in_row(before, row).len() > 0 {
            let i = choose|i: int| 0 <= i < before.len() && (#[trigger] before[i]).row == row;
            assert(g[i] == before[i]);
        }
        if exists|i: int| 0 <= i < g.len() && (#[trigger] g[i]).row == row {
            let i = choose|i: int| 0 <= i < g.len() && (#[trigger] g[i]).row == row;
            if i < before.len() {
                assert(before[i] == g[i]);
            }
        }
    }
}

/// Marks each biome as enabled exactly when its identity is in `whitelist`.
pub fn filter_reachable_biomes(biomes: Vec<Biome>, whitelist: &Vec<Id>) -> (marked: Vec<Biome>)
    ensures
        marked.deep_view() == mark_reachable(biomes.deep_view(), whitelist@),
{
    let ghost g = biomes.deep_view();
    let mut marked = biomes;
    let mut i: usize = 0;
    while i < marked.len()
        invariant
            i <= marked.len(),
            marked.len() == g.len(),
            forall|a: int|
                0 <= a < i ==> (#[trigger] marked@[a])@ == (Node {
                    enabled: whitelist@.contains(g[a].id),
                    ..g[a]
                }),
            forall|a: int| i <= a < marked.len() ==> (#[trigger] marked@[a])@ == g[a],
        decreases marked.len() - i,
    {
        let reachable = contains_id(whitelist, &marked[i].id);
        marked[i].enabled = reachable;
        i += 1;
    }
    assert(marked.deep_view() =~= mark_reachable(g, whitelist@));
    marked
}

/// Groups the biomes by row. The rows that hold a biome come out from the
/// first row down, each with its biomes in the order they were given.
///
/// A biome in a row that the layout does not have makes the graph malformed.
pub fn order_biomes_by_tier(biomes: Vec<Biome>) -> (tiers: Result<Vec<Vec<Biome>>, RouteError>)
    ensures
        tiers is Ok <==> rows_fit(biomes.deep_view()),
        tiers is Err ==> tiers->Err_0 == RouteError::MalformedGraph,
        tiers is Ok ==> is_tiering(biomes.deep_view(), tiers->Ok_0.deep_view()),
{
    let ghost g = biomes.deep_view();
    let mut i: usize = 0;
    while i < biomes.len()
        invariant
            i <= biomes.len(),
            g == biomes.deep_view(),
            forall|a: int| 0 <= a < i ==> 1 <= (#[trigger] g[a]).row <= TIER_COUNT,
        decreases biomes.len() - i,
    {
        assert(g[i as int] == biomes@[i as int]@);
        if biomes[i].row < 1 || biomes[i].row > TIER_COUNT {
            return Err(RouteError::MalformedGraph);
        }
        i += 1;
    }
    let mut init: Vec<Vec<Biome>> = Vec::new();
    let mut t: usize = 0;
    while t < TIER_COUNT
        invariant
            t <= TIER_COUNT,
            init.len() == t,
            forall|a: int| 0 <= a < t ==> (#[trigger] init@[a])@.len() == 0,
        decreases TIER_COUNT - t,
    {
        init.push(Vec::new());
        t += 1;
    }
    assert forall|a: int| 0 <= a < TIER_COUNT implies (#[trigger] init@[a]).deep_view() == in_row(
        g.take(0),
        a + 1,
    ) by {
        assert(init@[a].deep_view() =~= Seq::<Node>::empty());
    }
    let mut biomes = biomes;
    let mut done: usize = 0;
    while biomes.len() > 0
        invariant
            rows_fit(g),
            init.len() == TIER_COUNT,
            g.len() <= usize::MAX,
            done + biomes.len() == g.len(),
            biomes.deep_view() == g.skip(done as int),
            forall|a: int|
                0 <= a < TIER_COUNT ==> (#[trigger] init@[a]).deep_view() == in_row(
                    g.take(done as int),
                    a + 1,
                ),
        decreases biomes.len(),
    {
        let ghost left = biomes.deep_view();
        let ghost waiting = biomes@;
        let ghost rows = init@;
        let biome = biomes.remove(0);
        proof {
            assert(biome@ == left[0]);
            assert(left[0] == g[done as int]);
            assert forall|a: int| 0 <= a < biomes.len() implies (#[trigger] biomes.deep_view()[a])
                == g.skip(done + 1)[a] by {
                assert(biomes@[a] == waiting[a + 1]);
                assert(left[a + 1] == waiting[a + 1]@);
            }
            assert(biomes.deep_view() =~= g.skip(done + 1));
            assert(g.take(done + 1).drop_last() == g.take(done as int));
            assert(g.take(done + 1).last() == g[done as int]);
        }
        let tier: usize = biome.row;
        init[tier - 1].push(biome);
        proof {
            assert forall|a: int| 0 <= a < TIER_COUNT implies (#[trigger] init@[a]).deep_view()
                == in_row(g.take(done + 1), a + 1) by {
                if a == tier - 1 {
                    assert(init@[a].deep_view() =~= rows[a].deep_view().push(g[done as int]));
                } else {
                    assert(init@[a] == rows[a]);
                }
            }
        }
        done += 1;
    }
    assert(g.take(done as int) == g);
    let mut tiers: Vec<Vec<Biome>> = Vec::new();
    let mut row: usize = 0;
    while init.len() > 0
        invariant
            row + init.len() == TIER_COUNT,
            init@.len() == init.len(),
            forall|a: int|
                0 <= a < init.len() ==> (#[trigger] init@[a]).deep_view() == in_row(g, row + a + 1),
            forall|k: int|
                0 <= k < tiers.len() ==> {
                    &&& (#[trigger] tiers.deep_view()[k]).len() > 0
                    &&& tiers.deep_view()[k] == in_row(g, tiers.deep_view()[k][0].row as int)
                    &&& tiers.deep_view()[k][0].row <= row
                },
            forall|k: int, l: int|
                0 <= k < l < tiers.len() ==> (#[trigger] tiers.deep_view()[k])[0].row
                    < (#[trigger] tiers.deep_view()[l])[0].row,
            forall|i: int|
                0 <= i < g.len() && (#[trigger] g[i]).row <= row ==> exists|k: int|
                    0 <= k < tiers.len() && (#[trigger] tiers.deep_view()[k])[0].row == g[i].row,
        decreases init.len(),
    {
        let ghost kept = tiers.deep_view();
        let tier = init.remove(0);
        proof {
            lemma_in_row_rows(g, row + 1);
            assert(tier.deep_view() == in_row(g, row + 1));
        }
        if tier.len() > 0 {
            tiers.push(tier);
            proof {
                let now = tiers.deep_view();
                assert(now =~= kept.push(in_row(g, row + 1)));
                assert(now[kept.len() as int][0].row == row + 1);
                assert forall|i: int|
                    0 <= i < g.len() && (#[trigger] g[i]).row <= row + 1 implies exists|k: int|
                    0 <= k < now.len() && (#[trigger] now[k])[0].row == g[i].row by {
                    if g[i].row <= row {
                        let k = choose|k: int|
                            0 <= k < kept.len() && (#[trigger] kept[k])[0].row == g[i].row;
                        assert(now[k] == kept[k]);
                    } else {
                        assert(now[kept.len() as int][0].row == g[i].row);
                    }
                }
            }
        }
        row += 1;
    }
    Ok(tiers)
}

} // verus!
