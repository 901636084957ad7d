//! The scroll score of a route, and the route with the best score.

use crate::filter::routes_in_graph;
use crate::model::{Biome, BossCells, Graph, RouteError};
use crate::routes::{in_graph, Route, ToggleablePath};
use vstd::prelude::*;

verus! {

/// What the biomes of `path` hold together at the boss-cell level `level`:
/// power scrolls, dual scrolls, scroll fragments, and the sum of the chances,
/// in percent, of a cursed chest.
pub open spec fn collectibles(g: Graph, path: Seq<usize>, level: int) -> (nat, nat, nat, nat)
    decreases path.len(),
{
    if path.len() == 0 {
        (0, 0, 0, 0)
    } else {
        let before = collectibles(g, path.drop_last(), level);
        let node = g[path.last() as int];
        (
            before.0 + node.power_scrolls as nat,
            before.1 + node.dual_power_scrolls as nat,
            before.2 + node.scroll_fragments.fragments_at(level) as nat,
            before.3 + node.cursed_chest_chance as nat,
        )
    }
}

/// The scrolls that cursed chests are counted as: the sum of their chances
/// in percent, divided by 100 and rounded to the nearest whole, halves up.
pub open spec fn chest_scrolls(probability: nat) -> nat {
    (probability + 50) / 100
}

/// The score of a route: its power scrolls, its dual scrolls where they
/// count, a scroll for every four fragments, and the scrolls its cursed
/// chests are counted as.
pub open spec fn route_score(g: Graph, path: Seq<usize>, level: int, include_dual_scrolls: bool) -> nat {
    let held = collectibles(g, path, level);
    held.0 + if include_dual_scrolls {
        held.1
    } else {
        0
    } + held.2 / 4 + chest_scrolls(held.3)
}

/// Whether the route at `best` has the highest score, and the routes before
/// it all have a lower one.
pub open spec fn is_best(
    g: Graph,
    routes: Seq<Route>,
    level: int,
    include_dual_scrolls: bool,
    best: int,
) -> bool {
    &&& 0 <= best < routes.len()
    &&& forall|j: int|
        0 <= j < routes.len() ==> route_score(
            g,
            (#[trigger] routes[j]).path,
            level,
            include_dual_scrolls,
        ) <= route_score(g, routes[best].path, level, include_dual_scrolls)
    &&& forall|j: int|
        0 <= j < best ==> route_score(g, (#[trigger] routes[j]).path, level, include_dual_scrolls)
            < route_score(g, routes[best].path, level, include_dual_scrolls)
}

/// No biome holds more than 255 of anything, so a path holds at most 255
/// times its length.
pub proof fn lemma_collectibles_bounded(g: Graph, path: Seq<usize>, level: int)
    ensures
        collectibles(g, path, level).0 <= 255 * path.len(),
        collectibles(g, path, level).1 <= 255 * path.len(),
        collectibles(g, path, level).2 <= 255 * path.len(),
        collectibles(g, path, level).3 <= 255 * path.len(),
    decreases path.len(),
{
    if path.len() > 0 {
        lemma_collectibles_bounded(g, path.drop_last(), level);
    }
}

/// The collectibles along `path`: power scrolls, dual scrolls, scroll
/// fragments at the level `boss_cells`, and the summed chances of a cursed chest.
pub fn sum_collectibles_for_path(biomes: &Vec<Biome>, path: &Vec<usize>, boss_cells: &BossCells) -> (held:
    (u128, u128, u128, u128))
    requires
        in_graph(biomes.deep_view(), path@),
    ensures
        held.0 == collectibles(biomes.deep_view(), path@, boss_cells.level() as int).0,
        held.1 == collectibles(biomes.deep_view(), path@, boss_cells.level() as int).1,
        held.2 == collectibles(biomes.deep_view(), path@, boss_cells.level() as int).2,
        held.3 == collectibles(biomes.deep_view(), path@, boss_cells.level() as int).3,
{
    let ghost g = biomes.deep_view();
    let ghost level = boss_cells.level() as int;
    let cells: u8 = boss_cells.as_level();
    let mut power_scrolls: u128 = 0;
    let mut dual_scrolls: u128 = 0;
    let mut fragments: u128 = 0;
    let mut cursed_chest_probabilities: u128 = 0;
    let mut k: usize = 0;
    while k < path.len()
        invariant
            k <= path.len(),
            g == biomes.deep_view(),
            in_graph(g, path@),
            level == boss_cells.level() as int,
            cells == boss_cells.level(),
            cells <= 5,
            power_scrolls == collectibles(g, path@.take(k as int), level).0,
            dual_scrolls == collectibles(g, path@.take(k as int), level).1,
            fragments == collectibles(g, path@.take(k as int), level).2,
            cursed_chest_probabilities == collectibles(g, path@.take(k as int), level).3,
        decreases path.len() - k,
    {
        proof {
            lemma_collectibles_bounded(g, path@.take(k as int), level);
            assert(path@.take(k + 1).drop_last() == path@.take(k as int));
            assert(path@.take(k + 1).last() == path@[k as int]);
            assert(g[path@[k as int] as int] == biomes@[path@[k as int] as int]@);
        }
        let biome = &biomes[path[k]];
        power_scrolls = power_scrolls + biome.power_scrolls as u128;
        dual_scrolls = dual_scrolls + biome.dual_power_scrolls as u128;
        fragments = fragments + biome.scroll_fragments.get_fragments(cells) as u128;
        cursed_chest_probabilities = cursed_chest_probabilities + biome.cursed_chest_chance as u128;
        k += 1;
    }
    assert(path@.take(k as int) == path@);
    (power_scrolls, dual_scrolls, fragments, cursed_chest_probabilities)
}

/// The scrolls that a sum of cursed-chest chances, in percent, is counted as.
pub fn calculate_scrolls_from_cursed_chests(probability: u128) -> (scrolls: u128)
    ensures
        scrolls == chest_scrolls(probability as nat),
{
    if probability % 100 >= 50 {
        probability / 100 + 1
    } else {
        probability / 100
    }
}

/// Turns every four fragments into a power scroll and keeps the fragments
/// left over.
pub fn calculate_collectibles_from_fragments(held: (u128, u128, u128, u128)) -> (changed: (
    u128,
    u128,
    u128,
    u128,
))
    requires
        held.0 + held.2 / 4 <= u128::MAX,
    ensures
        changed == (((held.0 + held.2 / 4) as u128, held.1, held.2 % 4, held.3)),
{
    let new_scrolls: u128 = held.2 / 4;
    let leftover_fragments: u128 = held.2 % 4;
    (held.0 + new_scrolls, held.1, leftover_fragments, held.3)
}

/// Turns every full hundred percent of cursed-chest chance into a power
/// scroll and keeps the chance left over.
pub fn calculate_collectibles_from_cursed_chests(held: (u128, u128, u128, u128)) -> (changed: (
    u128,
    u128,
    u128,
    u128,
))
    requires
        held.0 + held.3 / 100 <= u128::MAX,
    ensures
        changed == (((held.0 + held.3 / 100) as u128, held.1, held.2, held.3 % 100)),
{
    let new_scrolls: u128 = held.3 / 100;
    let leftover_chest_probability: u128 = held.3 % 100;
    (held.0 + new_scrolls, held.1, held.2, leftover_chest_probability)
}

/// The score of the route along `path` at the level `boss_cells`.
pub fn calculate_scrolls(
    biomes: &Vec<Biome>,
    path: &Vec<usize>,
    boss_cells: &BossCells,
    include_dual_scrolls: bool,
) -> (score: u128)
    requires
        in_graph(biomes.deep_view(), path@),
    ensures
        score == route_score(
            biomes.deep_view(),
            path@,
            boss_cells.level() as int,
            include_dual_scrolls,
        ),
{
    proof {
        lemma_collectibles_bounded(biomes.deep_view(), path@, boss_cells.level() as int);
    }
    let (power_scrolls, dual_scrolls, fragments, cursed_chest_probabilities) =
        sum_collectibles_for_path(biomes, path, boss_cells);
    let scrolls_from_cursed_chests: u128 = calculate_scrolls_from_cursed_chests(
        cursed_chest_probabilities,
    );
    assert(path@.len() == path.len());
    if include_dual_scrolls {
        power_scrolls + dual_scrolls + fragments / 4 + scrolls_from_cursed_chests
    } else {
        power_scrolls + fragments / 4 + scrolls_from_cursed_chests
    }
}

/// The route with the highest score, and its score. Among routes with the
/// same score the first one wins. Without routes there is no best one:
/// `EmptyInput`.
pub fn get_path_with_most_scrolls<'b>(
    biomes: &Vec<Biome>,
    paths: &'b Vec<ToggleablePath>,
    boss_cells: BossCells,
    include_dual_scrolls: bool,
) -> (best: Result<(u128, &'b ToggleablePath), RouteError>)
    requires
        routes_in_graph(biomes.deep_view(), paths.deep_view()),
    ensures
        paths.len() == 0 <==> best is Err,
        best is Err ==> best->Err_0 == RouteError::EmptyInput,
        best is Ok ==> exists|i: int|
            {
                &&& #[trigger] is_best(
                    biomes.deep_view(),
                    paths.deep_view(),
                    boss_cells.level() as int,
                    include_dual_scrolls,
                    i,
                )
                &&& *(best->Ok_0.1) == paths@[i]
                &&& best->Ok_0.0 == route_score(
                    biomes.deep_view(),
                    paths@[i].path@,
                    boss_cells.level() as int,
                    include_dual_scrolls,
                )
            },
{
    if paths.len() == 0 {
        return Err(RouteError::EmptyInput);
    }
    let ghost g = biomes.deep_view();
    let ghost routes = paths.deep_view();
    let ghost level = boss_cells.level() as int;
    assert(routes[0] == paths@[0]@);
    let mut best: usize = 0;
    let mut best_scrolls: u128 = calculate_scrolls(
        biomes,
        &paths[0].path,
        &boss_cells,
        include_dual_scrolls,
    );
    let mut i: usize = 1;
    while i < paths.len()
        invariant
            1 <= i <= paths.len(),
            g == biomes.deep_view(),
            routes == paths.deep_view(),
            level == boss_cells.level() as int,
            routes_in_graph(g, routes),
            best < i,
            best_scrolls == route_score(g, routes[best as int].path, level, include_dual_scrolls),
            forall|j: int|
                0 <= j < i ==> route_score(g, (#[trigger] routes[j]).path, level, include_dual_scrolls)
                    <= best_scrolls,
            forall|j: int|
                0 <= j < best ==> route_score(
                    g,
                    (#[trigger] routes[j]).path,
                    level,
                    include_dual_scrolls,
                ) < best_scrolls,
        decreases paths.len() - i,
    {
        assert(routes[i as int] == paths@[i as int]@);
        let scrolls: u128 = calculate_scrolls(biomes, &paths[i].path, &boss_cells, include_dual_scrolls);
        if scrolls > best_scrolls {
            best = i;
            best_scrolls = scrolls;
        }
        i += 1;
    }
    proof {
        assert(routes[best as int] == paths@[best as int]@);
        assert(is_best(g, routes, level, include_dual_scrolls, best as int));
    }
    Ok((best_scrolls, &paths[best]))
}

/// The best route is one route: two routes that are both best are the same.
pub proof fn lemma_best_is_unique(
    g: Graph,
    routes: Seq<Route>,
    level: int,
    include_dual_scrolls: bool,
    a: int,
    b: int,
)
    requires
        is_best(g, routes, level, include_dual_scrolls, a),
        is_best(g, routes, level, include_dual_scrolls, b),
    ensures
        a == b,
{
    if a < b {
        assert(route_score(g, routes[a].path, level, include_dual_scrolls) < route_score(
            g,
            routes[b].path,
            level,
            include_dual_scrolls,
        ));
    } else if b < a {
        assert(route_score(g, routes[b].path, level, include_dual_scrolls) < route_score(
            g,
            routes[a].path,
            level,
            include_dual_scrolls,
        ));
    }
}

/// Scoring is repeatable: two scores of the same route at the same level,
/// with dual scrolls counted or not in both, are the same score.
pub proof fn lemma_score_repeats(
    g: Graph,
    path: Seq<usize>,
    level: int,
    include_dual_scrolls: bool,
    first: u128,
    second: u128,
)
    requires
        first == route_score(g, path, level, include_dual_scrolls),
        second == route_score(g, path, level, include_dual_scrolls),
    ensures
        first == second,
{
}

} // verus!
