//! The route filter: which routes a blacklist and a boss-cell budget let through.

use crate::model::{Biome, Graph, Id};
use crate::routes::{in_graph, Route, ToggleablePath};
use vstd::prelude::*;

verus! {

/// Whether every route of `routes` stays in the graph.
pub open spec fn routes_in_graph(g: Graph, routes: Seq<Route>) -> bool {
    forall|i: int| 0 <= i < routes.len() ==> in_graph(g, (#[trigger] routes[i]).path)
}

/// Whether `path` visits a biome whose identity is in `blacklist`.
pub open spec fn touches(g: Graph, path: Seq<usize>, blacklist: Seq<Id>) -> bool {
    exists|k: int| 0 <= k < path.len() && blacklist.contains(g[#[trigger] path[k] as int].id)
}

/// Whether the filter lets `route` through: it needs no more boss cells than
/// `boss_cells` and visits no blacklisted biome.
pub open spec fn passes(g: Graph, route: Route, blacklist: Seq<Id>, boss_cells: u8) -> bool {
    route.minimum_boss_cells <= boss_cells && !touches(g, route.path, blacklist)
}

/// The routes with `enabled` set to what the filter decides. No route is
/// removed, added or moved.
pub open spec fn filter_routes(
    g: Graph,
    routes: Seq<Route>,
    blacklist: Seq<Id>,
    boss_cells: u8,
) -> Seq<Route> {
    Seq::new(
        routes.len(),
        |i: int| (Route { enabled: passes(g, routes[i], blacklist, boss_cells), ..routes[i] }),
    )
}

/// Whether `id` is in `list`.
pub fn contains_id(list: &Vec<Id>, id: &Id) -> (found: bool)
    ensures
        found == list@.contains(*id),
{
    let mut k: usize = 0;
    while k < list.len()
        invariant
            k <= list.len(),
            forall|i: int| 0 <= i < k ==> list@[i] != *id,
        decreases list.len() - k,
    {
        if list[k] == *id {
            return true;
        }
        k += 1;
    }
    false
}

/// Whether every index of every route names a biome of `all_biomes`.
pub fn paths_in_graph(all_biomes: &Vec<Biome>, paths: &Vec<ToggleablePath>) -> (fit: bool)
    ensures
        fit == routes_in_graph(all_biomes.deep_view(), paths.deep_view()),
{
    let ghost g = all_biomes.deep_view();
    let ghost routes = paths.deep_view();
    let mut i: usize = 0;
    while i < paths.len()
        invariant
            i <= paths.len(),
            g == all_biomes.deep_view(),
            routes == paths.deep_view(),
            forall|a: int| 0 <= a < i ==> in_graph(g, (#[trigger] routes[a]).path),
        decreases paths.len() - i,
    {
        assert(routes[i as int] == paths@[i as int]@);
        let path = &paths[i].path;
        let mut k: usize = 0;
        while k < path.len()
            invariant
                k <= path.len(),
                i < routes.len(),
                g == all_biomes.deep_view(),
                routes == paths.deep_view(),
                path@ == routes[i as int].path,
                forall|b: int| 0 <= b < k ==> path@[b] < g.len(),
            decreases path.len() - k,
        {
            if path[k] >= all_biomes.len() {
                assert(!(routes[i as int].path[k as int] < g.len()));
                assert(!in_graph(g, routes[i as int].path));
                return false;
            }
            k += 1;
        }
        i += 1;
    }
    true
}

/// Whether one of the biomes on `path` is blacklisted.
fn path_touches(all_biomes: &Vec<Biome>, path: &Vec<usize>, blacklist: &Vec<Id>) -> (hit: bool)
    requires
        in_graph(all_biomes.deep_view(), path@),
    ensures
        hit == touches(all_biomes.deep_view(), path@, blacklist@),
{
    let ghost g = all_biomes.deep_view();
    let mut k: usize = 0;
    while k < path.len()
        invariant
            k <= path.len(),
            g == all_biomes.deep_view(),
            in_graph(g, path@),
            forall|b: int| 0 <= b < k ==> !blacklist@.contains(g[#[trigger] path@[b] as int].id),
        decreases path.len() - k,
    {
        assert(g[path@[k as int] as int] == all_biomes@[path@[k as int] as int]@);
        if contains_id(blacklist, &all_biomes[path[k]].id) {
            return true;
        }
        k += 1;
    }
    false
}

/// Marks each route as enabled or not: a route is enabled exactly when it
/// needs no more boss cells than `boss_cells` and visits no biome of
/// `blacklist`. Every route is kept, in its place; only `enabled` changes.
pub fn apply_blacklist_and_boss_cells(
    all_biomes: &Vec<Biome>,
    paths: &Vec<ToggleablePath>,
    blacklist: &Vec<Id>,
    boss_cells: u8,
) -> (filtered: Vec<ToggleablePath>)
    requires
        routes_in_graph(all_biomes.deep_view(), paths.deep_view()),
    ensures
        filtered.deep_view() == filter_routes(
            all_biomes.deep_view(),
            paths.deep_view(),
            blacklist@,
            boss_cells,
        ),
{
    let ghost g = all_biomes.deep_view();
    let ghost routes = paths.deep_view();
    let mut filtered: Vec<ToggleablePath> = Vec::new();
    let mut i: usize = 0;
    while i < paths.len()
        invariant
            i <= paths.len(),
            g == all_biomes.deep_view(),
            routes == paths.deep_view(),
            routes_in_graph(g, routes),
            filtered.len() == i,
            forall|a: int|
                0 <= a < i ==> (#[trigger] filtered@[a])@ == (Route {
                    enabled: passes(g, routes[a], blacklist@, boss_cells),
                    ..routes[a]
                }),
        decreases paths.len() - i,
    {
        assert(routes[i as int] == paths@[i as int]@);
        let mut path = paths[i].duplicate();
        let over_budget = path.minimum_boss_cells > boss_cells;
        path.enabled = !over_budget && !path_touches(all_biomes, &path.path, blacklist);
        filtered.push(path);
        i += 1;
    }
    assert(filtered.deep_view() =~= filter_routes(g, routes, blacklist@, boss_cells));
    filtered
}

/// The filter keeps every route: as many as it was given, each with its
/// biomes and its boss cells as before.
pub proof fn lemma_filter_keeps_routes(
    g: Graph,
    routes: Seq<Route>,
    blacklist: Seq<Id>,
    boss_cells: u8,
)
    ensures
        filter_routes(g, routes, blacklist, boss_cells).len() == routes.len(),
        forall|i: int|
            0 <= i < routes.len() ==> {
                let kept = #[trigger] filter_routes(g, routes, blacklist, boss_cells)[i];
                &&& kept.path == routes[i].path
                &&& kept.minimum_boss_cells == routes[i].minimum_boss_cells
                &&& kept.enabled == passes(g, routes[i], blacklist, boss_cells)
            },
{
}

} // verus!
