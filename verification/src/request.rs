//! Answering a request: the biomes by row, marked as reachable or not, and
//! the edges between them.

use crate::edge_laws::{is_edge_list, is_reached};
use crate::edges::{all_moves, get_paths_from, reach_moves, reduce_moves, RenderablePath};
use crate::filter::{filter_routes, routes_in_graph};
use crate::graph::{get_biomes, well_formed};
use crate::model::{duplicate_biomes, Biome, Graph, Id, RouteError};
use crate::routes::{
    find_paths, in_graph, lemma_routes_start_and_end, lists_routes, Route, ToggleablePath,
};
use crate::tiers::{
    filter_reachable_biomes, is_tiering, mark_reachable, order_biomes_by_tier, rows_fit, TIER_COUNT,
};
use vstd::prelude::*;

verus! {

/// Answers a request for the given blacklist and boss cells.
///
/// The routes are filtered and reduced to edges. The biomes are marked as
/// enabled where the filtered routes reach them, and grouped by row. A biome
/// in a row that the layout does not have makes the graph malformed.
pub fn get_biomes_and_paths(
    blacklist: Vec<Id>,
    boss_cells: u8,
    biomes: Vec<Biome>,
    paths: &Vec<ToggleablePath>,
) -> (answer: Result<(Vec<Vec<Biome>>, Vec<RenderablePath>), RouteError>)
    requires
        routes_in_graph(biomes.deep_view(), paths.deep_view()),
    ensures
        answer is Ok <==> rows_fit(biomes.deep_view()),
        answer is Err ==> answer->Err_0 == RouteError::MalformedGraph,
        answer is Ok ==> {
            let g = biomes.deep_view();
            let moves = all_moves(filter_routes(g, paths.deep_view(), blacklist@, boss_cells));
            &&& answer->Ok_0.1.deep_view() == reduce_moves(g, moves)
            &&& is_edge_list(g, moves, answer->Ok_0.1.deep_view())
            &&& is_tiering(mark_reachable(g, reach_moves(g, moves)), answer->Ok_0.0.deep_view())
        },
{
    let ghost g = biomes.deep_view();
    let (paths, reachable_biomes) = get_paths_from(&biomes, paths, &blacklist, boss_cells);
    let biomes = filter_reachable_biomes(biomes, &reachable_biomes);
    proof {
        let marked = mark_reachable(g, reachable_biomes@);
        assert(rows_fit(marked) == rows_fit(g)) by {
            if rows_fit(g) {
                assert forall|i: int| 0 <= i < marked.len() implies 1 <= (#[trigger] marked[i]).row
                    <= TIER_COUNT by {
                    assert(marked[i].row == g[i].row);
                }
            }
            if rows_fit(marked) {
                assert forall|i: int| 0 <= i < g.len() implies 1 <= (#[trigger] g[i]).row
                    <= TIER_COUNT by {
                    assert(marked[i].row == g[i].row);
                }
            }
        }
    }
    match order_biomes_by_tier(biomes) {
        Ok(tiers) => Ok((tiers, paths)),
        Err(error) => Err(error),
    }
}

/// A checked graph together with all its routes from the entry biome to the
/// last biome: what every request is answered from. Made once, never changed.
pub struct Layout {
    biomes: Vec<Biome>,
    paths: Vec<ToggleablePath>,
}

impl Layout {
    /// The graph of the layout.
    pub closed spec fn graph(&self) -> Graph {
        self.biomes.deep_view()
    }

    /// The routes of the layout.
    pub closed spec fn routes(&self) -> Seq<Route> {
        self.paths.deep_view()
    }

    #[verifier::type_invariant]
    spec fn sound(&self) -> bool {
        &&& self.biomes.len() > 0
        &&& well_formed(self.biomes.deep_view())
        &&& lists_routes(
            self.biomes.deep_view(),
            self.biomes.deep_view().last().id,
            self.paths.deep_view(),
        )
    }

    /// Checks the graph and lists its routes from the entry biome to the
    /// last biome. A graph without biomes has no entry: `NotFound`. A graph
    /// with an exit that leads to no biome of it, or with a biome in a row
    /// that the layout does not have, is malformed.
    pub fn new(biomes: Vec<Biome>) -> (made: Result<Layout, RouteError>)
        ensures
            match made {
                Ok(layout) => {
                    &&& biomes.len() > 0
                    &&& well_formed(biomes.deep_view())
                    &&& layout.graph() == biomes.deep_view()
                    &&& lists_routes(layout.graph(), layout.graph().last().id, layout.routes())
                },
                Err(error) => if biomes.len() == 0 {
                    error == RouteError::NotFound
                } else {
                    error == RouteError::MalformedGraph && !well_formed(biomes.deep_view())
                },
            },
    {
        if biomes.len() == 0 {
            return Err(RouteError::NotFound);
        }
        let biomes = match get_biomes(biomes) {
            Ok(checked) => checked,
            Err(error) => {
                return Err(error);
            },
        };
        let paths = match find_paths(&biomes, None) {
            Ok(paths) => paths,
            Err(error) => {
                return Err(error);
            },
        };
        Ok(Layout { biomes, paths })
    }

    /// The biomes of the layout: a well-formed graph with an entry biome.
    pub fn biomes(&self) -> (biomes: &Vec<Biome>)
        ensures
            biomes.deep_view() == self.graph(),
            biomes.len() > 0,
            well_formed(self.graph()),
    {
        proof {
            use_type_invariant(self);
        }
        &self.biomes
    }

    /// The routes of the layout: those of its graph to the last biome.
    pub fn paths(&self) -> (paths: &Vec<ToggleablePath>)
        ensures
            paths.deep_view() == self.routes(),
            lists_routes(self.graph(), self.graph().last().id, self.routes()),
            routes_in_graph(self.graph(), self.routes()),
    {
        proof {
            use_type_invariant(self);
            lemma_listed_routes_in_graph(self.graph(), self.graph().last().id, self.routes());
        }
        &self.paths
    }

    /// The edges and the reachable biomes under the given blacklist and
    /// boss cells.
    pub fn get_paths(&self, blacklist: &Vec<Id>, boss_cells: u8) -> (result: (
        Vec<RenderablePath>,
        Vec<Id>,
    ))
        ensures
            ({
                let g = self.graph();
                let moves = all_moves(filter_routes(g, self.routes(), blacklist@, boss_cells));
                &&& result.0.deep_view() == reduce_moves(g, moves)
                &&& is_edge_list(g, moves, result.0.deep_view())
                &&& result.1@ == reach_moves(g, moves)
                &&& result.1@.no_duplicates()
                &&& forall|id: Id| result.1@.contains(id) <==> is_reached(g, moves, id)
            }),
    {
        proof {
            use_type_invariant(self);
            lemma_listed_routes_in_graph(self.graph(), self.graph().last().id, self.routes());
        }
        get_paths_from(&self.biomes, &self.paths, blacklist, boss_cells)
    }

    /// The answer to a request: the biomes by row, enabled where the
    /// filtered routes reach them, and the edges.
    pub fn get_biomes_and_paths(&self, blacklist: Vec<Id>, boss_cells: u8) -> (answer: (
        Vec<Vec<Biome>>,
        Vec<RenderablePath>,
    ))
        ensures
            ({
                let g = self.graph();
                let moves = all_moves(filter_routes(g, self.routes(), blacklist@, boss_cells));
                &&& answer.1.deep_view() == reduce_moves(g, moves)
                &&& is_edge_list(g, moves, answer.1.deep_view())
                &&& is_tiering(mark_reachable(g, reach_moves(g, moves)), answer.0.deep_view())
            }),
    {
        proof {
            use_type_invariant(self);
            lemma_listed_routes_in_graph(self.graph(), self.graph().last().id, self.routes());
        }
        let biomes = duplicate_biomes(&self.biomes);
        match get_biomes_and_paths(blacklist, boss_cells, biomes, &self.paths) {
            Ok(answer) => answer,
            Err(_) => vstd::pervasive::unreached(),
        }
    }
}

/// Listed routes stay in the graph.
pub proof fn lemma_listed_routes_in_graph(g: Graph, end: Id, routes: Seq<Route>)
    requires
        lists_routes(g, end, routes),
    ensures
        routes_in_graph(g, routes),
{
    assert forall|i: int| 0 <= i < routes.len() implies in_graph(g, (#[trigger] routes[i]).path) by {
        lemma_routes_start_and_end(g, end, routes, i);
    }
}

} // verus!
