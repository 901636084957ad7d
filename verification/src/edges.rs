//! The reduction of routes to drawable edges: one edge per pair of biomes
//! that some route goes between, with where to draw it and whether an
//! enabled route uses it.

use crate::edge_laws::{
    is_edge_list, is_reached, lemma_reach_is_reached, lemma_reduce_is_edge_list,
};
use crate::filter::{apply_blacklist_and_boss_cells, contains_id, filter_routes, routes_in_graph};
use crate::graph::{biome_index, exits_known, find_biome};
use crate::model::{Biome, Graph, Id, RouteError};
use crate::routes::{in_graph, Route, ToggleablePath};
use crate::tiers::in_row;
use vstd::prelude::*;

verus! {

/// An edge between two biomes, with what a renderer needs to draw it.
#[derive(Debug, Eq, PartialEq, Clone, Ord, PartialOrd)]
pub struct RenderablePath {
    pub id: String,
    pub start_column: u8,
    pub start_column_offset: u8,
    pub start_columns: u8,
    pub end_column: u8,
    pub end_column_offset: u8,
    pub end_columns: u8,
    pub row: u8,
    pub length: u8,
    pub enabled: bool,
}

/// A drawable edge as contracts see it.
pub struct Edge {
    pub id: Seq<char>,
    pub start_column: u8,
    pub start_column_offset: u8,
    pub start_columns: u8,
    pub end_column: u8,
    pub end_column_offset: u8,
    pub end_columns: u8,
    pub row: u8,
    pub length: u8,
    pub enabled: bool,
}

impl View for RenderablePath {
    type V = Edge;

    open spec fn view(&self) -> Edge {
        Edge {
            id: self.id@,
            start_column: self.start_column,
            start_column_offset: self.start_column_offset,
            start_columns: self.start_columns,
            end_column: self.end_column,
            end_column_offset: self.end_column_offset,
            end_columns: self.end_columns,
            row: self.row,
            length: self.length,
            enabled: self.enabled,
        }
    }
}

impl DeepView for RenderablePath {
    type V = Edge;

    open spec fn deep_view(&self) -> Edge {
        self@
    }
}

/// One move of a route: from one biome to the next, and whether the route
/// it belongs to is enabled.
pub struct Move {
    pub from: usize,
    pub to: usize,
    pub enabled: bool,
}

/// The label of the edge from the biome `from` to the biome `to`.
pub open spec fn edge_label(from: Id, to: Id) -> Seq<char> {
    from.key() + "-"@ + to.key()
}

/// A count or a distance as one byte holds it: its remainder modulo 256.
pub open spec fn as_byte(n: int) -> u8 {
    (n % 256) as u8
}

/// How many biomes of the graph lie in `row`.
pub open spec fn columns_in_row(g: Graph, row: usize) -> nat {
    in_row(g, row as int).len()
}

/// The edge drawn from biome `from` to biome `to`: its label, the columns
/// and the row it starts in, how many columns its two rows have, and how many
/// rows it spans.
pub open spec fn drawn_edge(g: Graph, from: int, to: int, enabled: bool) -> Edge {
    Edge {
        id: edge_label(g[from].id, g[to].id),
        start_column: as_byte(g[from].column as int),
        start_column_offset: 0,
        start_columns: as_byte(columns_in_row(g, g[from].row) as int),
        end_column: as_byte(g[to].column as int),
        end_column_offset: 0,
        end_columns: as_byte(columns_in_row(g, g[to].row) as int),
        row: as_byte(g[from].row as int),
        length: as_byte(g[to].row - g[from].row),
        enabled,
    }
}

/// The moves of one route, in order.
pub open spec fn route_moves(route: Route) -> Seq<Move> {
    Seq::new(
        if route.path.len() == 0 {
            0nat
        } else {
            (route.path.len() - 1) as nat
        },
        |k: int| (Move { from: route.path[k], to: route.path[k + 1], enabled: route.enabled }),
    )
}

/// The moves of all routes, route after route.
pub open spec fn all_moves(routes: Seq<Route>) -> Seq<Move>
    decreases routes.len(),
{
    if routes.len() == 0 {
        Seq::empty()
    } else {
        all_moves(routes.drop_last()) + route_moves(routes.last())
    }
}

/// Whether every move of `moves` goes between biomes of the graph.
pub open spec fn moves_in_graph(g: Graph, moves: Seq<Move>) -> bool {
    forall|t: int|
        0 <= t < moves.len() ==> (#[trigger] moves[t]).from < g.len() && moves[t].to < g.len()
}

/// The label of the edge that the move `m` goes along.
pub open spec fn move_label(g: Graph, m: Move) -> Seq<char> {
    edge_label(g[m.from as int].id, g[m.to as int].id)
}

/// The position of the first edge at or after `from` with the label `id`.
pub open spec fn position_of(edges: Seq<Edge>, id: Seq<char>, from: int) -> Option<int>
    decreases edges.len() - from,
{
    if from >= edges.len() {
        None
    } else if 0 <= from && edges[from].id == id {
        Some(from)
    } else {
        position_of(edges, id, from + 1)
    }
}

/// The edges after one more move: an edge with the move's label is enabled
/// if the move is, and otherwise stays as it is; where there is none yet, the
/// move's edge is added at the end.
pub open spec fn merge_move(g: Graph, edges: Seq<Edge>, m: Move) -> Seq<Edge> {
    match position_of(edges, move_label(g, m), 0) {
        Some(e) => if m.enabled {
            edges.update(e, Edge { enabled: true, ..edges[e] })
        } else {
            edges
        },
        None => edges.push(drawn_edge(g, m.from as int, m.to as int, m.enabled)),
    }
}

/// The edges that `moves` reduce to.
pub open spec fn reduce_moves(g: Graph, moves: Seq<Move>) -> Seq<Edge>
    decreases moves.len(),
{
    if moves.len() == 0 {
        Seq::empty()
    } else {
        merge_move(g, reduce_moves(g, moves.drop_last()), moves.last())
    }
}

/// The reachable biomes after one more move: an enabled move makes the biome
/// it leads to reachable.
pub open spec fn reach_move(g: Graph, reachable: Seq<Id>, m: Move) -> Seq<Id> {
    if m.enabled && !reachable.contains(g[m.to as int].id) {
        reachable.push(g[m.to as int].id)
    } else {
        reachable
    }
}

/// The identities of the biomes that `moves` reach, each once, in the order
/// in which they are first reached: the entry biome, then the biome that each
/// enabled move leads to.
pub open spec fn reach_moves(g: Graph, moves: Seq<Move>) -> Seq<Id>
    decreases moves.len(),
{
    if moves.len() == 0 {
        if g.len() == 0 {
            Seq::empty()
        } else {
            seq![g[0].id]
        }
    } else {
        reach_move(g, reach_moves(g, moves.drop_last()), moves.last())
    }
}

/// The number of biomes in `row`.
pub fn calc_columns(biomes: &Vec<Biome>, row: usize) -> (columns: usize)
    ensures
        columns == columns_in_row(biomes.deep_view(), row),
{
    let ghost g = biomes.deep_view();
    let mut columns: usize = 0;
    let mut i: usize = 0;
    while i < biomes.len()
        invariant
            i <= biomes.len(),
            g == biomes.deep_view(),
            columns <= i,
            columns == columns_in_row(g.take(i as int), row),
        decreases biomes.len() - i,
    {
        assert(g.take(i + 1).drop_last() == g.take(i as int));
        assert(g.take(i + 1).last() == biomes@[i as int]@);
        if biomes[i].row == row {
            columns += 1;
        }
        i += 1;
    }
    assert(g.take(i as int) == g);
    columns
}

/// The number of rows from `start` down to `end`, as one byte holds it.
pub fn calc_length(start: &Biome, end: &Biome) -> (length: u8)
    ensures
        length == as_byte(end.row - start.row),
{
    if end.row >= start.row {
        ((end.row - start.row) % 256) as u8
    } else {
        let back: usize = (start.row - end.row) % 256;
        if back == 0 {
            0
        } else {
            (256 - back) as u8
        }
    }
}

/// Whether an edge between two biomes may be used: neither end is blacklisted.
pub fn enabled(start_id: &Id, end_id: &Id, blacklist: &Vec<Id>) -> (usable: bool)
    ensures
        usable == (!blacklist@.contains(*start_id) && !blacklist@.contains(*end_id)),
{
    if contains_id(blacklist, start_id) || contains_id(blacklist, end_id) {
        false
    } else {
        true
    }
}

/// The edge drawn from the biome at `from` to the biome at `to`.
pub fn draw_edge(all_biomes: &Vec<Biome>, from: usize, to: usize, enabled: bool) -> (edge:
    RenderablePath)
    requires
        from < all_biomes.len(),
        to < all_biomes.len(),
    ensures
        edge@ == drawn_edge(all_biomes.deep_view(), from as int, to as int, enabled),
{
    let ghost g = all_biomes.deep_view();
    assert(g[from as int] == all_biomes@[from as int]@);
    assert(g[to as int] == all_biomes@[to as int]@);
    let start_biome = &all_biomes[from];
    let end_biome = &all_biomes[to];
    let mut id = String::from_str(start_biome.id.key_str());
    id.append("-");
    id.append(end_biome.id.key_str());
    let start_columns: usize = calc_columns(all_biomes, start_biome.row);
    let end_columns: usize = calc_columns(all_biomes, end_biome.row);
    RenderablePath {
        id,
        start_column: (start_biome.column % 256) as u8,
        start_column_offset: 0,
        start_columns: (start_columns % 256) as u8,
        end_column: (end_biome.column % 256) as u8,
        end_column_offset: 0,
        end_columns: (end_columns % 256) as u8,
        row: (start_biome.row % 256) as u8,
        length: calc_length(start_biome, end_biome),
        enabled,
    }
}

/// The position of the first edge with the label `id`, if there is one.
pub fn find_edge(edges: &Vec<RenderablePath>, id: &String) -> (found: Option<usize>)
    ensures
        match found {
            Some(e) => e < edges.len() && position_of(edges.deep_view(), id@, 0) == Some(e as int),
            None => position_of(edges.deep_view(), id@, 0) is None,
        },
{
    let ghost drawn = edges.deep_view();
    let mut e: usize = 0;
    while e < edges.len()
        invariant
            e <= edges.len(),
            drawn == edges.deep_view(),
            position_of(drawn, id@, 0) == position_of(drawn, id@, e as int),
        decreases edges.len() - e,
    {
        assert(drawn[e as int] == edges@[e as int]@);
        if edges[e].id == *id {
            return Some(e);
        }
        e += 1;
    }
    None
}

/// Takes one move into the edges and the reachable biomes.
///
/// An edge with the move's label that is there already keeps its place and
/// its layout, and is enabled from now on if the move is; it is never
/// disabled. Where no edge has the label, the move's edge is added at the
/// end. An enabled move makes the biome it leads to reachable.
pub fn add_move(
    all_biomes: &Vec<Biome>,
    edges: &mut Vec<RenderablePath>,
    reachable: &mut Vec<Id>,
    from: usize,
    to: usize,
    enabled: bool,
)
    requires
        from < all_biomes.len(),
        to < all_biomes.len(),
    ensures
        final(edges).deep_view() == merge_move(
            all_biomes.deep_view(),
            old(edges).deep_view(),
            Move { from, to, enabled },
        ),
        final(reachable)@ == reach_move(all_biomes.deep_view(), old(reachable)@, Move { from, to, enabled }),
        final(edges).len() >= old(edges).len(),
        forall|e: int|
            0 <= e < old(edges).len() ==> {
                &&& (#[trigger] final(edges)@[e]).id@ == old(edges)@[e].id@
                &&& old(edges)@[e].enabled ==> final(edges)@[e].enabled
            },
{
    let ghost g = all_biomes.deep_view();
    let ghost before = edges.deep_view();
    assert(g[to as int] == all_biomes@[to as int]@);
    let new_path = draw_edge(all_biomes, from, to, enabled);
    match find_edge(edges, &new_path.id) {
        Some(index) => {
            if new_path.enabled {
                assert(before[index as int] == edges@[index as int]@);
                edges[index].enabled = true;
                assert(edges.deep_view() =~= before.update(
                    index as int,
                    Edge { enabled: true, ..before[index as int] },
                ));
            }
        },
        None => {
            edges.push(new_path);
            assert(edges.deep_view() =~= before.push(
                drawn_edge(g, from as int, to as int, enabled),
            ));
        },
    }
    if enabled && !contains_id(reachable, &all_biomes[to].id) {
        reachable.push(all_biomes[to].id);
    }
}

/// Reduces routes to the edges they use and the biomes they reach.
///
/// The edges: one for each label that a move of a route has, in the order in
/// which the labels first occur when the routes are walked one after the
/// other; each drawn as the first move with its label asks, and enabled
/// exactly when an enabled route has a move with its label.
///
/// The reachable biomes: the entry biome and every biome that a move of an
/// enabled route leads to, each once, in the order in which they are reached.
pub fn biomes_paths_to_paths(all_biomes: &Vec<Biome>, biomes: Vec<ToggleablePath>) -> (result: (
    Vec<RenderablePath>,
    Vec<Id>,
))
    requires
        routes_in_graph(all_biomes.deep_view(), biomes.deep_view()),
    ensures
        result.0.deep_view() == reduce_moves(
            all_biomes.deep_view(),
            all_moves(biomes.deep_view()),
        ),
        result.1@ == reach_moves(all_biomes.deep_view(), all_moves(biomes.deep_view())),
        is_edge_list(
            all_biomes.deep_view(),
            all_moves(biomes.deep_view()),
            result.0.deep_view(),
        ),
        result.1@.no_duplicates(),
        forall|id: Id|
            result.1@.contains(id) <==> is_reached(
                all_biomes.deep_view(),
                all_moves(biomes.deep_view()),
                id,
            ),
{
    let ghost g = all_biomes.deep_view();
    let ghost routes = biomes.deep_view();
    let mut result: Vec<RenderablePath> = Vec::new();
    let mut reachable_biomes: Vec<Id> = Vec::new();
    if all_biomes.len() > 0 {
        assert(g[0] == all_biomes@[0]@);
        reachable_biomes.push(all_biomes[0].id);
    }
    assert(routes.take(0) == Seq::<Route>::empty());
    assert(result.deep_view() == Seq::<Edge>::empty());
    let mut i: usize = 0;
    while i < biomes.len()
        invariant
            i <= biomes.len(),
            g == all_biomes.deep_view(),
            routes == biomes.deep_view(),
            routes_in_graph(g, routes),
            result.deep_view() == reduce_moves(g, all_moves(routes.take(i as int))),
            reachable_biomes@ == reach_moves(g, all_moves(routes.take(i as int))),
        decreases biomes.len() - i,
    {
        let path = &biomes[i].path;
        let enabled = biomes[i].enabled;
        let ghost route = routes[i as int];
        let ghost earlier = all_moves(routes.take(i as int));
        proof {
            assert(route == biomes@[i as int]@);
            assert(in_graph(g, route.path));
            assert(earlier + route_moves(route).take(0) == earlier);
        }
        let mut k: usize = 0;
        while k + 1 < path.len()
            invariant
                k <= path.len(),
                g == all_biomes.deep_view(),
                route.path == path@,
                route.enabled == enabled,
                in_graph(g, route.path),
                k <= route_moves(route).len(),
                result.deep_view() == reduce_moves(g, earlier + route_moves(route).take(k as int)),
                reachable_biomes@ == reach_moves(g, earlier + route_moves(route).take(k as int)),
            decreases path.len() - k,
        {
            let ghost done = earlier + route_moves(route).take(k as int);
            let ghost m = Move { from: path@[k as int], to: path@[k + 1], enabled };
            proof {
                let longer = earlier + route_moves(route).take(k + 1);
                assert(route_moves(route)[k as int] == m);
                assert(longer.drop_last() == done);
                assert(longer.last() == m);
            }
            add_move(all_biomes, &mut result, &mut reachable_biomes, path[k], path[k + 1], enabled);
            k += 1;
        }
        proof {
            assert(route_moves(route).take(k as int) == route_moves(route));
            assert(routes.take(i + 1).drop_last() == routes.take(i as int));
            assert(routes.take(i + 1).last() == route);
        }
        i += 1;
    }
    proof {
        assert(routes.take(i as int) == routes);
        lemma_reduce_is_edge_list(g, all_moves(routes));
        lemma_reach_is_reached(g, all_moves(routes));
    }
    (result, reachable_biomes)
}

/// Filters the routes by `blacklist` and `boss_cells`, then reduces them to
/// edges and reachable biomes.
pub fn get_paths_from(
    all_biomes: &Vec<Biome>,
    paths: &Vec<ToggleablePath>,
    blacklist: &Vec<Id>,
    boss_cells: u8,
) -> (result: (Vec<RenderablePath>, Vec<Id>))
    requires
        routes_in_graph(all_biomes.deep_view(), paths.deep_view()),
    ensures
        result.0.deep_view() == reduce_moves(
            all_biomes.deep_view(),
            all_moves(
                filter_routes(all_biomes.deep_view(), paths.deep_view(), blacklist@, boss_cells),
            ),
        ),
        result.1@ == reach_moves(
            all_biomes.deep_view(),
            all_moves(
                filter_routes(all_biomes.deep_view(), paths.deep_view(), blacklist@, boss_cells),
            ),
        ),
        is_edge_list(
            all_biomes.deep_view(),
            all_moves(
                filter_routes(all_biomes.deep_view(), paths.deep_view(), blacklist@, boss_cells),
            ),
            result.0.deep_view(),
        ),
        result.1@.no_duplicates(),
        forall|id: Id|
            result.1@.contains(id) <==> is_reached(
                all_biomes.deep_view(),
                all_moves(
                    filter_routes(all_biomes.deep_view(), paths.deep_view(), blacklist@, boss_cells),
                ),
                id,
            ),
{
    let result = apply_blacklist_and_boss_cells(all_biomes, paths, blacklist, boss_cells);
    assert(routes_in_graph(all_biomes.deep_view(), result.deep_view())) by {
        let filtered = result.deep_view();
        assert forall|i: int| 0 <= i < filtered.len() implies in_graph(
            all_biomes.deep_view(),
            (#[trigger] filtered[i]).path,
        ) by {
            assert(filtered[i].path == paths.deep_view()[i].path);
        }
    }
    biomes_paths_to_paths(all_biomes, result)
}

/// Whether an edge between the biomes `a` and `b` may be used under `blacklist`.
pub open spec fn usable(blacklist: Seq<Id>, a: Id, b: Id) -> bool {
    !blacklist.contains(a) && !blacklist.contains(b)
}

/// The edge along exit `k` of biome `i`, enabled when neither of its ends is
/// blacklisted.
pub open spec fn exit_edge(g: Graph, blacklist: Seq<Id>, i: int, k: int) -> Edge {
    let to = biome_index(g, g[i].exits[k].destination, 0)->0;
    drawn_edge(g, i, to, usable(blacklist, g[i].id, g[to].id))
}

/// The edges along the first `n` exits of biome `i`.
pub open spec fn exit_edges(g: Graph, blacklist: Seq<Id>, i: int, n: int) -> Seq<Edge> {
    Seq::new(n as nat, |k: int| exit_edge(g, blacklist, i, k))
}

/// The edges along all exits of the first `n` biomes, biome after biome.
pub open spec fn graph_edges(g: Graph, blacklist: Seq<Id>, n: int) -> Seq<Edge>
    decreases n,
{
    if n <= 0 {
        Seq::empty()
    } else {
        graph_edges(g, blacklist, n - 1) + exit_edges(
            g,
            blacklist,
            n - 1,
            g[n - 1].exits.len() as int,
        )
    }
}

/// One edge for every exit of every biome, biome after biome and exit after
/// exit, whether a route uses it or not. An edge is enabled when neither of
/// its ends is blacklisted. An exit that leads to no biome of the graph makes
/// the whole fail with `NotFound`.
pub fn calculate_paths_old(biomes: &Vec<Biome>, blacklist: &Vec<Id>) -> (result: Result<
    Vec<RenderablePath>,
    RouteError,
>)
    ensures
        result is Ok <==> exits_known(biomes.deep_view()),
        result is Err ==> result->Err_0 == RouteError::NotFound,
        result is Ok ==> result->Ok_0.deep_view() == graph_edges(
            biomes.deep_view(),
            blacklist@,
            biomes.len() as int,
        ),
{
    let ghost g = biomes.deep_view();
    let mut result: Vec<RenderablePath> = Vec::new();
    let mut i: usize = 0;
    assert(result.deep_view() =~= graph_edges(g, blacklist@, 0));
    while i < biomes.len()
        invariant
            i <= biomes.len(),
            g == biomes.deep_view(),
            result.deep_view() == graph_edges(g, blacklist@, i as int),
            forall|a: int, k: int|
                0 <= a < i && 0 <= k < g[a].exits.len() ==> biome_index(
                    g,
                    (#[trigger] g[a].exits[k]).destination,
                    0,
                ) is Some,
        decreases biomes.len() - i,
    {
        assert(g[i as int] == biomes@[i as int]@);
        let biome = &biomes[i];
        let mut k: usize = 0;
        assert(result.deep_view() =~= graph_edges(g, blacklist@, i as int) + exit_edges(
            g,
            blacklist@,
            i as int,
            0,
        ));
        while k < biome.exits.len()
            invariant
                k <= biome.exits.len(),
                i < biomes.len(),
                g == biomes.deep_view(),
                biome@ == g[i as int],
                result.deep_view() == graph_edges(g, blacklist@, i as int) + exit_edges(
                    g,
                    blacklist@,
                    i as int,
                    k as int,
                ),
                forall|b: int|
                    0 <= b < k ==> biome_index(g, (#[trigger] g[i as int].exits[b]).destination, 0) is Some,
            decreases biome.exits.len() - k,
        {
            let ghost before = result.deep_view();
            match find_biome(biomes, &biome.exits[k].destination) {
                Some(to) => {
                    assert(g[to as int] == biomes@[to as int]@);
                    let usable = enabled(&biome.id, &biomes[to].id, blacklist);
                    let edge = draw_edge(biomes, i, to, usable);
                    assert(edge@ == exit_edge(g, blacklist@, i as int, k as int));
                    result.push(edge);
                    assert(result.deep_view() =~= before.push(
                        exit_edge(g, blacklist@, i as int, k as int),
                    ));
                    assert(exit_edges(g, blacklist@, i as int, k + 1) =~= exit_edges(
                        g,
                        blacklist@,
                        i as int,
                        k as int,
                    ).push(exit_edge(g, blacklist@, i as int, k as int)));
                },
                None => {
                    assert(biome_index(g, g[i as int].exits[k as int].destination, 0) is None);
                    return Err(RouteError::NotFound);
                },
            }
            k += 1;
        }
        i += 1;
    }
    Ok(result)
}

} // verus!
