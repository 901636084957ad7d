//! Routes through the graph: what a route is, and the search that lists
//! every route from the entry biome to a destination.

use crate::model::{Biome, Exit, Graph, Id, RouteError};
use vstd::prelude::*;

verus! {

/// A route through the graph, as the indices of its biomes in visiting order,
/// with the boss cells it needs and whether the current filter lets it through.
#[derive(Debug, PartialEq, Eq, Clone)]
pub struct ToggleablePath {
    pub enabled: bool,
    pub path: Vec<usize>,
    pub minimum_boss_cells: u8,
}

/// A route as contracts see it.
pub struct Route {
    pub enabled: bool,
    pub path: Seq<usize>,
    pub minimum_boss_cells: u8,
}

impl View for ToggleablePath {
    type V = Route;

    open spec fn view(&self) -> Route {
        Route { enabled: self.enabled, path: self.path@, minimum_boss_cells: self.minimum_boss_cells }
    }
}

impl DeepView for ToggleablePath {
    type V = Route;

    open spec fn deep_view(&self) -> Route {
        self@
    }
}

/// The position of the first exit at or after `from` that leads to `to`.
pub open spec fn first_exit_to(exits: Seq<Exit>, to: Id, from: int) -> Option<int>
    decreases exits.len() - from,
{
    if from >= exits.len() {
        None
    } else if 0 <= from && exits[from].destination == to {
        Some(from)
    } else {
        first_exit_to(exits, to, from + 1)
    }
}

/// Whether biome `a` has an exit to the biome at `b`.
pub open spec fn is_step(g: Graph, a: int, b: int) -> bool {
    &&& 0 <= a < g.len()
    &&& 0 <= b < g.len()
    &&& first_exit_to(g[a].exits, g[b].id, 0) is Some
}

/// The boss cells that going from biome `a` to biome `b` takes: those of the
/// first exit of `a` that leads to `b`.
pub open spec fn step_cells(g: Graph, a: int, b: int) -> u8 {
    match first_exit_to(g[a].exits, g[b].id, 0) {
        Some(k) => g[a].exits[k].required_cells(),
        None => 0,
    }
}

/// Whether every index in `path` names a biome of the graph.
pub open spec fn in_graph(g: Graph, path: Seq<usize>) -> bool {
    forall|k: int| 0 <= k < path.len() ==> path[k] < g.len()
}

/// Whether the biome at position `k + 1` of `path` is reached by an exit of
/// the biome at position `k`.
pub open spec fn step_at(g: Graph, path: Seq<usize>, k: int) -> bool {
    is_step(g, path[k] as int, path[k + 1] as int)
}

/// Whether `path` is not empty, stays in the graph and follows an exit at
/// every move.
pub open spec fn is_walk(g: Graph, path: Seq<usize>) -> bool {
    &&& path.len() > 0
    &&& in_graph(g, path)
    &&& forall|k: int| 0 <= k < path.len() - 1 ==> #[trigger] step_at(g, path, k)
}

/// Whether no biome of `path` but possibly the last has the identity `end`.
pub open spec fn open_before_last(g: Graph, path: Seq<usize>, end: Id) -> bool {
    forall|k: int| 0 <= k < path.len() - 1 ==> g[#[trigger] path[k] as int].id != end
}

/// Whether `path` is a walk that visits no biome twice and stops at the first
/// biome with the identity `end`.
pub open spec fn is_trail(g: Graph, path: Seq<usize>, end: Id) -> bool {
    &&& is_walk(g, path)
    &&& path.no_duplicates()
    &&& open_before_last(g, path, end)
    &&& g[path.last() as int].id == end
}

/// Whether `path` is a route: a trail to `end` that starts at the entry
/// biome, the first of the graph.
pub open spec fn is_route(g: Graph, path: Seq<usize>, end: Id) -> bool {
    is_trail(g, path, end) && path[0] == 0
}

/// The larger of two counts.
pub open spec fn larger(a: u8, b: u8) -> u8 {
    if a >= b {
        a
    } else {
        b
    }
}

/// The boss cells a walk takes: the most that any of its moves takes.
pub open spec fn walk_cells(g: Graph, path: Seq<usize>) -> u8
    decreases path.len(),
{
    if path.len() < 2 {
        0
    } else {
        larger(
            walk_cells(g, path.drop_last()),
            step_cells(g, path[path.len() - 2] as int, path.last() as int),
        )
    }
}

/// Whether `a` comes before `b` in the order of the search: where the two
/// first differ, `a` holds the smaller index.
pub open spec fn precedes(a: Seq<usize>, b: Seq<usize>) -> bool {
    exists|k: int|
        0 <= k < a.len() && k < b.len() && #[trigger] a.subrange(0, k) == b.subrange(0, k) && a[k]
            < b[k]
}

/// Whether `routes` holds each route of the graph to `end` once, in the
/// order of the search, enabled and with the boss cells it takes.
pub open spec fn lists_routes(g: Graph, end: Id, routes: Seq<Route>) -> bool {
    &&& forall|i: int|
        0 <= i < routes.len() ==> {
            &&& is_route(g, (#[trigger] routes[i]).path, end)
            &&& routes[i].enabled
            &&& routes[i].minimum_boss_cells == walk_cells(g, routes[i].path)
        }
    &&& forall|path: Seq<usize>| #[trigger]
        is_route(g, path, end) ==> exists|i: int|
            0 <= i < routes.len() && (#[trigger] routes[i]).path == path
    &&& forall|i: int, j: int|
        0 <= i < j < routes.len() ==> precedes(
            (#[trigger] routes[i]).path,
            (#[trigger] routes[j]).path,
        )
}

/// A sequence of distinct indices below `n` has at most `n` members.
pub proof fn lemma_distinct_indices_fit(path: Seq<usize>, n: nat)
    requires
        path.no_duplicates(),
        forall|k: int| 0 <= k < path.len() ==> path[k] < n,
    ensures
        path.len() <= n,
    decreases n,
{
    if n == 0 {
        if path.len() > 0 {
            assert(path[0] < n);
        }
    } else {
        let top: usize = (n - 1) as usize;
        if path.contains(top) {
            let at = choose|i: int| 0 <= i < path.len() && path[i] == top;
            let rest = path.remove(at);
            assert forall|k: int| 0 <= k < rest.len() implies rest[k] < (n - 1) as nat by {
                if k < at {
                    assert(rest[k] == path[k]);
                } else {
                    assert(rest[k] == path[k + 1]);
                }
            }
            assert(rest.no_duplicates()) by {
                assert forall|i: int, j: int|
                    0 <= i < rest.len() && 0 <= j < rest.len() && i != j implies rest[i]
                    != rest[j] by {
                    let oi = if i < at { i } else { i + 1 };
                    let oj = if j < at { j } else { j + 1 };
                    assert(rest[i] == path[oi]);
                    assert(rest[j] == path[oj]);
                }
            }
            lemma_distinct_indices_fit(rest, (n - 1) as nat);
        } else {
            assert forall|k: int| 0 <= k < path.len() implies path[k] < (n - 1) as nat by {
                assert(path.contains(path[k]));
            }
            lemma_distinct_indices_fit(path, (n - 1) as nat);
        }
    }
}

impl ToggleablePath {
    /// Raises the boss cells the route needs to `minimum_required_boss_cells`
    /// where that is more than it needs already.
    pub fn update_minimum_boss_cells(&mut self, minimum_required_boss_cells: u8)
        ensures
            final(self).minimum_boss_cells == larger(
                old(self).minimum_boss_cells,
                minimum_required_boss_cells,
            ),
            final(self).enabled == old(self).enabled,
            final(self).path == old(self).path,
    {
        if minimum_required_boss_cells > self.minimum_boss_cells {
            self.minimum_boss_cells = minimum_required_boss_cells;
        }
    }

    /// A copy of the route.
    pub fn duplicate(&self) -> (copy: ToggleablePath)
        ensures
            copy@ == self@,
    {
        let mut path: Vec<usize> = Vec::new();
        let mut k: usize = 0;
        while k < self.path.len()
            invariant
                k <= self.path.len(),
                path@ == self.path@.subrange(0, k as int),
            decreases self.path.len() - k,
        {
            path.push(self.path[k]);
            k += 1;
        }
        assert(path@ == self.path@);
        ToggleablePath { enabled: self.enabled, path, minimum_boss_cells: self.minimum_boss_cells }
    }
}

/// Whether one of `exits` leads to `expected_id`, and the boss cells that the
/// first such exit takes (0 where there is none).
pub fn contains_and_required_boss_cells(exits: &Vec<Exit>, expected_id: &Id) -> (found: (bool, u8))
    ensures
        found.0 == (first_exit_to(exits@, *expected_id, 0) is Some),
        found.1 == match first_exit_to(exits@, *expected_id, 0) {
            Some(k) => exits@[k].required_cells(),
            None => 0,
        },
{
    let mut k: usize = 0;
    while k < exits.len()
        invariant
            k <= exits.len(),
            first_exit_to(exits@, *expected_id, 0) == first_exit_to(exits@, *expected_id, k as int),
        decreases exits.len() - k,
    {
        if exits[k].destination == *expected_id {
            let cells: u8 = match exits[k].boss_cell_requirement {
                Some(cells) => cells,
                None => 0,
            };
            return (true, cells);
        }
        k += 1;
    }
    (false, 0)
}

/// Whether `index` occurs in `path`.
pub fn visits(path: &Vec<usize>, index: usize) -> (found: bool)
    ensures
        found == path@.contains(index),
{
    let mut k: usize = 0;
    while k < path.len()
        invariant
            k <= path.len(),
            forall|i: int| 0 <= i < k ==> path@[i] != index,
        decreases path.len() - k,
    {
        if path[k] == index {
            return true;
        }
        k += 1;
    }
    false
}

/// Adding a biome to a walk adds the cells of the last move to what it takes.
pub proof fn lemma_walk_cells_push(g: Graph, path: Seq<usize>, next: usize)
    requires
        path.len() > 0,
    ensures
        walk_cells(g, path.push(next)) == larger(
            walk_cells(g, path),
            step_cells(g, path.last() as int, next as int),
        ),
{
    let longer = path.push(next);
    assert(longer.drop_last() == path);
    assert(longer[longer.len() - 2] == path.last());
}

/// Every trail to `end` that begins with `current_path`, in the order of the
/// search. Each keeps the `enabled` flag of `current_path`.
fn find_path_rec(all_biomes: &Vec<Biome>, current_path: ToggleablePath, end: &Id) -> (paths:
    Vec<ToggleablePath>)
    requires
        is_walk(all_biomes.deep_view(), current_path.path@),
        current_path.path@.no_duplicates(),
        open_before_last(all_biomes.deep_view(), current_path.path@, *end),
        current_path.minimum_boss_cells == walk_cells(all_biomes.deep_view(), current_path.path@),
    ensures
        forall|i: int|
            0 <= i < paths.len() ==> {
                &&& is_trail(all_biomes.deep_view(), (#[trigger] paths[i]).path@, *end)
                &&& current_path.path@.is_prefix_of(paths[i].path@)
                &&& paths[i].enabled == current_path.enabled
                &&& paths[i].minimum_boss_cells == walk_cells(
                    all_biomes.deep_view(),
                    paths[i].path@,
                )
            },
        forall|path: Seq<usize>|
            is_trail(all_biomes.deep_view(), path, *end) && #[trigger] current_path.path@.is_prefix_of(
                path,
            ) ==> exists|i: int| 0 <= i < paths.len() && (#[trigger] paths[i]).path@ == path,
        forall|i: int, j: int|
            0 <= i < j < paths.len() ==> precedes(
                (#[trigger] paths[i]).path@,
                (#[trigger] paths[j]).path@,
            ),
    decreases all_biomes.len() - current_path.path.len(),
{
    let ghost g = all_biomes.deep_view();
    let ghost start = current_path.path@;
    let depth: usize = current_path.path.len();
    let last: usize = current_path.path[depth - 1];
    assert(g[last as int] == all_biomes@[last as int]@);
    if all_biomes[last].id == *end {
        let mut paths: Vec<ToggleablePath> = Vec::new();
        paths.push(current_path);
        proof {
            assert forall|path: Seq<usize>|
                is_trail(g, path, *end) && #[trigger] start.is_prefix_of(path) implies path
                == start by {
                if path.len() > start.len() {
                    assert(path[depth - 1] == start[depth - 1]);
                    assert(g[path[depth - 1] as int].id != *end);
                }
            }
            assert(paths[0].path@ == start);
        }
        return paths;
    }
    let mut paths: Vec<ToggleablePath> = Vec::new();
    let mut next: usize = 0;
    while next < all_biomes.len()
        invariant
            next <= all_biomes.len(),
            g == all_biomes.deep_view(),
            start == current_path.path@,
            depth == start.len(),
            depth > 0,
            last == start[depth - 1],
            is_walk(g, start),
            start.no_duplicates(),
            open_before_last(g, start, *end),
            g[last as int].id != *end,
            current_path.minimum_boss_cells == walk_cells(g, start),
            forall|i: int|
                0 <= i < paths.len() ==> {
                    &&& is_trail(g, (#[trigger] paths[i]).path@, *end)
                    &&& start.is_prefix_of(paths[i].path@)
                    &&& paths[i].path@.len() > depth
                    &&& paths[i].path@[depth as int] < next
                    &&& paths[i].enabled == current_path.enabled
                    &&& paths[i].minimum_boss_cells == walk_cells(g, paths[i].path@)
                },
            forall|path: Seq<usize>|
                is_trail(g, path, *end) && #[trigger] start.is_prefix_of(path) && path.len() > depth
                    && path[depth as int] < next ==> exists|i: int|
                    0 <= i < paths.len() && (#[trigger] paths[i]).path@ == path,
            forall|i: int, j: int|
                0 <= i < j < paths.len() ==> precedes(
                    (#[trigger] paths[i]).path@,
                    (#[trigger] paths[j]).path@,
                ),
        decreases all_biomes.len() - next,
    {
        assert(g[next as int] == all_biomes@[next as int]@);
        let (contains, required_boss_cells) = contains_and_required_boss_cells(
            &all_biomes[last].exits,
            &all_biomes[next].id,
        );
        let visited = visits(&current_path.path, next);
        if contains && !visited {
            let mut next_path = current_path.duplicate();
            next_path.update_minimum_boss_cells(required_boss_cells);
            next_path.path.push(next);
            let ghost longer = next_path.path@;
            proof {
                assert(longer == start.push(next));
                assert(is_step(g, last as int, next as int));
                assert(is_walk(g, longer)) by {
                    assert forall|k: int| 0 <= k < longer.len() - 1 implies #[trigger] step_at(
                        g,
                        longer,
                        k,
                    ) by {
                        if k < depth - 1 {
                            assert(step_at(g, start, k));
                        }
                    }
                }
                assert(longer.no_duplicates());
                assert(open_before_last(g, longer, *end)) by {
                    assert forall|k: int| 0 <= k < longer.len() - 1 implies g[#[trigger] longer[k] as int].id
                        != *end by {
                        if k < depth - 1 {
                            assert(g[start[k] as int].id != *end);
                        }
                    }
                }
                lemma_walk_cells_push(g, start, next);
                lemma_distinct_indices_fit(longer, g.len());
            }
            let ghost before = paths@;
            let mut new_paths = find_path_rec(all_biomes, next_path, end);
            let ghost found = new_paths@;
            paths.append(&mut new_paths);
            proof {
                assert(paths@ == before + found);
                assert forall|i: int| 0 <= i < paths.len() implies {
                    &&& is_trail(g, (#[trigger] paths[i]).path@, *end)
                    &&& start.is_prefix_of(paths[i].path@)
                    &&& paths[i].path@.len() > depth
                    &&& paths[i].path@[depth as int] < next + 1
                    &&& paths[i].enabled == current_path.enabled
                    &&& paths[i].minimum_boss_cells == walk_cells(g, paths[i].path@)
                } by {
                    if i < before.len() {
                        assert(paths[i] == before[i]);
                    } else {
                        let f = found[i - before.len()];
                        assert(paths[i] == f);
                        assert(longer.is_prefix_of(f.path@));
                        assert(f.path@[depth as int] == longer[depth as int]);
                        assert forall|k: int| 0 <= k < start.len() implies start[k]
                            == f.path@[k] by {
                            assert(longer[k] == f.path@[k]);
                        }
                    }
                }
                assert forall|path: Seq<usize>|
                    is_trail(g, path, *end) && #[trigger] start.is_prefix_of(path) && path.len()
                        > depth && path[depth as int] < next + 1 implies exists|i: int|
                    0 <= i < paths.len() && (#[trigger] paths[i]).path@ == path by {
                    if path[depth as int] < next {
                        let i = choose|i: int|
                            0 <= i < before.len() && (#[trigger] before[i]).path@ == path;
                        assert(paths[i] == before[i]);
                    } else {
                        assert(longer.is_prefix_of(path)) by {
                            assert forall|k: int| 0 <= k < longer.len() implies longer[k]
                                == path[k] by {
                                if k < depth {
                                    assert(start[k] == path[k]);
                                }
                            }
                        }
                        let i = choose|i: int|
                            0 <= i < found.len() && (#[trigger] found[i]).path@ == path;
                        assert(paths[before.len() + i] == found[i]);
                    }
                }
                assert forall|i: int, j: int| 0 <= i < j < paths.len() implies precedes(
                    (#[trigger] paths[i]).path@,
                    (#[trigger] paths[j]).path@,
                ) by {
                    if j < before.len() {
                        assert(paths[i] == before[i] && paths[j] == before[j]);
                    } else if i >= before.len() {
                        assert(paths[i] == found[i - before.len()]);
                        assert(paths[j] == found[j - before.len()]);
                    } else {
                        let a = before[i].path@;
                        let b = found[j - before.len()].path@;
                        assert(paths[i] == before[i]);
                        assert(paths[j] == found[j - before.len()]);
                        assert(longer.is_prefix_of(b));
                        assert(b[depth as int] == longer[depth as int]);
                        assert(a.subrange(0, depth as int) == b.subrange(0, depth as int)) by {
                            assert forall|k: int| 0 <= k < depth implies a[k] == b[k] by {
                                assert(start[k] == a[k]);
                                assert(longer[k] == b[k]);
                            }
                        }
                    }
                }
            }
        } else {
            proof {
                assert forall|path: Seq<usize>|
                    is_trail(g, path, *end) && #[trigger] start.is_prefix_of(path) && path.len()
                        > depth && path[depth as int] < next + 1 implies exists|i: int|
                    0 <= i < paths.len() && (#[trigger] paths[i]).path@ == path by {
                    if path[depth as int] == next {
                        assert(path[depth - 1] == start[depth - 1]);
                        assert(step_at(g, path, depth - 1));
                        if visited {
                            let at = choose|k: int| 0 <= k < start.len() && start[k] == next;
                            assert(path[at] == start[at]);
                        }
                    }
                }
            }
        }
        next += 1;
    }
    proof {
        assert forall|path: Seq<usize>|
            is_trail(g, path, *end) && #[trigger] start.is_prefix_of(path) implies exists|i: int|
            0 <= i < paths.len() && (#[trigger] paths[i]).path@ == path by {
            if path.len() == depth {
                assert(path == start);
            }
        }
    }
    paths
}

/// Every route from the entry biome, the first of `biomes`, to the biome
/// with the identity `id`, or to the last biome where `id` is `None`. A route
/// follows the exits, visits no biome twice and stops at the first biome with
/// the identity it looks for. The routes come in the order of a depth-first
/// search that tries the next biomes in graph order; each is enabled and
/// carries the boss cells it takes.
///
/// A graph without biomes has no entry: the search fails with `NotFound`.
pub fn find_paths(biomes: &Vec<Biome>, id: Option<Id>) -> (found: Result<
    Vec<ToggleablePath>,
    RouteError,
>)
    ensures
        biomes.len() == 0 <==> found is Err,
        found is Err ==> found == Err::<Vec<ToggleablePath>, RouteError>(RouteError::NotFound),
        found is Ok ==> lists_routes(
            biomes.deep_view(),
            match id {
                Some(end) => end,
                None => biomes.deep_view().last().id,
            },
            found->Ok_0.deep_view(),
        ),
{
    if biomes.len() == 0 {
        return Err(RouteError::NotFound);
    }
    let ghost g = biomes.deep_view();
    let mut path: Vec<usize> = Vec::new();
    path.push(0);
    let start = ToggleablePath { enabled: true, path, minimum_boss_cells: 0 };
    assert(g.last() == biomes@[biomes.len() - 1]@);
    let end: Id = match id {
        Some(end) => end,
        None => biomes[biomes.len() - 1].id,
    };
    assert(start.path@ == seq![0usize]);
    let paths = find_path_rec(biomes, start, &end);
    proof {
        let routes = paths.deep_view();
        assert forall|i: int| 0 <= i < routes.len() implies {
            &&& is_route(g, (#[trigger] routes[i]).path, end)
            &&& routes[i].enabled
            &&& routes[i].minimum_boss_cells == walk_cells(g, routes[i].path)
        } by {
            assert(routes[i] == paths[i]@);
            assert(start.path@[0] == paths[i].path@[0]);
        }
        assert forall|path: Seq<usize>| #[trigger] is_route(g, path, end) implies exists|i: int|
            0 <= i < routes.len() && (#[trigger] routes[i]).path == path by {
            assert(start.path@.is_prefix_of(path));
            let i = choose|i: int| 0 <= i < paths.len() && (#[trigger] paths[i]).path@ == path;
            assert(routes[i] == paths[i]@);
        }
        assert forall|i: int, j: int| 0 <= i < j < routes.len() implies precedes(
            (#[trigger] routes[i]).path,
            (#[trigger] routes[j]).path,
        ) by {
            assert(routes[i] == paths[i]@);
            assert(routes[j] == paths[j]@);
        }
    }
    Ok(paths)
}

/// Every listed route starts at the entry biome, ends at a biome with the
/// identity that was looked for, passes no such biome before, visits no
/// biome twice, and so holds at most as many biomes as the graph has.
pub proof fn lemma_routes_start_and_end(g: Graph, end: Id, routes: Seq<Route>, i: int)
    requires
        lists_routes(g, end, routes),
        0 <= i < routes.len(),
    ensures
        routes[i].path.len() > 0,
        routes[i].path[0] == 0,
        g[routes[i].path.last() as int].id == end,
        forall|k: int| 0 <= k < routes[i].path.len() - 1 ==> g[routes[i].path[k] as int].id != end,
        routes[i].path.no_duplicates(),
        routes[i].path.len() <= g.len(),
        in_graph(g, routes[i].path),
{
    assert(is_route(g, routes[i].path, end));
    lemma_distinct_indices_fit(routes[i].path, g.len());
}

/// No route is listed twice.
pub proof fn lemma_routes_differ(g: Graph, end: Id, routes: Seq<Route>, i: int, j: int)
    requires
        lists_routes(g, end, routes),
        0 <= i < j < routes.len(),
    ensures
        routes[i].path != routes[j].path,
{
    assert(precedes(routes[i].path, routes[j].path));
}

/// Biome `a` has an exit to biome `b` exactly when one of its exits names
/// the identity of `b`.
pub proof fn lemma_step_has_exit(g: Graph, a: int, b: int)
    requires
        0 <= a < g.len(),
        0 <= b < g.len(),
    ensures
        is_step(g, a, b) <==> exists|k: int|
            0 <= k < g[a].exits.len() && (#[trigger] g[a].exits[k]).destination == g[b].id,
{
    lemma_first_exit_to(g[a].exits, g[b].id, 0);
}

/// What `first_exit_to` finds is the first exit that leads to `to`, and
/// where it finds none there is none.
pub proof fn lemma_first_exit_to(exits: Seq<Exit>, to: Id, from: int)
    requires
        0 <= from,
    ensures
        match first_exit_to(exits, to, from) {
            Some(k) => {
                &&& from <= k < exits.len()
                &&& exits[k].destination == to
                &&& forall|j: int| from <= j < k ==> (#[trigger] exits[j]).destination != to
            },
            None => forall|j: int| from <= j < exits.len() ==> (#[trigger] exits[j]).destination != to,
        },
    decreases exits.len() - from,
{
    if from < exits.len() && exits[from].destination != to {
        lemma_first_exit_to(exits, to, from + 1);
    }
}

/// Whether every exit leads further down: to a biome in a later row.
pub open spec fn exits_lead_down(g: Graph) -> bool {
    forall|a: int, b: int| #[trigger] is_step(g, a, b) ==> g[a].row < g[b].row
}

/// Where every exit leads further down, a walk is in a later row at every
/// later position.
pub proof fn lemma_walk_leads_down(g: Graph, path: Seq<usize>, i: int, j: int)
    requires
        exits_lead_down(g),
        is_walk(g, path),
        0 <= i < j < path.len(),
    ensures
        g[path[i] as int].row < g[path[j] as int].row,
    decreases j - i,
{
    assert(step_at(g, path, j - 1));
    if i < j - 1 {
        lemma_walk_leads_down(g, path, i, j - 1);
    }
}

/// Where every exit leads further down, no walk visits a biome twice: the
/// routes of such a graph are all its walks from the entry biome that stop
/// at the first biome with the identity they look for.
pub proof fn lemma_walk_never_returns(g: Graph, path: Seq<usize>)
    requires
        exits_lead_down(g),
        is_walk(g, path),
    ensures
        path.no_duplicates(),
{
    assert forall|i: int, j: int| 0 <= i < path.len() && 0 <= j < path.len() && i != j implies path[i]
        != path[j] by {
        if i < j {
            lemma_walk_leads_down(g, path, i, j);
        } else {
            lemma_walk_leads_down(g, path, j, i);
        }
    }
}

} // verus!
