//! Looking biomes up in the graph, and checking a graph before it is used.

use crate::model::{Biome, Graph, Id, RouteError};
use crate::tiers::{rows_fit, TIER_COUNT};
use vstd::prelude::*;

verus! {

/// The index of the first biome at or after `from` with the identity `id`.
pub open spec fn biome_index(g: Graph, id: Id, from: int) -> Option<int>
    decreases g.len() - from,
{
    if from >= g.len() {
        None
    } else if 0 <= from && g[from].id == id {
        Some(from)
    } else {
        biome_index(g, id, from + 1)
    }
}

/// Whether every exit of every biome leads to a biome of the graph.
pub open spec fn exits_known(g: Graph) -> bool {
    forall|i: int, k: int|
        0 <= i < g.len() && 0 <= k < g[i].exits.len() ==> biome_index(
            g,
            (#[trigger] g[i].exits[k]).destination,
            0,
        ) is Some
}

/// Whether the graph can be used: every exit leads to a biome of the graph,
/// and every biome lies in a row that the layout has.
pub open spec fn well_formed(g: Graph) -> bool {
    exits_known(g) && rows_fit(g)
}

/// What `biome_index` finds is the first biome with the identity, and where
/// it finds none there is none.
pub proof fn lemma_biome_index(g: Graph, id: Id, from: int)
    requires
        0 <= from,
    ensures
        match biome_index(g, id, from) {
            Some(i) => {
                &&& from <= i < g.len()
                &&& g[i].id == id
                &&& forall|j: int| from <= j < i ==> (#[trigger] g[j]).id != id
            },
            None => forall|j: int| from <= j < g.len() ==> (#[trigger] g[j]).id != id,
        },
    decreases g.len() - from,
{
    if from < g.len() && g[from].id != id {
        lemma_biome_index(g, id, from + 1);
    }
}

/// The index of the first biome with the identity `id`.
pub fn find_biome(biomes: &Vec<Biome>, id: &Id) -> (found: Option<usize>)
    ensures
        match found {
            Some(i) => i < biomes.len() && biome_index(biomes.deep_view(), *id, 0) == Some(i as int),
            None => biome_index(biomes.deep_view(), *id, 0) is None,
        },
{
    let ghost g = biomes.deep_view();
    let mut i: usize = 0;
    while i < biomes.len()
        invariant
            i <= biomes.len(),
            g == biomes.deep_view(),
            biome_index(g, *id, 0) == biome_index(g, *id, i as int),
        decreases biomes.len() - i,
    {
        assert(g[i as int] == biomes@[i as int]@);
        if biomes[i].id == *id {
            return Some(i);
        }
        i += 1;
    }
    None
}

/// The first biome with the identity `id`; `NotFound` where the graph has none.
pub fn get_biome<'b>(biomes: &'b Vec<Biome>, id: &Id) -> (found: Result<&'b Biome, RouteError>)
    ensures
        match found {
            Ok(biome) => {
                &&& biome_index(biomes.deep_view(), *id, 0) matches Some(i)
                &&& 0 <= i < biomes.len()
                &&& *biome == biomes@[i]
            },
            Err(error) => {
                &&& error == RouteError::NotFound
                &&& biome_index(biomes.deep_view(), *id, 0) is None
            },
        },
{
    match find_biome(biomes, id) {
        Some(i) => Ok(&biomes[i]),
        None => Err(RouteError::NotFound),
    }
}

/// Whether every exit of the biome at `i` leads to a biome of the graph.
fn exits_of_known(biomes: &Vec<Biome>, i: usize) -> (known: bool)
    requires
        i < biomes.len(),
    ensures
        known == forall|k: int|
            0 <= k < biomes.deep_view()[i as int].exits.len() ==> biome_index(
                biomes.deep_view(),
                (#[trigger] biomes.deep_view()[i as int].exits[k]).destination,
                0,
            ) is Some,
{
    let ghost g = biomes.deep_view();
    assert(g[i as int] == biomes@[i as int]@);
    let exits = &biomes[i].exits;
    let mut k: usize = 0;
    while k < exits.len()
        invariant
            k <= exits.len(),
            g == biomes.deep_view(),
            i < g.len(),
            exits@ == g[i as int].exits,
            forall|b: int|
                0 <= b < k ==> biome_index(g, (#[trigger] g[i as int].exits[b]).destination, 0) is Some,
        decreases exits.len() - k,
    {
        if find_biome(biomes, &exits[k].destination).is_none() {
            return false;
        }
        k += 1;
    }
    true
}

/// Checks a graph before it is used, and hands it back unchanged where it
/// can be. A graph with an exit that leads to no biome of it, or with a biome
/// in a row that the layout does not have, is malformed.
pub fn get_biomes(biomes: Vec<Biome>) -> (checked: Result<Vec<Biome>, RouteError>)
    ensures
        checked is Ok <==> well_formed(biomes.deep_view()),
        checked is Ok ==> checked->Ok_0 == biomes,
        checked is Err ==> checked->Err_0 == RouteError::MalformedGraph,
{
    let ghost g = biomes.deep_view();
    let mut i: usize = 0;
    while i < biomes.len()
        invariant
            i <= biomes.len(),
            g == biomes.deep_view(),
            forall|a: int| 0 <= a < i ==> 1 <= (#[trigger] g[a]).row <= TIER_COUNT,
            forall|a: int, k: int|
                0 <= a < i && 0 <= k < g[a].exits.len() ==> biome_index(
                    g,
                    (#[trigger] g[a].exits[k]).destination,
                    0,
                ) is Some,
        decreases biomes.len() - i,
    {
        assert(g[i as int] == biomes@[i as int]@);
        if biomes[i].row < 1 || biomes[i].row > TIER_COUNT {
            return Err(RouteError::MalformedGraph);
        }
        if !exits_of_known(&biomes, i) {
            return Err(RouteError::MalformedGraph);
        }
        i += 1;
    }
    Ok(biomes)
}

} // verus!
