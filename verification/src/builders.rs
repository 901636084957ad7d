//! Short ways to write down exits and biomes.

use crate::model::{Biome, Exit, Id, Node, ScrollFragments};
use vstd::prelude::*;
use vstd::std_specs::convert::FromSpecImpl;

verus! {

/// The exit to `destination` that asks for no boss cells and holds no scrolls.
pub open spec fn plain_exit(destination: Id) -> Exit {
    Exit { destination, boss_cell_requirement: None, power_scrolls: None }
}

/// The exit to `destination` that asks for `cells` boss cells.
pub open spec fn gated_exit(destination: Id, cells: u8) -> Exit {
    Exit { destination, boss_cell_requirement: Some(cells), power_scrolls: None }
}

/// A fragment table with no entry.
pub open spec fn no_fragments() -> ScrollFragments {
    ScrollFragments { zero: None, one: None, two: None, three: None, four: None, five: None }
}

/// The biome named after `id` that holds no collectibles.
pub open spec fn bare_node(id: Id, row: usize, column: usize, exits: Seq<Exit>, enabled: bool) -> Node {
    Node {
        id,
        name: id.name(),
        row,
        column,
        power_scrolls: 0,
        dual_power_scrolls: 0,
        cursed_chest_chance: 0,
        scroll_fragments: no_fragments(),
        gear_level: 0,
        exits,
        enabled,
    }
}

impl Default for ScrollFragments {
    fn default() -> (table: ScrollFragments)
        ensures
            table == no_fragments(),
    {
        ScrollFragments { zero: None, one: None, two: None, three: None, four: None, five: None }
    }
}

impl From<Id> for Exit {
    fn from(destination: Id) -> (exit: Exit) {
        Exit { destination, boss_cell_requirement: None, power_scrolls: None }
    }
}

impl FromSpecImpl<Id> for Exit {
    open spec fn obeys_from_spec() -> bool {
        true
    }

    open spec fn from_spec(destination: Id) -> Exit {
        plain_exit(destination)
    }
}

impl From<(Id, u8)> for Exit {
    fn from(gate: (Id, u8)) -> (exit: Exit) {
        Exit { destination: gate.0, boss_cell_requirement: Some(gate.1), power_scrolls: None }
    }
}

impl FromSpecImpl<(Id, u8)> for Exit {
    open spec fn obeys_from_spec() -> bool {
        true
    }

    open spec fn from_spec(gate: (Id, u8)) -> Exit {
        gated_exit(gate.0, gate.1)
    }
}

/// One plain exit to each of `destinations`, in their order.
pub fn exits_to(destinations: &Vec<Id>) -> (exits: Vec<Exit>)
    ensures
        exits@ == destinations@.map_values(|d: Id| plain_exit(d)),
{
    let mut exits: Vec<Exit> = Vec::new();
    let mut k: usize = 0;
    while k < destinations.len()
        invariant
            k <= destinations.len(),
            exits@ == destinations@.take(k as int).map_values(|d: Id| plain_exit(d)),
        decreases destinations.len() - k,
    {
        exits.push(Exit::from(destinations[k]));
        assert(exits@ =~= destinations@.take(k + 1).map_values(|d: Id| plain_exit(d)));
        k += 1;
    }
    assert(destinations@.take(k as int) == destinations@);
    exits
}

/// One exit for each pair of `gates`, in their order: to the pair's biome,
/// for the pair's boss cells.
pub fn gated_exits_to(gates: &Vec<(Id, u8)>) -> (exits: Vec<Exit>)
    ensures
        exits@ == gates@.map_values(|gate: (Id, u8)| gated_exit(gate.0, gate.1)),
{
    let mut exits: Vec<Exit> = Vec::new();
    let mut k: usize = 0;
    while k < gates.len()
        invariant
            k <= gates.len(),
            exits@ == gates@.take(k as int).map_values(|gate: (Id, u8)| gated_exit(gate.0, gate.1)),
        decreases gates.len() - k,
    {
        exits.push(Exit::from(gates[k]));
        assert(exits@ =~= gates@.take(k + 1).map_values(
            |gate: (Id, u8)| gated_exit(gate.0, gate.1),
        ));
        k += 1;
    }
    assert(gates@.take(k as int) == gates@);
    exits
}

impl Biome {
    /// The biome named after `id`, at `row` and `column`, with `exits` and no
    /// collectibles.
    pub fn bare(id: Id, row: usize, column: usize, exits: Vec<Exit>, enabled: bool) -> (biome: Biome)
        ensures
            biome@ == bare_node(id, row, column, exits@, enabled),
    {
        Biome {
            id,
            name: id.to_string(),
            row,
            column,
            power_scrolls: 0,
            dual_power_scrolls: 0,
            cursed_chest_chance: 0,
            scroll_fragments: ScrollFragments::default(),
            gear_level: 0,
            exits,
            enabled,
        }
    }
}

impl From<(Id, Vec<Id>)> for Biome {
    /// The enabled biome `id` at row 0, column 0, with a plain exit to each
    /// of the destinations.
    fn from(parts: (Id, Vec<Id>)) -> (biome: Biome)
        ensures
            biome@ == bare_node(parts.0, 0, 0, parts.1@.map_values(|d: Id| plain_exit(d)), true),
    {
        let exits = exits_to(&parts.1);
        Biome::bare(parts.0, 0, 0, exits, true)
    }
}

impl FromSpecImpl<(Id, Vec<Id>)> for Biome {
    open spec fn obeys_from_spec() -> bool {
        false
    }

    open spec fn from_spec(parts: (Id, Vec<Id>)) -> Biome {
        choose|biome: Biome| #[trigger]
            biome@ == bare_node(parts.0, 0, 0, parts.1@.map_values(|d: Id| plain_exit(d)), true)
    }
}

impl From<(Id, usize, usize)> for Biome {
    /// The enabled biome `id` at the given row and column, without exits.
    fn from(parts: (Id, usize, usize)) -> (biome: Biome)
        ensures
            biome@ == bare_node(parts.0, parts.1, parts.2, Seq::empty(), true),
    {
        Biome::bare(parts.0, parts.1, parts.2, Vec::new(), true)
    }
}

impl FromSpecImpl<(Id, usize, usize)> for Biome {
    open spec fn obeys_from_spec() -> bool {
        false
    }

    open spec fn from_spec(parts: (Id, usize, usize)) -> Biome {
        choose|biome: Biome| #[trigger]
            biome@ == bare_node(parts.0, parts.1, parts.2, Seq::empty(), true)
    }
}

impl From<(Id, usize, usize, Vec<Id>, bool)> for Biome {
    /// The biome `id` at the given row and column, with a plain exit to each
    /// of the destinations, enabled or not as the last part says.
    fn from(parts: (Id, usize, usize, Vec<Id>, bool)) -> (biome: Biome)
        ensures
            biome@ == bare_node(
                parts.0,
                parts.1,
                parts.2,
                parts.3@.map_values(|d: Id| plain_exit(d)),
                parts.4,
            ),
    {
        let exits = exits_to(&parts.3);
        Biome::bare(parts.0, parts.1, parts.2, exits, parts.4)
    }
}

impl FromSpecImpl<(Id, usize, usize, Vec<Id>, bool)> for Biome {
    open spec fn obeys_from_spec() -> bool {
        false
    }

    open spec fn from_spec(parts: (Id, usize, usize, Vec<Id>, bool)) -> Biome {
        choose|biome: Biome| #[trigger]
            biome@ == bare_node(
                parts.0,
                parts.1,
                parts.2,
                parts.3@.map_values(|d: Id| plain_exit(d)),
                parts.4,
            )
    }
}

impl From<(Id, usize, usize, Vec<(Id, u8)>)> for Biome {
    /// The enabled biome `id` at the given row and column, with one exit for
    /// each pair of a destination and the boss cells it takes.
    fn from(parts: (Id, usize, usize, Vec<(Id, u8)>)) -> (biome: Biome)
        ensures
            biome@ == bare_node(
                parts.0,
                parts.1,
                parts.2,
                parts.3@.map_values(|gate: (Id, u8)| gated_exit(gate.0, gate.1)),
                true,
            ),
    {
        let exits = gated_exits_to(&parts.3);
        Biome::bare(parts.0, parts.1, parts.2, exits, true)
    }
}

impl FromSpecImpl<(Id, usize, usize, Vec<(Id, u8)>)> for Biome {
    open spec fn obeys_from_spec() -> bool {
        false
    }

    open spec fn from_spec(parts: (Id, usize, usize, Vec<(Id, u8)>)) -> Biome {
        choose|biome: Biome| #[trigger]
            biome@ == bare_node(
                parts.0,
                parts.1,
                parts.2,
                parts.3@.map_values(|gate: (Id, u8)| gated_exit(gate.0, gate.1)),
                true,
            )
    }
}

} // verus!
