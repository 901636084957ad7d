//! The graph model: biomes, their exits and their collectibles.

use vstd::prelude::*;

verus! {

/// The highest boss-cell level a player can choose.
pub const MAX_BOSS_CELLS: u8 = 5;

/// What can go wrong when a graph is loaded or a request is answered.
#[derive(Debug, PartialEq, Eq, Clone, Copy, Structural)]
pub enum RouteError {
    /// An exit leads to a biome that is not in the graph, or a biome's row
    /// lies outside the rows the layout has.
    MalformedGraph,
    /// No biome with the requested identity is in the graph.
    NotFound,
    /// The best route was asked for among no routes at all.
    EmptyInput,
}

/// The identity of a biome: one of a fixed set.
#[derive(Debug, PartialEq, Eq, Clone, Copy, Hash, Structural)]
pub enum Id {
    Prisonquart,
    Arboretum,
    Promenade,
    Toxicsewers,
    Prisondepths,
    Corruptedprison,
    Morass,
    Ossuary,
    Ramparts,
    Ancientsewers,
    Nest,
    Bridge,
    Crypt,
    Stilt,
    Slumbering,
    Graveyard,
    Clocktower,
    Sepulcher,
    Cavern,
    Clockroom,
    Haven,
    Castle,
    Throne,
    Lab,
    Observatory,
}

impl Id {
    /// The name of the identity as it is written in source.
    pub open spec fn name(self) -> Seq<char> {
        match self {
            Id::Prisonquart => "Prisonquart"@,
            Id::Arboretum => "Arboretum"@,
            Id::Promenade => "Promenade"@,
            Id::Toxicsewers => "Toxicsewers"@,
            Id::Prisondepths => "Prisondepths"@,
            Id::Corruptedprison => "Corruptedprison"@,
            Id::Morass => "Morass"@,
            Id::Ossuary => "Ossuary"@,
            Id::Ramparts => "Ramparts"@,
            Id::Ancientsewers => "Ancientsewers"@,
            Id::Nest => "Nest"@,
            Id::Bridge => "Bridge"@,
            Id::Crypt => "Crypt"@,
            Id::Stilt => "Stilt"@,
            Id::Slumbering => "Slumbering"@,
            Id::Graveyard => "Graveyard"@,
            Id::Clocktower => "Clocktower"@,
            Id::Sepulcher => "Sepulcher"@,
            Id::Cavern => "Cavern"@,
            Id::Clockroom => "Clockroom"@,
            Id::Haven => "Haven"@,
            Id::Castle => "Castle"@,
            Id::Throne => "Throne"@,
            Id::Lab => "Lab"@,
            Id::Observatory => "Observatory"@,
        }
    }

    /// The name of the identity in lower case, as edge labels use it.
    pub open spec fn key(self) -> Seq<char> {
        match self {
            Id::Prisonquart => "prisonquart"@,
            Id::Arboretum => "arboretum"@,
            Id::Promenade => "promenade"@,
            Id::Toxicsewers => "toxicsewers"@,
            Id::Prisondepths => "prisondepths"@,
            Id::Corruptedprison => "corruptedprison"@,
            Id::Morass => "morass"@,
            Id::Ossuary => "ossuary"@,
            Id::Ramparts => "ramparts"@,
            Id::Ancientsewers => "ancientsewers"@,
            Id::Nest => "nest"@,
            Id::Bridge => "bridge"@,
            Id::Crypt => "crypt"@,
            Id::Stilt => "stilt"@,
            Id::Slumbering => "slumbering"@,
            Id::Graveyard => "graveyard"@,
            Id::Clocktower => "clocktower"@,
            Id::Sepulcher => "sepulcher"@,
            Id::Cavern => "cavern"@,
            Id::Clockroom => "clockroom"@,
            Id::Haven => "haven"@,
            Id::Castle => "castle"@,
            Id::Throne => "throne"@,
            Id::Lab => "lab"@,
            Id::Observatory => "observatory"@,
        }
    }

    pub fn to_string(&self) -> (name: String)
        ensures
            name@ == self.name(),
    {
        let literal: &str = match self {
            Id::Prisonquart => "Prisonquart",
            Id::Arboretum => "Arboretum",
            Id::Promenade => "Promenade",
            Id::Toxicsewers => "Toxicsewers",
            Id::Prisondepths => "Prisondepths",
            Id::Corruptedprison => "Corruptedprison",
            Id::Morass => "Morass",
            Id::Ossuary => "Ossuary",
            Id::Ramparts => "Ramparts",
            Id::Ancientsewers => "Ancientsewers",
            Id::Nest => "Nest",
            Id::Bridge => "Bridge",
            Id::Crypt => "Crypt",
            Id::Stilt => "Stilt",
            Id::Slumbering => "Slumbering",
            Id::Graveyard => "Graveyard",
            Id::Clocktower => "Clocktower",
            Id::Sepulcher => "Sepulcher",
            Id::Cavern => "Cavern",
            Id::Clockroom => "Clockroom",
            Id::Haven => "Haven",
            Id::Castle => "Castle",
            Id::Throne => "Throne",
            Id::Lab => "Lab",
            Id::Observatory => "Observatory",
        };
        String::from_str(literal)
    }

    /// The lower-case name of the identity.
    pub fn key_str(&self) -> (key: &'static str)
        ensures
            key@ == self.key(),
    {
        match self {
            Id::Prisonquart => "prisonquart",
            Id::Arboretum => "arboretum",
            Id::Promenade => "promenade",
            Id::Toxicsewers => "toxicsewers",
            Id::Prisondepths => "prisondepths",
            Id::Corruptedprison => "corruptedprison",
            Id::Morass => "morass",
            Id::Ossuary => "ossuary",
            Id::Ramparts => "ramparts",
            Id::Ancientsewers => "ancientsewers",
            Id::Nest => "nest",
            Id::Bridge => "bridge",
            Id::Crypt => "crypt",
            Id::Stilt => "stilt",
            Id::Slumbering => "slumbering",
            Id::Graveyard => "graveyard",
            Id::Clocktower => "clocktower",
            Id::Sepulcher => "sepulcher",
            Id::Cavern => "cavern",
            Id::Clockroom => "clockroom",
            Id::Haven => "haven",
            Id::Castle => "castle",
            Id::Throne => "throne",
            Id::Lab => "lab",
            Id::Observatory => "observatory",
        }
    }
}

/// A boss-cell level, from none to five.
#[derive(Debug, PartialEq, Eq, Clone, Copy, Structural)]
pub enum BossCells {
    Zero,
    One,
    Two,
    Three,
    Four,
    Five,
}

impl BossCells {
    /// The level as a number, 0 to 5.
    pub open spec fn level(self) -> u8 {
        match self {
            BossCells::Zero => 0,
            BossCells::One => 1,
            BossCells::Two => 2,
            BossCells::Three => 3,
            BossCells::Four => 4,
            BossCells::Five => 5,
        }
    }

    /// The level as a number.
    pub fn as_level(&self) -> (level: u8)
        ensures
            level == self.level(),
            level <= MAX_BOSS_CELLS,
    {
        match self {
            BossCells::Zero => 0,
            BossCells::One => 1,
            BossCells::Two => 2,
            BossCells::Three => 3,
            BossCells::Four => 4,
            BossCells::Five => 5,
        }
    }

    /// The level with the given number, if the number is one.
    pub fn from_level(level: u8) -> (cells: Option<BossCells>)
        ensures
            level <= MAX_BOSS_CELLS ==> cells is Some && cells->0.level() == level,
            level > MAX_BOSS_CELLS ==> cells is None,
    {
        if level == 0 {
            Some(BossCells::Zero)
        } else if level == 1 {
            Some(BossCells::One)
        } else if level == 2 {
            Some(BossCells::Two)
        } else if level == 3 {
            Some(BossCells::Three)
        } else if level == 4 {
            Some(BossCells::Four)
        } else if level == 5 {
            Some(BossCells::Five)
        } else {
            None
        }
    }
}

/// A way out of a biome into another one.
#[derive(Debug, PartialEq, Eq, Clone, Copy)]
pub struct Exit {
    pub destination: Id,
    /// The boss cells a player needs to take this exit; none means no cells.
    pub boss_cell_requirement: Option<u8>,
    /// Scrolls found on the way through the exit. No score counts them.
    pub power_scrolls: Option<u8>,
}

impl Exit {
    /// The boss cells this exit asks for, 0 where none is written down.
    pub open spec fn required_cells(self) -> u8 {
        match self.boss_cell_requirement {
            Some(cells) => cells,
            None => 0,
        }
    }
}

/// One biome of the level graph.
#[derive(Debug, PartialEq, Eq, Clone)]
pub struct Biome {
    pub id: Id,
    pub name: String,
    pub row: usize,
    pub column: usize,
    pub power_scrolls: u8,
    pub dual_power_scrolls: u8,
    pub cursed_chest_chance: u8,
    pub scroll_fragments: ScrollFragments,
    pub gear_level: u8,
    pub exits: Vec<Exit>,
    pub enabled: bool,
}

/// A biome as contracts see it.
pub struct Node {
    pub id: Id,
    pub name: Seq<char>,
    pub row: usize,
    pub column: usize,
    pub power_scrolls: u8,
    pub dual_power_scrolls: u8,
    pub cursed_chest_chance: u8,
    pub scroll_fragments: ScrollFragments,
    pub gear_level: u8,
    pub exits: Seq<Exit>,
    pub enabled: bool,
}

impl View for Biome {
    type V = Node;

    open spec fn view(&self) -> Node {
        Node {
            id: self.id,
            name: self.name@,
            row: self.row,
            column: self.column,
            power_scrolls: self.power_scrolls,
            dual_power_scrolls: self.dual_power_scrolls,
            cursed_chest_chance: self.cursed_chest_chance,
            scroll_fragments: self.scroll_fragments,
            gear_level: self.gear_level,
            exits: self.exits@,
            enabled: self.enabled,
        }
    }
}

impl DeepView for Biome {
    type V = Node;

    open spec fn deep_view(&self) -> Node {
        self@
    }
}

/// A level graph as contracts see it: its biomes in the order they were given.
pub type Graph = Seq<Node>;


/// The scroll fragments a biome grants, by boss-cell level. A level without
/// an entry grants what the nearest lower level with an entry grants.
#[derive(Debug, PartialEq, Eq, Clone, Copy)]
pub struct ScrollFragments {
    pub zero: Option<u8>,
    pub one: Option<u8>,
    pub two: Option<u8>,
    pub three: Option<u8>,
    pub four: Option<u8>,
    pub five: Option<u8>,
}

impl ScrollFragments {
    /// The entry written down for `level`, if there is one.
    pub open spec fn entry(self, level: int) -> Option<u8> {
        if level == 0 {
            self.zero
        } else if level == 1 {
            self.one
        } else if level == 2 {
            self.two
        } else if level == 3 {
            self.three
        } else if level == 4 {
            self.four
        } else if level == 5 {
            self.five
        } else {
            None
        }
    }

    /// The fragments granted at `level`: the entry at `level` if present,
    /// otherwise the entry at the nearest lower level, otherwise 0.
    pub open spec fn fragments_at(self, level: int) -> u8
        decreases level + 1,
    {
        if level < 0 {
            0
        } else {
            match self.entry(level) {
                Some(count) => count,
                None => self.fragments_at(level - 1),
            }
        }
    }

    /// Whether the entries that are written down never decrease as the level grows.
    pub open spec fn entries_ascend(self) -> bool {
        forall|low: int, high: int|
            0 <= low <= high <= 5 && self.entry(low) is Some && self.entry(high) is Some
                ==> self.entry(low)->0 <= self.entry(high)->0
    }

    pub fn get_fragments(&self, boss_cells: u8) -> (fragments: u8)
        requires
            boss_cells <= MAX_BOSS_CELLS,
        ensures
            fragments == self.fragments_at(boss_cells as int),
    {
        reveal_with_fuel(ScrollFragments::fragments_at, 7);
        let zero = self.zero;
        let one = if self.one.is_some() { self.one } else { zero };
        let two = if self.two.is_some() { self.two } else { one };
        let three = if self.three.is_some() { self.three } else { two };
        let four = if self.four.is_some() { self.four } else { three };
        let five = if self.five.is_some() { self.five } else { four };
        let found = if boss_cells == 0 {
            zero
        } else if boss_cells == 1 {
            one
        } else if boss_cells == 2 {
            two
        } else if boss_cells == 3 {
            three
        } else if boss_cells == 4 {
            four
        } else {
            five
        };
        match found {
            Some(count) => count,
            None => 0,
        }
    }
}

/// What a level grants is 0 where no entry is written down at or below it,
/// and otherwise the entry at the nearest such level.
pub proof fn lemma_fragments_source(table: ScrollFragments, level: int)
    requires
        0 <= level <= 5,
    ensures
        (forall|below: int| 0 <= below <= level ==> table.entry(below) is None) ==> table.fragments_at(
            level,
        ) == 0,
        (exists|below: int| 0 <= below <= level && table.entry(below) is Some) ==> exists|source: int|
            {
                &&& 0 <= source <= level
                &&& table.entry(source) == Some(table.fragments_at(level))
                &&& forall|between: int| source < between <= level ==> table.entry(between) is None
            },
    decreases level,
{
    if table.entry(level) is Some {
        assert(table.entry(level) == Some(table.fragments_at(level)));
    } else if level > 0 {
        lemma_fragments_source(table, level - 1);
        if exists|below: int| 0 <= below <= level && table.entry(below) is Some {
            let below = choose|below: int| 0 <= below <= level && table.entry(below) is Some;
            assert(0 <= below <= level - 1);
            let source = choose|source: int|
                {
                    &&& 0 <= source <= level - 1
                    &&& table.entry(source) == Some(table.fragments_at(level - 1))
                    &&& forall|between: int|
                        source < between <= level - 1 ==> table.entry(between) is None
                };
            assert(table.entry(source) == Some(table.fragments_at(level)));
        }
    }
}

/// A table whose entries never decrease grants at a higher level at least
/// what it grants at a lower one.
pub proof fn lemma_fragments_ascend(table: ScrollFragments, low: int, high: int)
    requires
        table.entries_ascend(),
        0 <= low <= high <= 5,
    ensures
        table.fragments_at(low) <= table.fragments_at(high),
{
    lemma_fragments_source(table, low);
    lemma_fragments_source(table, high);
    if exists|below: int| 0 <= below <= low && table.entry(below) is Some {
        let from_low = choose|source: int|
            {
                &&& 0 <= source <= low
                &&& table.entry(source) == Some(table.fragments_at(low))
                &&& forall|between: int| source < between <= low ==> table.entry(between) is None
            };
        let from_high = choose|source: int|
            {
                &&& 0 <= source <= high
                &&& table.entry(source) == Some(table.fragments_at(high))
                &&& forall|between: int| source < between <= high ==> table.entry(between) is None
            };
        assert(from_low <= from_high);
    }
}

/// A table with an entry that is lower than one below it grants less at the
/// higher of the two levels than at the lower.
pub proof fn lemma_fragments_descend(table: ScrollFragments)
    requires
        !table.entries_ascend(),
    ensures
        exists|low: int, high: int|
            0 <= low <= high <= 5 && table.fragments_at(low) > table.fragments_at(high),
{
    let (low, high) = choose|low: int, high: int|
        0 <= low <= high <= 5 && table.entry(low) is Some && table.entry(high) is Some && !(
        table.entry(low)->0 <= table.entry(high)->0);
    assert(table.fragments_at(low) == table.entry(low)->0);
    assert(table.fragments_at(high) == table.entry(high)->0);
}

impl Biome {
    /// A copy of the biome.
    pub fn duplicate(&self) -> (copy: Biome)
        ensures
            copy@ == self@,
    {
        let mut exits: Vec<Exit> = Vec::new();
        let mut k: usize = 0;
        while k < self.exits.len()
            invariant
                k <= self.exits.len(),
                exits@ == self.exits@.subrange(0, k as int),
            decreases self.exits.len() - k,
        {
            exits.push(self.exits[k]);
            k += 1;
        }
        assert(exits@ == self.exits@);
        Biome {
            id: self.id,
            name: self.name.clone(),
            row: self.row,
            column: self.column,
            power_scrolls: self.power_scrolls,
            dual_power_scrolls: self.dual_power_scrolls,
            cursed_chest_chance: self.cursed_chest_chance,
            scroll_fragments: self.scroll_fragments,
            gear_level: self.gear_level,
            exits,
            enabled: self.enabled,
        }
    }
}

/// A copy of the biomes, in their order.
pub fn duplicate_biomes(biomes: &Vec<Biome>) -> (copy: Vec<Biome>)
    ensures
        copy.deep_view() == biomes.deep_view(),
{
    let mut copy: Vec<Biome> = Vec::new();
    let mut i: usize = 0;
    while i < biomes.len()
        invariant
            i <= biomes.len(),
            copy.len() == i,
            forall|a: int| 0 <= a < i ==> (#[trigger] copy@[a])@ == biomes@[a]@,
        decreases biomes.len() - i,
    {
        copy.push(biomes[i].duplicate());
        i += 1;
    }
    assert(copy.deep_view() =~= biomes.deep_view());
    copy
}

} // verus!
