use biome_paths::edges::{
    add_move, biomes_paths_to_paths, calc_columns, calc_length, calculate_paths_old, draw_edge,
    enabled, find_edge, get_paths_from, RenderablePath,
};
use biome_paths::model::{Biome, Id, RouteError};
use biome_paths::request::{get_biomes_and_paths, Layout};
use biome_paths::routes::{find_paths, ToggleablePath};

fn diamond() -> Vec<Biome> {
    vec![
        (Id::Prisonquart, 1, 1, vec![(Id::Arboretum, 0), (Id::Promenade, 0)]).into(),
        (Id::Arboretum, 2, 1, vec![(Id::Ramparts, 0)]).into(),
        (Id::Promenade, 2, 2, vec![(Id::Ramparts, 0)]).into(),
        (Id::Toxicsewers, 2, 3, vec![]).into(),
        (Id::Ramparts, 3, 1, vec![]).into(),
    ]
}

fn drawn(
    id: &str,
    start_column: u8,
    start_columns: u8,
    end_column: u8,
    end_columns: u8,
    row: u8,
    length: u8,
    enabled: bool,
) -> RenderablePath {
    RenderablePath {
        id: id.to_string(),
        start_column,
        start_column_offset: 0,
        start_columns,
        end_column,
        end_column_offset: 0,
        end_columns,
        row,
        length,
        enabled,
    }
}

fn route(path: Vec<usize>, enabled: bool) -> ToggleablePath {
    ToggleablePath { enabled, path, minimum_boss_cells: 0 }
}

#[test]
fn diamond_reduces_to_four_enabled_edges() {
    let biomes = diamond();
    let paths = find_paths(&biomes, None).unwrap();
    assert_eq!(paths.len(), 2);
    let (edges, reachable) = get_paths_from(&biomes, &paths, &vec![], 0);
    assert_eq!(
        edges,
        vec![
            drawn("prisonquart-arboretum", 1, 1, 1, 3, 1, 1, true),
            drawn("arboretum-ramparts", 1, 3, 1, 1, 2, 1, true),
            drawn("prisonquart-promenade", 1, 1, 2, 3, 1, 1, true),
            drawn("promenade-ramparts", 2, 3, 1, 1, 2, 1, true),
        ]
    );
    assert_eq!(reachable, vec![Id::Prisonquart, Id::Arboretum, Id::Ramparts, Id::Promenade]);
}

#[test]
fn an_edge_is_enabled_if_any_enabled_route_uses_it() {
    let biomes = diamond();
    let (edges, reachable) = biomes_paths_to_paths(
        &biomes,
        vec![route(vec![0, 1, 4], false), route(vec![0, 1], true), route(vec![0, 2, 4], false)],
    );
    assert_eq!(
        edges,
        vec![
            drawn("prisonquart-arboretum", 1, 1, 1, 3, 1, 1, true),
            drawn("arboretum-ramparts", 1, 3, 1, 1, 2, 1, false),
            drawn("prisonquart-promenade", 1, 1, 2, 3, 1, 1, false),
            drawn("promenade-ramparts", 2, 3, 1, 1, 2, 1, false),
        ]
    );
    assert_eq!(reachable, vec![Id::Prisonquart, Id::Arboretum]);
}

#[test]
fn an_enabled_edge_stays_enabled() {
    let biomes = diamond();
    let (edges, reachable) = biomes_paths_to_paths(
        &biomes,
        vec![route(vec![0, 1, 4], true), route(vec![0, 1, 4], false), route(vec![0, 1], false)],
    );
    assert_eq!(
        edges,
        vec![
            drawn("prisonquart-arboretum", 1, 1, 1, 3, 1, 1, true),
            drawn("arboretum-ramparts", 1, 3, 1, 1, 2, 1, true),
        ]
    );
    assert_eq!(reachable, vec![Id::Prisonquart, Id::Arboretum, Id::Ramparts]);
}

#[test]
fn routes_without_moves_reduce_to_nothing() {
    let biomes = diamond();
    let (edges, reachable) = biomes_paths_to_paths(&biomes, vec![]);
    assert_eq!(edges, vec![]);
    assert_eq!(reachable, vec![Id::Prisonquart]);

    let (edges, reachable) =
        biomes_paths_to_paths(&biomes, vec![route(vec![], true), route(vec![2], true)]);
    assert_eq!(edges, vec![]);
    assert_eq!(reachable, vec![Id::Prisonquart]);

    let (edges, reachable) = biomes_paths_to_paths(&vec![], vec![route(vec![], true)]);
    assert_eq!(edges, vec![]);
    assert_eq!(reachable, vec![]);
}

#[test]
fn one_move_at_a_time() {
    let biomes = diamond();
    let mut edges = vec![];
    let mut reachable = vec![Id::Prisonquart];
    add_move(&biomes, &mut edges, &mut reachable, 0, 2, false);
    assert_eq!(edges, vec![drawn("prisonquart-promenade", 1, 1, 2, 3, 1, 1, false)]);
    assert_eq!(reachable, vec![Id::Prisonquart]);
    add_move(&biomes, &mut edges, &mut reachable, 0, 2, true);
    assert_eq!(edges, vec![drawn("prisonquart-promenade", 1, 1, 2, 3, 1, 1, true)]);
    assert_eq!(reachable, vec![Id::Prisonquart, Id::Promenade]);
    add_move(&biomes, &mut edges, &mut reachable, 0, 2, false);
    assert_eq!(edges, vec![drawn("prisonquart-promenade", 1, 1, 2, 3, 1, 1, true)]);
    assert_eq!(reachable, vec![Id::Prisonquart, Id::Promenade]);
    assert_eq!(find_edge(&edges, &"prisonquart-promenade".to_string()), Some(0));
    assert_eq!(find_edge(&edges, &"promenade-prisonquart".to_string()), None);
}

#[test]
fn layout_numbers_are_kept_to_a_byte() {
    let biomes: Vec<Biome> = vec![
        (Id::Prisonquart, 300, 257).into(),
        (Id::Promenade, 1, 2).into(),
        (Id::Ramparts, 300, 256).into(),
    ];
    assert_eq!(calc_columns(&biomes, 300), 2);
    assert_eq!(calc_columns(&biomes, 1), 1);
    assert_eq!(calc_columns(&biomes, 2), 0);
    assert_eq!(calc_length(&biomes[1], &biomes[0]), 43);
    assert_eq!(calc_length(&biomes[0], &biomes[1]), 213);
    assert_eq!(calc_length(&biomes[0], &biomes[2]), 0);
    assert_eq!(draw_edge(&biomes, 0, 1, true), drawn("prisonquart-promenade", 1, 2, 2, 1, 44, 213, true));
    assert_eq!(draw_edge(&biomes, 1, 2, false), drawn("promenade-ramparts", 2, 1, 0, 2, 1, 43, false));
}

#[test]
fn an_edge_is_usable_between_biomes_off_the_blacklist() {
    let blacklist = vec![Id::Castle, Id::Crypt];
    assert!(enabled(&Id::Prisonquart, &Id::Promenade, &blacklist));
    assert!(!enabled(&Id::Castle, &Id::Promenade, &blacklist));
    assert!(!enabled(&Id::Prisonquart, &Id::Crypt, &blacklist));
    assert!(enabled(&Id::Castle, &Id::Crypt, &vec![]));
}

#[test]
fn every_exit_has_its_edge() {
    let biomes: Vec<Biome> = vec![
        (Id::Prisonquart, 1, 1, vec![(Id::Promenade, 0), (Id::Arboretum, 0)]).into(),
        (Id::Arboretum, 2, 1, vec![(Id::Ramparts, 0)]).into(),
        (Id::Promenade, 2, 2, vec![(Id::Ramparts, 0)]).into(),
        (Id::Ramparts, 3, 1, vec![]).into(),
    ];
    assert_eq!(
        calculate_paths_old(&biomes, &vec![Id::Arboretum]),
        Ok(vec![
            drawn("prisonquart-promenade", 1, 1, 2, 2, 1, 1, true),
            drawn("prisonquart-arboretum", 1, 1, 1, 2, 1, 1, false),
            drawn("arboretum-ramparts", 1, 2, 1, 1, 2, 1, false),
            drawn("promenade-ramparts", 2, 2, 1, 1, 2, 1, true),
        ])
    );
    let dangling: Vec<Biome> = vec![(Id::Prisonquart, 1, 1, vec![(Id::Castle, 0)]).into()];
    assert_eq!(calculate_paths_old(&dangling, &vec![]), Err(RouteError::NotFound));
    assert_eq!(calculate_paths_old(&vec![], &vec![]), Ok(vec![]));
}

#[test]
fn a_request_marks_biomes_and_draws_edges() {
    let biomes = diamond();
    let paths = find_paths(&biomes, None).unwrap();
    let (tiers, edges) =
        get_biomes_and_paths(vec![Id::Arboretum], 5, diamond(), &paths).unwrap();
    let marks: Vec<Vec<(Id, bool)>> =
        tiers.iter().map(|tier| tier.iter().map(|b| (b.id, b.enabled)).collect()).collect();
    assert_eq!(
        marks,
        vec![
            vec![(Id::Prisonquart, true)],
            vec![(Id::Arboretum, false), (Id::Promenade, true), (Id::Toxicsewers, false)],
            vec![(Id::Ramparts, true)],
        ]
    );
    assert_eq!(
        edges,
        vec![
            drawn("prisonquart-arboretum", 1, 1, 1, 3, 1, 1, false),
            drawn("arboretum-ramparts", 1, 3, 1, 1, 2, 1, false),
            drawn("prisonquart-promenade", 1, 1, 2, 3, 1, 1, true),
            drawn("promenade-ramparts", 2, 3, 1, 1, 2, 1, true),
        ]
    );

    let rowless: Vec<Biome> = vec![(Id::Prisonquart, vec![]).into()];
    assert_eq!(
        get_biomes_and_paths(vec![], 5, rowless, &vec![]),
        Err(RouteError::MalformedGraph)
    );
}

#[test]
fn a_layout_answers_requests() {
    let layout = Layout::new(diamond()).unwrap();
    assert_eq!(layout.biomes(), &diamond());
    assert_eq!(layout.paths(), &find_paths(&diamond(), None).unwrap());

    let (edges, reachable) = layout.get_paths(&vec![Id::Promenade], 0);
    assert_eq!(
        edges,
        vec![
            drawn("prisonquart-arboretum", 1, 1, 1, 3, 1, 1, true),
            drawn("arboretum-ramparts", 1, 3, 1, 1, 2, 1, true),
            drawn("prisonquart-promenade", 1, 1, 2, 3, 1, 1, false),
            drawn("promenade-ramparts", 2, 3, 1, 1, 2, 1, false),
        ]
    );
    assert_eq!(reachable, vec![Id::Prisonquart, Id::Arboretum, Id::Ramparts]);

    let (tiers, again) = layout.get_biomes_and_paths(vec![Id::Promenade], 0);
    assert_eq!(again, edges);
    let marks: Vec<Vec<(Id, bool)>> =
        tiers.iter().map(|tier| tier.iter().map(|b| (b.id, b.enabled)).collect()).collect();
    assert_eq!(
        marks,
        vec![
            vec![(Id::Prisonquart, true)],
            vec![(Id::Arboretum, true), (Id::Promenade, false), (Id::Toxicsewers, false)],
            vec![(Id::Ramparts, true)],
        ]
    );
}

#[test]
fn a_layout_is_made_of_a_sound_graph_only() {
    assert_eq!(Layout::new(vec![]).err(), Some(RouteError::NotFound));
    let rowless: Vec<Biome> = vec![(Id::Prisonquart, vec![]).into()];
    assert_eq!(Layout::new(rowless).err(), Some(RouteError::MalformedGraph));
    let dangling: Vec<Biome> = vec![(Id::Prisonquart, 1, 1, vec![(Id::Castle, 0)]).into()];
    assert_eq!(Layout::new(dangling).err(), Some(RouteError::MalformedGraph));
}
