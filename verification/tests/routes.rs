use biome_paths::filter::{apply_blacklist_and_boss_cells, paths_in_graph};
use biome_paths::model::{Biome, BossCells, Exit, Id, RouteError};
use biome_paths::routes::{contains_and_required_boss_cells, find_paths, ToggleablePath};
use biome_paths::scoring::get_path_with_most_scrolls;

fn diamond() -> Vec<Biome> {
    vec![
        (Id::Prisonquart, 1, 1, vec![(Id::Arboretum, 0), (Id::Promenade, 0)]).into(),
        (Id::Arboretum, 2, 1, vec![(Id::Ramparts, 0)]).into(),
        (Id::Promenade, 2, 2, vec![(Id::Ramparts, 0)]).into(),
        (Id::Toxicsewers, 2, 3, vec![]).into(),
        (Id::Ramparts, 3, 1, vec![]).into(),
    ]
}

fn gated() -> Vec<Biome> {
    vec![
        (
            Id::Prisonquart,
            1,
            1,
            vec![(Id::Arboretum, 0), (Id::Promenade, 2), (Id::Toxicsewers, 0), (Id::Ossuary, 5)],
        )
            .into(),
        (Id::Arboretum, 2, 1, vec![(Id::Prisondepths, 1)]).into(),
        (Id::Promenade, 2, 2, vec![(Id::Ossuary, 0), (Id::Corruptedprison, 1)]).into(),
        (Id::Toxicsewers, 2, 3, vec![]).into(),
        (Id::Prisondepths, 3, 1, vec![(Id::Ossuary, 3)]).into(),
        (Id::Corruptedprison, 3, 2, vec![(Id::Ossuary, 0)]).into(),
        (Id::Ossuary, 4, 1, vec![]).into(),
    ]
}

fn shape(paths: &Vec<ToggleablePath>) -> Vec<(Vec<usize>, u8, bool)> {
    paths.iter().map(|p| (p.path.clone(), p.minimum_boss_cells, p.enabled)).collect()
}

#[test]
fn diamond_has_two_enabled_routes() {
    let biomes = diamond();
    let paths = find_paths(&biomes, None).unwrap();
    assert_eq!(shape(&paths), vec![(vec![0, 1, 4], 0, true), (vec![0, 2, 4], 0, true)]);

    let filtered = apply_blacklist_and_boss_cells(&biomes, &paths, &vec![], 0);
    assert_eq!(shape(&filtered), vec![(vec![0, 1, 4], 0, true), (vec![0, 2, 4], 0, true)]);
}

#[test]
fn routes_carry_the_most_cells_of_their_exits() {
    let biomes = gated();
    let paths = find_paths(&biomes, None).unwrap();
    assert_eq!(
        shape(&paths),
        vec![
            (vec![0, 1, 4, 6], 3, true),
            (vec![0, 2, 5, 6], 2, true),
            (vec![0, 2, 6], 2, true),
            (vec![0, 6], 5, true),
        ]
    );
}

#[test]
fn routes_to_a_chosen_destination() {
    let biomes = gated();
    let paths = find_paths(&biomes, Some(Id::Corruptedprison)).unwrap();
    assert_eq!(shape(&paths), vec![(vec![0, 2, 5], 2, true)]);

    let paths = find_paths(&biomes, Some(Id::Prisonquart)).unwrap();
    assert_eq!(shape(&paths), vec![(vec![0], 0, true)]);

    let paths = find_paths(&biomes, Some(Id::Castle)).unwrap();
    assert_eq!(shape(&paths), vec![]);

    let paths = find_paths(&biomes, Some(Id::Toxicsewers)).unwrap();
    assert_eq!(shape(&paths), vec![(vec![0, 3], 0, true)]);
}

#[test]
fn a_graph_without_biomes_has_no_entry() {
    let biomes: Vec<Biome> = vec![];
    assert_eq!(find_paths(&biomes, None), Err(RouteError::NotFound));
    assert_eq!(find_paths(&biomes, Some(Id::Castle)), Err(RouteError::NotFound));
}

#[test]
fn a_cycle_is_walked_once() {
    let biomes: Vec<Biome> = vec![
        (Id::Prisonquart, 1, 1, vec![(Id::Arboretum, 0)]).into(),
        (Id::Arboretum, 2, 1, vec![(Id::Promenade, 0), (Id::Prisonquart, 0)]).into(),
        (Id::Promenade, 2, 2, vec![(Id::Arboretum, 4), (Id::Ramparts, 1)]).into(),
        (Id::Ramparts, 3, 1, vec![(Id::Prisonquart, 0)]).into(),
    ];
    let paths = find_paths(&biomes, None).unwrap();
    assert_eq!(shape(&paths), vec![(vec![0, 1, 2, 3], 1, true)]);
}

#[test]
fn the_first_exit_to_a_biome_sets_its_cells() {
    let exits = vec![
        Exit::from((Id::Castle, 2)),
        Exit::from(Id::Crypt),
        Exit::from((Id::Castle, 4)),
        Exit::from((Id::Crypt, 3)),
    ];
    assert_eq!(contains_and_required_boss_cells(&exits, &Id::Castle), (true, 2));
    assert_eq!(contains_and_required_boss_cells(&exits, &Id::Crypt), (true, 0));
    assert_eq!(contains_and_required_boss_cells(&exits, &Id::Throne), (false, 0));
    assert_eq!(contains_and_required_boss_cells(&vec![], &Id::Throne), (false, 0));
}

#[test]
fn raising_the_cells_of_a_route_keeps_the_larger() {
    let mut path = ToggleablePath { enabled: true, path: vec![0, 1], minimum_boss_cells: 2 };
    path.update_minimum_boss_cells(1);
    assert_eq!(path.minimum_boss_cells, 2);
    path.update_minimum_boss_cells(4);
    assert_eq!(path.minimum_boss_cells, 4);
    assert_eq!(path.path, vec![0, 1]);
    assert!(path.enabled);
    assert_eq!(path.duplicate(), path);
}

#[test]
fn the_filter_keeps_every_route_and_marks_it() {
    let biomes = gated();
    let paths = find_paths(&biomes, None).unwrap();

    let filtered = apply_blacklist_and_boss_cells(&biomes, &paths, &vec![Id::Arboretum], 4);
    assert_eq!(
        shape(&filtered),
        vec![
            (vec![0, 1, 4, 6], 3, false),
            (vec![0, 2, 5, 6], 2, true),
            (vec![0, 2, 6], 2, true),
            (vec![0, 6], 5, false),
        ]
    );

    let filtered = apply_blacklist_and_boss_cells(&biomes, &paths, &vec![], 2);
    assert_eq!(
        shape(&filtered),
        vec![
            (vec![0, 1, 4, 6], 3, false),
            (vec![0, 2, 5, 6], 2, true),
            (vec![0, 2, 6], 2, true),
            (vec![0, 6], 5, false),
        ]
    );

    let filtered = apply_blacklist_and_boss_cells(&biomes, &paths, &vec![Id::Ossuary], 5);
    assert_eq!(filtered.len(), 4);
    assert!(filtered.iter().all(|p| !p.enabled));

    let again = apply_blacklist_and_boss_cells(&biomes, &filtered, &vec![], 5);
    assert!(again.iter().all(|p| p.enabled));
}

#[test]
fn excluding_the_only_way_leaves_no_route() {
    let biomes: Vec<Biome> = vec![
        (Id::Prisonquart, 1, 1, vec![(Id::Promenade, 0)]).into(),
        (Id::Promenade, 2, 1, vec![(Id::Ramparts, 0)]).into(),
        (Id::Ramparts, 3, 1, vec![]).into(),
    ];
    let paths = find_paths(&biomes, None).unwrap();
    assert_eq!(paths.len(), 1);

    let filtered = apply_blacklist_and_boss_cells(&biomes, &paths, &vec![Id::Promenade], 5);
    assert_eq!(shape(&filtered), vec![(vec![0, 1, 2], 0, false)]);

    let enabled: Vec<ToggleablePath> = filtered.into_iter().filter(|p| p.enabled).collect();
    assert_eq!(enabled.len(), 0);
    let best = get_path_with_most_scrolls(&biomes, &enabled, BossCells::Five, false);
    assert_eq!(best, Err(RouteError::EmptyInput));
}

#[test]
fn routes_are_held_against_the_graph() {
    let biomes = diamond();
    let paths = find_paths(&biomes, None).unwrap();
    assert!(paths_in_graph(&biomes, &paths));
    let stray = vec![ToggleablePath { enabled: true, path: vec![0, 5], minimum_boss_cells: 0 }];
    assert!(!paths_in_graph(&biomes, &stray));
    assert!(paths_in_graph(&biomes, &vec![]));
}

#[test]
fn every_route_leads_from_the_entry_to_the_destination() {
    let biomes = gated();
    for destination in [Id::Ossuary, Id::Corruptedprison, Id::Prisondepths, Id::Promenade] {
        let paths = find_paths(&biomes, Some(destination)).unwrap();
        assert!(!paths.is_empty());
        for path in &paths {
            assert_eq!(path.path[0], 0);
            assert_eq!(biomes[*path.path.last().unwrap()].id, destination);
            let before_last = &path.path[..path.path.len() - 1];
            assert!(before_last.iter().all(|index| biomes[*index].id != destination));
            let mut seen = path.path.clone();
            seen.sort();
            seen.dedup();
            assert_eq!(seen.len(), path.path.len());
        }
    }
    let to_the_last = find_paths(&biomes, None).unwrap();
    let to_ossuary = find_paths(&biomes, Some(Id::Ossuary)).unwrap();
    assert_eq!(to_the_last, to_ossuary);
}
