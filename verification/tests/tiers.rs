use biome_paths::graph::{get_biome, get_biomes};
use biome_paths::model::{Biome, Id, RouteError};
use biome_paths::tiers::{filter_reachable_biomes, order_biomes_by_tier};

#[test]
fn test_order_biomes_by_row() {
    let biomes: Vec<Biome> = vec![
        (Id::Prisonquart, 1, 1).into(),
        (Id::Promenade, 2, 1).into(),
        (Id::Toxicsewers, 2, 2).into(),
    ];

    let result = order_biomes_by_tier(biomes);
    let result = result.unwrap();

    let expected: Vec<Vec<Biome>> = vec![
        vec![(Id::Prisonquart, 1, 1).into()],
        vec![(Id::Promenade, 2, 1).into(), (Id::Toxicsewers, 2, 2).into()],
    ];
    assert_eq!(result, expected);
}

#[test]
fn rows_without_biomes_are_left_out() {
    let biomes: Vec<Biome> = vec![
        (Id::Ramparts, 14, 1).into(),
        (Id::Prisonquart, 1, 1).into(),
        (Id::Promenade, 7, 2).into(),
        (Id::Toxicsewers, 7, 1).into(),
    ];
    let result = order_biomes_by_tier(biomes).unwrap();
    let ids: Vec<Vec<Id>> = result.iter().map(|tier| tier.iter().map(|b| b.id).collect()).collect();
    assert_eq!(
        ids,
        vec![vec![Id::Prisonquart], vec![Id::Promenade, Id::Toxicsewers], vec![Id::Ramparts]]
    );
}

#[test]
fn a_row_outside_the_layout_is_malformed() {
    let low: Vec<Biome> = vec![(Id::Prisonquart, 0, 1).into()];
    assert_eq!(order_biomes_by_tier(low), Err(RouteError::MalformedGraph));
    let high: Vec<Biome> = vec![(Id::Prisonquart, 1, 1).into(), (Id::Promenade, 15, 1).into()];
    assert_eq!(order_biomes_by_tier(high), Err(RouteError::MalformedGraph));
    let none: Vec<Biome> = vec![];
    assert_eq!(order_biomes_by_tier(none), Ok(vec![]));
}

#[test]
fn biomes_are_enabled_where_they_are_listed() {
    let biomes: Vec<Biome> = vec![
        (Id::Prisonquart, 1, 1, vec![Id::Promenade], false).into(),
        (Id::Promenade, 2, 1, vec![], true).into(),
        (Id::Toxicsewers, 2, 2, vec![], true).into(),
    ];
    let marked = filter_reachable_biomes(biomes, &vec![Id::Prisonquart, Id::Toxicsewers]);
    let expected: Vec<Biome> = vec![
        (Id::Prisonquart, 1, 1, vec![Id::Promenade], true).into(),
        (Id::Promenade, 2, 1, vec![], false).into(),
        (Id::Toxicsewers, 2, 2, vec![], true).into(),
    ];
    assert_eq!(marked, expected);
}

#[test]
fn lookup_finds_the_biome_or_fails() {
    let biomes: Vec<Biome> = vec![
        (Id::Prisonquart, 1, 1).into(),
        (Id::Promenade, 2, 1).into(),
        (Id::Promenade, 3, 1).into(),
    ];
    assert_eq!(get_biome(&biomes, &Id::Promenade).map(|b| b.row), Ok(2));
    assert_eq!(get_biome(&biomes, &Id::Castle).map(|b| b.row), Err(RouteError::NotFound));
}

#[test]
fn a_graph_is_checked_before_use() {
    let good: Vec<Biome> = vec![
        (Id::Prisonquart, 1, 1, vec![Id::Promenade], true).into(),
        (Id::Promenade, 2, 1, vec![], true).into(),
    ];
    assert_eq!(get_biomes(good.clone()), Ok(good));

    let dangling: Vec<Biome> = vec![
        (Id::Prisonquart, 1, 1, vec![Id::Castle], true).into(),
        (Id::Promenade, 2, 1, vec![], true).into(),
    ];
    assert_eq!(get_biomes(dangling), Err(RouteError::MalformedGraph));

    let rowless: Vec<Biome> = vec![(Id::Prisonquart, vec![]).into()];
    assert_eq!(get_biomes(rowless), Err(RouteError::MalformedGraph));
}
