use biome_paths::model::{Biome, BossCells, Exit, Id, RouteError, ScrollFragments};
use biome_paths::routes::{find_paths, ToggleablePath};
use biome_paths::scoring::{
    calculate_collectibles_from_cursed_chests, calculate_collectibles_from_fragments,
    calculate_scrolls, calculate_scrolls_from_cursed_chests, get_path_with_most_scrolls,
    sum_collectibles_for_path,
};

fn stocked(
    id: Id,
    row: usize,
    exits: Vec<Id>,
    power_scrolls: u8,
    dual_power_scrolls: u8,
    cursed_chest_chance: u8,
    scroll_fragments: ScrollFragments,
) -> Biome {
    Biome {
        id,
        name: id.to_string(),
        row,
        column: 1,
        power_scrolls,
        dual_power_scrolls,
        cursed_chest_chance,
        scroll_fragments,
        gear_level: 0,
        exits: exits.into_iter().map(Exit::from).collect(),
        enabled: true,
    }
}

fn table(one: Option<u8>, three: Option<u8>) -> ScrollFragments {
    ScrollFragments { zero: None, one, two: None, three, four: None, five: None }
}

#[test]
fn test_update_collectibes_with_scrolls_from_scroll_fragments() {
    let input = (10, 0, 5, 0);
    let result = calculate_collectibles_from_fragments(input);

    assert_eq!(result, (11, 0, 1, 0))
}

#[test]
fn test_calculate_collectibles_from_cursed_chests() {
    let input = (10, 0, 0, 190);
    let result = calculate_collectibles_from_cursed_chests(input);

    assert_eq!(result, (11, 0, 0, 90))
}

#[test]
fn chest_chances_round_to_the_nearest_scroll() {
    assert_eq!(calculate_scrolls_from_cursed_chests(0), 0);
    assert_eq!(calculate_scrolls_from_cursed_chests(49), 0);
    assert_eq!(calculate_scrolls_from_cursed_chests(50), 1);
    assert_eq!(calculate_scrolls_from_cursed_chests(100), 1);
    assert_eq!(calculate_scrolls_from_cursed_chests(149), 1);
    assert_eq!(calculate_scrolls_from_cursed_chests(150), 2);
    assert_eq!(calculate_scrolls_from_cursed_chests(190), 2);
    assert_eq!(calculate_scrolls_from_cursed_chests(65535), 655);
}

#[test]
fn chests_of_forty_and_sixty_percent_count_as_one_scroll() {
    let biomes = vec![
        stocked(Id::Prisonquart, 1, vec![Id::Promenade], 0, 0, 40, ScrollFragments::default()),
        stocked(Id::Promenade, 2, vec![], 0, 0, 60, ScrollFragments::default()),
    ];
    let path = vec![0, 1];
    assert_eq!(sum_collectibles_for_path(&biomes, &path, &BossCells::Zero), (0, 0, 0, 100));
    assert_eq!(calculate_scrolls(&biomes, &path, &BossCells::Zero, true), 1);
}

#[test]
fn chest_chances_are_summed_before_they_are_rounded() {
    let biomes = vec![
        stocked(Id::Prisonquart, 1, vec![Id::Promenade], 0, 0, 30, ScrollFragments::default()),
        stocked(Id::Promenade, 2, vec![Id::Ramparts], 0, 0, 30, ScrollFragments::default()),
        stocked(Id::Ramparts, 3, vec![], 0, 0, 30, ScrollFragments::default()),
    ];
    assert_eq!(calculate_scrolls(&biomes, &vec![0, 1, 2], &BossCells::Zero, false), 1);
    assert_eq!(calculate_scrolls(&biomes, &vec![0], &BossCells::Zero, false), 0);
}

#[test]
fn score_adds_scrolls_fragments_and_chests() {
    let biomes = vec![
        stocked(Id::Prisonquart, 1, vec![Id::Promenade], 2, 1, 40, table(Some(3), Some(6))),
        stocked(Id::Promenade, 2, vec![], 3, 2, 70, table(None, Some(3))),
    ];
    let path = vec![0, 1];
    assert_eq!(sum_collectibles_for_path(&biomes, &path, &BossCells::Zero), (5, 3, 0, 110));
    assert_eq!(sum_collectibles_for_path(&biomes, &path, &BossCells::Two), (5, 3, 3, 110));
    assert_eq!(sum_collectibles_for_path(&biomes, &path, &BossCells::Five), (5, 3, 9, 110));
    // 5 scrolls, 9 fragments make 2, chances of 110 percent make 1
    assert_eq!(calculate_scrolls(&biomes, &path, &BossCells::Five, false), 8);
    assert_eq!(calculate_scrolls(&biomes, &path, &BossCells::Five, true), 11);
    assert_eq!(calculate_scrolls(&biomes, &path, &BossCells::Two, false), 6);
    assert_eq!(calculate_scrolls(&biomes, &vec![], &BossCells::Five, true), 0);
}

#[test]
fn scoring_twice_gives_the_same_score() {
    let biomes = vec![
        stocked(Id::Prisonquart, 1, vec![Id::Promenade], 2, 1, 40, table(Some(3), Some(6))),
        stocked(Id::Promenade, 2, vec![], 3, 2, 70, table(None, Some(3))),
    ];
    let path = vec![0, 1];
    let first = calculate_scrolls(&biomes, &path, &BossCells::Three, true);
    let second = calculate_scrolls(&biomes, &path, &BossCells::Three, true);
    assert_eq!(first, second);
    assert_eq!(first, 11);
}

#[test]
fn best_route_is_the_first_with_the_highest_score() {
    let biomes = vec![
        stocked(Id::Prisonquart, 1, vec![Id::Promenade, Id::Toxicsewers, Id::Arboretum], 1, 0, 0, ScrollFragments::default()),
        stocked(Id::Arboretum, 2, vec![Id::Ramparts], 1, 0, 0, ScrollFragments::default()),
        stocked(Id::Promenade, 2, vec![Id::Ramparts], 4, 0, 0, ScrollFragments::default()),
        stocked(Id::Toxicsewers, 2, vec![Id::Ramparts], 4, 3, 0, ScrollFragments::default()),
        stocked(Id::Ramparts, 3, vec![], 2, 0, 0, ScrollFragments::default()),
    ];
    let paths = find_paths(&biomes, None).unwrap();
    assert_eq!(paths.len(), 3);

    let (scrolls, path) = get_path_with_most_scrolls(&biomes, &paths, BossCells::Five, false).unwrap();
    assert_eq!(scrolls, 7);
    assert_eq!(path.path, vec![0, 2, 4]);

    let (scrolls, path) = get_path_with_most_scrolls(&biomes, &paths, BossCells::Five, true).unwrap();
    assert_eq!(scrolls, 10);
    assert_eq!(path.path, vec![0, 3, 4]);
}

#[test]
fn no_routes_have_no_best_route() {
    let biomes = vec![stocked(Id::Prisonquart, 1, vec![], 1, 0, 0, ScrollFragments::default())];
    let paths: Vec<ToggleablePath> = vec![];
    let best = get_path_with_most_scrolls(&biomes, &paths, BossCells::One, false);
    assert_eq!(best, Err(RouteError::EmptyInput));
}
