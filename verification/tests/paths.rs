use biome_paths::edges::{get_paths_from, RenderablePath};
use biome_paths::model::{Biome, Exit, Id};
use biome_paths::routes::find_paths;

fn ids(biomes: &Vec<Biome>, path: &Vec<usize>) -> Vec<Id> {
    path.iter().map(|index| biomes[*index].id).collect()
}

fn edge(
    id: &str,
    start_column: u8,
    start_columns: u8,
    end_column: u8,
    end_columns: u8,
    row: u8,
    length: u8,
    enabled: bool,
) -> RenderablePath {
    RenderablePath {
        id: id.to_string(),
        start_column,
        start_column_offset: 0,
        start_columns,
        end_column,
        end_column_offset: 0,
        end_columns,
        row,
        length,
        enabled,
    }
}

#[test]
fn calculate_all_paths() {
    let biomes: Vec<Biome> = vec![
        (
            Id::Prisonquart,
            1,
            1,
            vec![
                (Id::Arboretum, 0),
                (Id::Promenade, 0),
                (Id::Toxicsewers, 0),
                (Id::Ossuary, 5),
            ],
        )
            .into(),
        (Id::Arboretum, 2, 1, vec![(Id::Prisondepths, 0)]).into(),
        (
            Id::Promenade,
            2,
            2,
            vec![(Id::Ossuary, 0), (Id::Corruptedprison, 0)],
        )
            .into(),
        (Id::Toxicsewers, 2, 3, vec![]).into(),
        (Id::Prisondepths, 3, 1, vec![(Id::Ossuary, 0)]).into(),
        (Id::Corruptedprison, 3, 2, vec![(Id::Ossuary, 0)]).into(),
        (Id::Ossuary, 4, 1, vec![]).into(),
    ];

    let result = find_paths(&biomes, None).unwrap();
    let (result, _) = get_paths_from(&biomes, &result, &vec![Id::Arboretum], 4);

    assert_eq!(
        result,
        vec![
            edge("prisonquart-arboretum", 1, 1, 1, 3, 1, 1, false),
            edge("arboretum-prisondepths", 1, 3, 1, 2, 2, 1, false),
            edge("prisondepths-ossuary", 1, 2, 1, 1, 3, 1, false),
            edge("prisonquart-promenade", 1, 1, 2, 3, 1, 1, true),
            edge("promenade-corruptedprison", 2, 3, 2, 2, 2, 1, true),
            edge("corruptedprison-ossuary", 2, 2, 1, 1, 3, 1, true),
            edge("promenade-ossuary", 2, 3, 1, 1, 2, 2, true),
            edge("prisonquart-ossuary", 1, 1, 1, 1, 1, 3, false),
        ]
    );
}

#[test]
fn find_path_between_nodes() {
    let input: Vec<Biome> = vec![
        (Id::Prisonquart, vec![Id::Corruptedprison, Id::Bridge]).into(),
        (Id::Corruptedprison, vec![]).into(),
        (Id::Bridge, vec![Id::Throne, Id::Slumbering]).into(),
        (Id::Slumbering, vec![Id::Throne]).into(),
        (Id::Throne, vec![]).into(),
    ];

    let paths = find_paths(&input, None);
    assert!(paths.is_ok());
    let paths = paths.unwrap();

    let paths_string: Vec<Vec<Id>> = paths.iter().map(|path| ids(&input, &path.path)).collect();

    assert_eq!(
        paths_string,
        vec![
            vec![Id::Prisonquart, Id::Bridge, Id::Slumbering, Id::Throne],
            vec![Id::Prisonquart, Id::Bridge, Id::Throne]
        ]
    );
}

#[test]
fn biome_from_tuple() {
    let biome: Biome = (Id::Prisonquart, vec![Id::Castle, Id::Crypt]).into();

    let expected = Biome {
        id: Id::Prisonquart,
        name: Id::Prisonquart.to_string(),
        row: 0,
        column: 0,
        power_scrolls: 0,
        dual_power_scrolls: 0,
        cursed_chest_chance: 0,
        scroll_fragments: Default::default(),
        gear_level: 0,
        exits: vec![
            Exit {
                destination: Id::Castle,
                boss_cell_requirement: None,
                power_scrolls: None,
            },
            Exit {
                destination: Id::Crypt,
                boss_cell_requirement: None,
                power_scrolls: None,
            },
        ],
        enabled: true,
    };

    assert_eq!(biome, expected);
}
