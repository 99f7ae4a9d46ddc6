use trpg::{
    default_logic_tile, logic_tile_for_value, mark_reachable_tiles, AuthoredCell,
    GetTileStorageParam, GridPosition, IVec2, LogicTile, ReachableInfo, TileGrid, TilePos,
    TilemapSize, Unit, UnitLogicBundle, UnitRange, UnitSpeed, UnitStats, Units,
};

#[test]
fn terrain_values_are_classified() {
    assert_eq!(logic_tile_for_value(2), LogicTile { can_move: true, move_cost: 2 });
    assert_eq!(logic_tile_for_value(1), LogicTile { can_move: false, move_cost: 0 });
    assert_eq!(logic_tile_for_value(-7), LogicTile { can_move: false, move_cost: 0 });
    assert_eq!(default_logic_tile(), LogicTile { can_move: true, move_cost: 1 });
}

#[test]
fn populating_classifies_authored_cells_and_fills_the_rest() {
    let mut g = TileGrid::new(TilemapSize { x: 3, y: 2 });
    assert_eq!(g.get(TilePos::new(0, 0)), None);
    let cells = vec![
        AuthoredCell { pos: TilePos::new(0, 0), value: 2 },
        AuthoredCell { pos: TilePos::new(1, 0), value: 1 },
        AuthoredCell { pos: TilePos::new(2, 1), value: 1 },
        AuthoredCell { pos: TilePos::new(2, 1), value: 2 },
        AuthoredCell { pos: TilePos::new(9, 9), value: 2 },
    ];
    let indexed: Vec<TilePos> = (0..3)
        .flat_map(|x| (0..2).map(move |y| TilePos::new(x, y)))
        .filter(|p| *p != TilePos::new(1, 1))
        .collect();
    g.populate_logic_tiles(&cells, &indexed);
    assert_eq!(g.get(TilePos::new(0, 0)), Some(LogicTile { can_move: true, move_cost: 2 }));
    assert_eq!(g.get(TilePos::new(1, 0)), Some(LogicTile { can_move: false, move_cost: 0 }));
    assert_eq!(g.get(TilePos::new(2, 1)), Some(LogicTile { can_move: true, move_cost: 2 }));
    assert_eq!(g.get(TilePos::new(2, 0)), Some(LogicTile { can_move: true, move_cost: 1 }));
    assert_eq!(g.get(TilePos::new(0, 1)), Some(LogicTile { can_move: true, move_cost: 1 }));
    assert_eq!(g.get(TilePos::new(1, 1)), None);
    assert_eq!(g.get(TilePos::new(9, 9)), None);
    assert!(g.is_occupiable(TilePos::new(0, 0)));
    assert!(!g.is_occupiable(TilePos::new(1, 0)));
    assert!(!g.is_occupiable(TilePos::new(3, 0)));
}

#[test]
fn populating_keeps_tiles_classified_before() {
    let mut g = TileGrid::new(TilemapSize { x: 2, y: 1 });
    g.set(TilePos::new(1, 0), LogicTile { can_move: true, move_cost: 4 });
    g.populate_logic_tiles(&vec![], &vec![TilePos::new(0, 0), TilePos::new(1, 0)]);
    assert_eq!(g.get(TilePos::new(1, 0)), Some(LogicTile { can_move: true, move_cost: 4 }));
    assert_eq!(g.get(TilePos::new(0, 0)), Some(LogicTile { can_move: true, move_cost: 1 }));
    assert_eq!(g.cell_count(), 2);
}

#[test]
fn a_single_registered_grid_is_used() {
    let none = GetTileStorageParam { tile_storages: vec![] };
    assert!(none.get().is_none());
    let one = GetTileStorageParam { tile_storages: vec![TileGrid::new(TilemapSize { x: 2, y: 2 })] };
    assert_eq!(one.get().unwrap().size(), TilemapSize { x: 2, y: 2 });
    let two = GetTileStorageParam {
        tile_storages: vec![
            TileGrid::new(TilemapSize { x: 1, y: 1 }),
            TileGrid::new(TilemapSize { x: 2, y: 2 }),
        ],
    };
    assert!(two.get().is_none());
}

#[test]
fn annotations_follow_the_selected_unit_and_report_changes() {
    let mut g = TileGrid::new(TilemapSize { x: 5, y: 1 });
    g.populate_logic_tiles(&vec![], &(0..5).map(|x| TilePos::new(x, 0)).collect());
    let mut units = Units::new();
    let e = units.spawn(UnitLogicBundle {
        unit: Unit { initiative: 0, current_hp: 5 },
        unit_stats: UnitStats { max_hp: 5, max_initiative: 5000, base_atk: 3, base_armor: 2 },
        unit_range: UnitRange { valid_ranges: vec![2] },
        unit_speed: UnitSpeed(1),
        grid_position: GridPosition(IVec2::new(0, 0)),
    });
    let mut infos: Vec<(TilePos, ReachableInfo)> = (0..5)
        .map(|x| (TilePos::new(x, 0), ReachableInfo { reachable: false, attack_movable: false }))
        .collect();
    let changed = mark_reachable_tiles(Some(&g), &units, e, &mut infos);
    let flags: Vec<(bool, bool)> = infos.iter().map(|(_, i)| (i.reachable, i.attack_movable)).collect();
    assert_eq!(flags, vec![(true, false), (true, false), (false, true), (false, true), (false, false)]);
    assert_eq!(changed, vec![0, 1, 2, 3]);
    let again = mark_reachable_tiles(Some(&g), &units, e, &mut infos);
    assert!(again.is_empty());
    let cleared = mark_reachable_tiles(None, &units, e, &mut infos);
    assert_eq!(cleared, vec![0, 1, 2, 3]);
    assert!(infos.iter().all(|(_, i)| !i.reachable && !i.attack_movable));
}
