use std::collections::HashSet;

use trpg::{
    get_attackable_tiles, get_range_offsets, get_reachable_tiles, reachable_tiles_from,
    square_neighbors, Entity, GridPosition, IVec2, LogicTile, TileGrid, TilePos, TilemapSize,
    Unit, UnitLogicBundle, UnitRange, UnitSpeed, UnitStats, Units,
};

fn test_range_offsets(range: u32) {
    let range_offsets: HashSet<IVec2> = get_range_offsets(range).into_iter().collect();
    let ri = range as i32;

    let mut expected_offsets = HashSet::new();
    for x in -ri..(ri + 1) {
        for y in -ri..(ri + 1) {
            if x.abs() + y.abs() == ri {
                expected_offsets.insert(IVec2::new(x, y));
            }
        }
    }
    assert_eq!(range_offsets, expected_offsets);
}

#[test]
fn get_range_offsets_returns_correct_values() {
    for r in 0..5 {
        test_range_offsets(r);
    }
}

fn open_grid(w: u32, h: u32) -> TileGrid {
    let mut g = TileGrid::new(TilemapSize { x: w, y: h });
    for y in 0..h {
        for x in 0..w {
            g.set(TilePos::new(x, y), LogicTile { can_move: true, move_cost: 1 });
        }
    }
    g
}

fn set_of(v: Vec<TilePos>) -> HashSet<(u32, u32)> {
    v.into_iter().map(|p| (p.x, p.y)).collect()
}

fn bundle(x: i32, y: i32, speed: u32, ranges: Vec<u32>) -> UnitLogicBundle {
    UnitLogicBundle {
        unit: Unit { initiative: 5000, current_hp: 5 },
        unit_stats: UnitStats { max_hp: 5, max_initiative: 5000, base_atk: 3, base_armor: 2 },
        unit_range: UnitRange { valid_ranges: ranges },
        unit_speed: UnitSpeed(speed),
        grid_position: GridPosition(IVec2::new(x, y)),
    }
}

#[test]
fn range_offsets_have_no_duplicates_and_diamond_size() {
    assert_eq!(get_range_offsets(0), vec![IVec2::new(0, 0)]);
    for r in 1..6u32 {
        let v = get_range_offsets(r);
        assert_eq!(v.len(), 4 * r as usize);
        let s: HashSet<IVec2> = v.into_iter().collect();
        assert_eq!(s.len(), 4 * r as usize);
    }
}

#[test]
fn neighbors_stay_inside_the_map() {
    let size = TilemapSize { x: 3, y: 2 };
    assert_eq!(set_of(square_neighbors(TilePos::new(0, 0), size)), [(1, 0), (0, 1)].into_iter().collect());
    assert_eq!(
        set_of(square_neighbors(TilePos::new(1, 1), size)),
        [(0, 1), (2, 1), (1, 0)].into_iter().collect()
    );
    assert!(square_neighbors(TilePos::new(7, 7), size).is_empty());
}

#[test]
fn mixed_cost_corridor_scenario() {
    let mut g = TileGrid::new(TilemapSize { x: 4, y: 1 });
    g.set(TilePos::new(0, 0), LogicTile { can_move: true, move_cost: 1 });
    g.set(TilePos::new(1, 0), LogicTile { can_move: true, move_cost: 1 });
    g.set(TilePos::new(2, 0), LogicTile { can_move: true, move_cost: 2 });
    g.set(TilePos::new(3, 0), LogicTile { can_move: false, move_cost: 0 });
    let mut units = Units::new();
    let e = units.spawn(bundle(0, 0, 3, vec![1]));
    let r = get_reachable_tiles(Some(&g), &units, e).unwrap();
    assert_eq!(set_of(r), [(0, 0), (1, 0), (2, 0)].into_iter().collect());
}

#[test]
fn a_further_step_past_the_budget_is_refused() {
    let mut g = TileGrid::new(TilemapSize { x: 4, y: 1 });
    g.set(TilePos::new(0, 0), LogicTile { can_move: true, move_cost: 1 });
    g.set(TilePos::new(1, 0), LogicTile { can_move: true, move_cost: 1 });
    g.set(TilePos::new(2, 0), LogicTile { can_move: true, move_cost: 2 });
    g.set(TilePos::new(3, 0), LogicTile { can_move: true, move_cost: 1 });
    let r = reachable_tiles_from(&g, TilePos::new(0, 0), 3);
    assert_eq!(set_of(r), [(0, 0), (1, 0), (2, 0)].into_iter().collect());
    let r = reachable_tiles_from(&g, TilePos::new(0, 0), 4);
    assert_eq!(set_of(r), [(0, 0), (1, 0), (2, 0), (3, 0)].into_iter().collect());
}

#[test]
fn cheaper_detour_wins_over_expensive_direct_step() {
    // Row 0: start, mud (cost 2), goal; row 1: open ground all along.
    let mut g = open_grid(3, 2);
    g.set(TilePos::new(1, 0), LogicTile { can_move: true, move_cost: 5 });
    let r = set_of(reachable_tiles_from(&g, TilePos::new(0, 0), 4));
    assert!(r.contains(&(2, 0)));
    assert!(!r.contains(&(1, 0)));
    assert_eq!(r.len(), 5);
}

#[test]
fn speed_zero_reaches_only_the_start() {
    let g = open_grid(5, 5);
    let r = reachable_tiles_from(&g, TilePos::new(2, 2), 0);
    assert_eq!(r, vec![TilePos::new(2, 2)]);
}

#[test]
fn start_is_reachable_even_on_a_wall_or_off_the_map() {
    let mut g = open_grid(3, 3);
    g.set(TilePos::new(1, 1), LogicTile { can_move: false, move_cost: 0 });
    let r = set_of(reachable_tiles_from(&g, TilePos::new(1, 1), 1));
    assert_eq!(r, [(1, 1), (0, 1), (2, 1), (1, 0), (1, 2)].into_iter().collect());
    let r = reachable_tiles_from(&g, TilePos::new(40, 40), 9);
    assert_eq!(r, vec![TilePos::new(40, 40)]);
}

#[test]
fn more_speed_never_shrinks_the_reachable_set() {
    let mut g = open_grid(6, 6);
    g.set(TilePos::new(2, 2), LogicTile { can_move: false, move_cost: 0 });
    g.set(TilePos::new(3, 1), LogicTile { can_move: true, move_cost: 2 });
    let mut prev: HashSet<(u32, u32)> = HashSet::new();
    for speed in 0..12 {
        let r = set_of(reachable_tiles_from(&g, TilePos::new(1, 1), speed));
        assert!(prev.is_subset(&r));
        prev = r;
    }
    assert_eq!(prev.len(), 35);
}

#[test]
fn recomputing_gives_identical_sets() {
    let g = open_grid(4, 4);
    let a = set_of(reachable_tiles_from(&g, TilePos::new(1, 2), 2));
    let b = set_of(reachable_tiles_from(&g, TilePos::new(1, 2), 2));
    assert_eq!(a, b);
    let r = reachable_tiles_from(&g, TilePos::new(1, 2), 2);
    let x = set_of(get_attackable_tiles(&r, &vec![1, 3]));
    let y = set_of(get_attackable_tiles(&r, &vec![1, 3]));
    assert_eq!(x, y);
}

#[test]
fn unknown_unit_or_missing_grid_gives_none() {
    let g = open_grid(2, 2);
    let mut units = Units::new();
    let e = units.spawn(bundle(0, 0, 1, vec![1]));
    assert!(get_reachable_tiles(None, &units, e).is_none());
    assert!(get_reachable_tiles(Some(&g), &units, Entity(7)).is_none());
    units.despawn(e);
    assert!(get_reachable_tiles(Some(&g), &units, e).is_none());
}

#[test]
fn attack_diamond_scenario() {
    let reachable = vec![TilePos::new(5, 5)];
    let a = set_of(get_attackable_tiles(&reachable, &vec![2]));
    let expected: HashSet<(u32, u32)> =
        [(5, 3), (5, 7), (3, 5), (7, 5), (4, 4), (4, 6), (6, 4), (6, 6)].into_iter().collect();
    assert_eq!(a, expected);
    assert!(!a.contains(&(5, 5)));
    for p in [(5, 4), (5, 6), (4, 5), (6, 5)] {
        assert!(!a.contains(&p));
    }
}

#[test]
fn range_zero_projects_onto_the_reachable_set() {
    let g = open_grid(4, 4);
    let r = reachable_tiles_from(&g, TilePos::new(1, 1), 2);
    let a = get_attackable_tiles(&r, &vec![0]);
    assert_eq!(set_of(a), set_of(r));
}

#[test]
fn attack_positions_below_zero_are_dropped() {
    let a = set_of(get_attackable_tiles(&vec![TilePos::new(0, 0)], &vec![1]));
    assert_eq!(a, [(1, 0), (0, 1)].into_iter().collect());
    let a = get_attackable_tiles(&vec![TilePos::new(u32::MAX, 0)], &vec![1]);
    assert_eq!(set_of(a), [(u32::MAX - 1, 0), (u32::MAX, 1)].into_iter().collect());
}

#[test]
fn no_ranges_or_no_tiles_attack_nothing() {
    assert!(get_attackable_tiles(&vec![TilePos::new(3, 3)], &vec![]).is_empty());
    assert!(get_attackable_tiles(&vec![], &vec![1, 2]).is_empty());
}

#[test]
fn a_tile_can_be_both_reachable_and_attack_movable() {
    let g = open_grid(5, 1);
    let r = reachable_tiles_from(&g, TilePos::new(0, 0), 2);
    let a = set_of(get_attackable_tiles(&r, &vec![2]));
    let r = set_of(r);
    assert!(r.contains(&(2, 0)) && a.contains(&(2, 0)));
    assert!(!r.contains(&(4, 0)) && a.contains(&(4, 0)));
    assert!(a.contains(&(0, 0)));
}

#[test]
fn a_unit_left_of_the_map_borders_its_edge() {
    let g = open_grid(3, 1);
    let mut units = Units::new();
    let e = units.spawn(bundle(-1, 0, 1, vec![1]));
    let r = set_of(get_reachable_tiles(Some(&g), &units, e).unwrap());
    assert_eq!(r, [(u32::MAX, 0), (0, 0)].into_iter().collect());
}
