use trpg::{
    apply_valid_attacks, apply_valid_turns, resolve_turns, validate_turn, validate_turns, Entity,
    GridPosition, IVec2, LogicTile, TileGrid, TilePos, TilemapSize, Unit, UnitAction,
    UnitLogicBundle, UnitRange, UnitSpeed, UnitStats, UnitTurn, Units,
};

fn open_grid(w: u32, h: u32) -> TileGrid {
    let mut g = TileGrid::new(TilemapSize { x: w, y: h });
    for y in 0..h {
        for x in 0..w {
            g.set(TilePos::new(x, y), LogicTile { can_move: true, move_cost: 1 });
        }
    }
    g
}

fn bundle(x: i32, y: i32, initiative: u32, hp: u32, atk: u32) -> UnitLogicBundle {
    UnitLogicBundle {
        unit: Unit { initiative, current_hp: hp },
        unit_stats: UnitStats { max_hp: 10, max_initiative: 5000, base_atk: atk, base_armor: 2 },
        unit_range: UnitRange { valid_ranges: vec![1] },
        unit_speed: UnitSpeed(3),
        grid_position: GridPosition(IVec2::new(x, y)),
    }
}

fn snapshot(units: &Units, e: Entity) -> (IVec2, u32, u32) {
    let b = units.get(e).unwrap();
    (b.grid_position.0, b.unit.initiative, b.unit.current_hp)
}

fn turn(unit: Entity, start: (i32, i32), end: (i32, i32), action: UnitAction) -> UnitTurn {
    UnitTurn {
        unit,
        start_position: IVec2::new(start.0, start.1),
        end_position: IVec2::new(end.0, end.1),
        action,
    }
}

#[test]
fn damage_saturates_at_zero() {
    let g = open_grid(5, 5);
    let mut units = Units::new();
    let a = units.spawn(bundle(1, 1, 5000, 10, 5));
    let t = units.spawn(bundle(3, 1, 0, 2, 1));
    let applied = resolve_turns(
        Some(&g),
        &mut units,
        &vec![turn(a, (1, 1), (2, 1), UnitAction::Attack { target: t })],
    );
    assert_eq!(applied.len(), 1);
    assert_eq!(snapshot(&units, t).2, 0);
    assert_eq!(snapshot(&units, a), (IVec2::new(2, 1), 0, 10));
}

#[test]
fn exact_damage_is_subtracted() {
    let g = open_grid(5, 5);
    let mut units = Units::new();
    let a = units.spawn(bundle(1, 1, 5000, 10, 3));
    let t = units.spawn(bundle(3, 1, 0, 7, 1));
    resolve_turns(
        Some(&g),
        &mut units,
        &vec![turn(a, (1, 1), (1, 1), UnitAction::Attack { target: t })],
    );
    assert_eq!(snapshot(&units, t), (IVec2::new(3, 1), 0, 4));
    assert_eq!(snapshot(&units, a), (IVec2::new(1, 1), 0, 10));
}

#[test]
fn stale_start_is_rejected_without_effect() {
    let g = open_grid(5, 5);
    let mut units = Units::new();
    let a = units.spawn(bundle(1, 1, 5000, 10, 5));
    let t = units.spawn(bundle(3, 1, 0, 2, 1));
    let before = (snapshot(&units, a), snapshot(&units, t));
    let proposal = turn(a, (0, 1), (2, 1), UnitAction::Attack { target: t });
    assert!(validate_turn(Some(&g), &units, &proposal).is_none());
    let applied = resolve_turns(Some(&g), &mut units, &vec![proposal]);
    assert!(applied.is_empty());
    assert_eq!((snapshot(&units, a), snapshot(&units, t)), before);
}

#[test]
fn uncharged_actor_is_rejected() {
    let g = open_grid(5, 5);
    let mut units = Units::new();
    let a = units.spawn(bundle(1, 1, 4999, 10, 5));
    let proposal = turn(a, (1, 1), (2, 1), UnitAction::Wait);
    assert!(validate_turn(Some(&g), &units, &proposal).is_none());
    let applied = resolve_turns(Some(&g), &mut units, &vec![proposal]);
    assert!(applied.is_empty());
    assert_eq!(snapshot(&units, a), (IVec2::new(1, 1), 4999, 10));
}

#[test]
fn unreachable_destination_missing_grid_or_unknown_actor_is_rejected() {
    let g = open_grid(10, 10);
    let mut units = Units::new();
    let a = units.spawn(bundle(1, 1, 5000, 10, 5));
    let far = turn(a, (1, 1), (8, 8), UnitAction::Wait);
    assert!(validate_turn(Some(&g), &units, &far).is_none());
    let near = turn(a, (1, 1), (3, 2), UnitAction::Wait);
    assert!(validate_turn(None, &units, &near).is_none());
    let ghost = turn(Entity(9), (1, 1), (3, 2), UnitAction::Wait);
    assert!(validate_turn(Some(&g), &units, &ghost).is_none());
    let negative = turn(a, (1, 1), (-1, 1), UnitAction::Wait);
    assert!(validate_turn(Some(&g), &units, &negative).is_none());
}

#[test]
fn valid_move_is_carried_unchanged() {
    let g = open_grid(10, 10);
    let mut units = Units::new();
    let a = units.spawn(bundle(1, 1, 5000, 10, 5));
    let near = turn(a, (1, 1), (3, 2), UnitAction::Wait);
    let v = validate_turn(Some(&g), &units, &near).unwrap();
    assert_eq!(v.turn(), near);
}

#[test]
fn waiting_in_place_is_valid() {
    let g = open_grid(3, 3);
    let mut units = Units::new();
    let a = units.spawn(bundle(1, 1, 5000, 10, 5));
    let stay = turn(a, (1, 1), (1, 1), UnitAction::Wait);
    let applied = resolve_turns(Some(&g), &mut units, &vec![stay]);
    assert_eq!(applied.len(), 1);
    assert_eq!(snapshot(&units, a), (IVec2::new(1, 1), 0, 10));
}

#[test]
fn batch_keeps_only_valid_proposals_in_order() {
    let g = open_grid(6, 6);
    let mut units = Units::new();
    let a = units.spawn(bundle(0, 0, 5000, 10, 1));
    let b = units.spawn(bundle(5, 5, 5000, 10, 1));
    let c = units.spawn(bundle(3, 3, 10, 10, 1));
    let proposals = vec![
        turn(b, (5, 5), (4, 5), UnitAction::Wait),
        turn(c, (3, 3), (3, 4), UnitAction::Wait),
        turn(a, (0, 0), (1, 1), UnitAction::Attack { target: c }),
    ];
    let v = validate_turns(Some(&g), &units, &proposals);
    assert_eq!(v.len(), 2);
    assert_eq!(v[0].turn(), proposals[0]);
    assert_eq!(v[1].turn(), proposals[2]);
    apply_valid_turns(&mut units, &v);
    apply_valid_attacks(&mut units, &v);
    assert_eq!(snapshot(&units, a), (IVec2::new(1, 1), 0, 10));
    assert_eq!(snapshot(&units, b), (IVec2::new(4, 5), 0, 10));
    assert_eq!(snapshot(&units, c), (IVec2::new(3, 3), 10, 9));
}

#[test]
fn attack_on_a_removed_target_is_skipped() {
    let g = open_grid(4, 4);
    let mut units = Units::new();
    let a = units.spawn(bundle(0, 0, 5000, 10, 4));
    let t = units.spawn(bundle(1, 0, 0, 6, 1));
    let v = validate_turns(
        Some(&g),
        &units,
        &vec![turn(a, (0, 0), (0, 1), UnitAction::Attack { target: t })],
    );
    assert_eq!(v.len(), 1);
    units.despawn(t);
    apply_valid_turns(&mut units, &v);
    apply_valid_attacks(&mut units, &v);
    assert!(units.get(t).is_none());
    assert_eq!(snapshot(&units, a), (IVec2::new(0, 1), 0, 10));
}

#[test]
fn initiative_grows_and_is_capped() {
    let mut units = Units::new();
    let a = units.spawn(bundle(0, 0, 0, 10, 1));
    let b = units.spawn(bundle(0, 0, 4500, 10, 1));
    units.advance_unit_initiative(1200);
    assert_eq!(snapshot(&units, a).1, 1200);
    assert_eq!(snapshot(&units, b).1, 5000);
    units.advance_unit_initiative(u32::MAX);
    assert_eq!(snapshot(&units, a).1, 5000);
}

#[test]
fn unit_validity_follows_the_maxima() {
    assert!(bundle(0, 0, 5000, 10, 1).is_valid());
    assert!(!bundle(0, 0, 5001, 10, 1).is_valid());
    assert!(!bundle(0, 0, 0, 11, 1).is_valid());
    let mut b = bundle(0, 0, 0, 1, 1);
    b.unit_range.valid_ranges = vec![1, i32::MAX as u32];
    assert!(b.is_valid());
    b.unit_range.valid_ranges.push(i32::MAX as u32 + 1);
    assert!(!b.is_valid());
}
