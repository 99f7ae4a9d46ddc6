//! Units and the arena that owns them, initiative, and the per-unit queries
//! that the display layer reads.

use vstd::prelude::*;

use crate::geometry::{lemma_push_no_duplicates, tile_distance, tile_of, tile_pos_of, GridPosition, TilePos};
use crate::reachable::{
    attack_covers, can_reach, contains_tile, get_attackable_tiles, reachable_tiles_from,
};
use crate::tile::{ReachableInfo, TileGrid};

verus! {

/// The stable handle of a unit in a [`Units`] arena.
#[derive(PartialEq, Eq, Structural, Clone, Copy, Debug, Hash)]
pub struct Entity(pub usize);

/// The changing state of a combatant. Initiative is counted in milliseconds.
#[derive(PartialEq, Eq, Structural, Clone, Copy, Debug)]
pub struct Unit {
    pub initiative: u32,
    pub current_hp: u32,
}

/// The fixed statistics of a combatant. Initiative is counted in
/// milliseconds.
#[derive(PartialEq, Eq, Structural, Clone, Copy, Debug)]
pub struct UnitStats {
    pub max_hp: u32,
    pub max_initiative: u32,
    pub base_atk: u32,
    pub base_armor: u32,
}

/// The exact taxicab distances at which a unit can attack.
#[derive(Clone, Debug)]
pub struct UnitRange {
    pub valid_ranges: Vec<u32>,
}

/// How many points of movement a unit has.
#[derive(PartialEq, Eq, Structural, Clone, Copy, Debug)]
pub struct UnitSpeed(pub u32);

/// Everything the logic knows of one unit.
#[derive(Clone, Debug)]
pub struct UnitLogicBundle {
    pub unit: Unit,
    pub unit_stats: UnitStats,
    pub unit_range: UnitRange,
    pub unit_speed: UnitSpeed,
    pub grid_position: GridPosition,
}

impl UnitLogicBundle {
    /// Initiative and hit points stay within their maxima; attack ranges fit
    /// in a signed offset.
    pub open spec fn wf(&self) -> bool {
        &&& self.unit.initiative <= self.unit_stats.max_initiative
        &&& self.unit.current_hp <= self.unit_stats.max_hp
        &&& forall|i: int|
            0 <= i < self.unit_range.valid_ranges@.len()
                ==> #[trigger] self.unit_range.valid_ranges@[i] <= i32::MAX
    }

    /// Whether the arena accepts this unit.
    pub fn is_valid(&self) -> (r: bool)
        ensures
            r == self.wf(),
    {
        if self.unit.initiative > self.unit_stats.max_initiative
            || self.unit.current_hp > self.unit_stats.max_hp {
            return false;
        }
        let ranges = &self.unit_range.valid_ranges;
        let mut i: usize = 0;
        while i < ranges.len()
            invariant
                ranges@ == self.unit_range.valid_ranges@,
                i <= ranges@.len(),
                forall|k: int| 0 <= k < i ==> #[trigger] ranges@[k] <= i32::MAX,
            decreases ranges@.len() - i,
        {
            if ranges[i] > i32::MAX as u32 {
                return false;
            }
            i = i + 1;
        }
        true
    }
}

/// The unit stored under `e`, if any.
pub open spec fn lookup(s: Seq<Option<UnitLogicBundle>>, e: Entity) -> Option<UnitLogicBundle> {
    if e.0 < s.len() {
        s[e.0 as int]
    } else {
        None
    }
}

/// The arena that owns every unit; a unit is addressed by its [`Entity`].
pub struct Units {
    slots: Vec<Option<UnitLogicBundle>>,
}

impl View for Units {
    type V = Seq<Option<UnitLogicBundle>>;

    closed spec fn view(&self) -> Seq<Option<UnitLogicBundle>> {
        self.slots@
    }
}

impl Units {
    /// Every unit in the arena is well formed.
    #[verifier::type_invariant]
    pub open spec fn wf(&self) -> bool {
        forall|i: int| 0 <= i < self@.len() && #[trigger] self@[i] is Some ==> self@[i]->Some_0.wf()
    }

    pub fn new() -> (r: Units)
        ensures
            r@ == Seq::<Option<UnitLogicBundle>>::empty(),
    {
        Units { slots: Vec::new() }
    }

    /// Adds a unit and returns its handle.
    pub fn spawn(&mut self, b: UnitLogicBundle) -> (e: Entity)
        requires
            b.wf(),
        ensures
            final(self)@ == old(self)@.push(Some(b)),
            e.0 == old(self)@.len(),
            lookup(final(self)@, e) == Some(b),
    {
        proof {
            use_type_invariant(&*self);
        }
        let e = Entity(self.slots.len());
        let mut slots: Vec<Option<UnitLogicBundle>> = Vec::new();
        std::mem::swap(&mut slots, &mut self.slots);
        slots.push(Some(b));
        self.slots = slots;
        e
    }

    /// Removes the unit under `e`, if there is one.
    pub fn despawn(&mut self, e: Entity)
        ensures
            final(self)@ == (if e.0 < old(self)@.len() {
                old(self)@.update(e.0 as int, None)
            } else {
                old(self)@
            }),
    {
        if e.0 < self.slots.len() {
            proof {
                use_type_invariant(&*self);
            }
            let mut slots: Vec<Option<UnitLogicBundle>> = Vec::new();
            std::mem::swap(&mut slots, &mut self.slots);
            slots.set(e.0, None);
            self.slots = slots;
        }
    }

    /// The unit under `e`, if there is one.
    pub fn get(&self, e: Entity) -> (r: Option<&UnitLogicBundle>)
        ensures
            match r {
                Some(b) => lookup(self@, e) == Some(*b),
                None => lookup(self@, e) is None,
            },
    {
        if e.0 < self.slots.len() {
            match &self.slots[e.0] {
                Some(b) => Some(b),
                None => None,
            }
        } else {
            None
        }
    }

    /// The unit under `e`, if there is one, moves to `end` and its initiative
    /// resets to zero.
    pub fn finish_turn(&mut self, e: Entity, end: GridPosition)
        ensures
            final(self)@ == match lookup(old(self)@, e) {
                Some(b) => old(self)@.update(e.0 as int, Some(finished_turn(b, end))),
                None => old(self)@,
            },
    {
        proof {
            use_type_invariant(&*self);
        }
        let mut slots: Vec<Option<UnitLogicBundle>> = Vec::new();
        std::mem::swap(&mut slots, &mut self.slots);
        if e.0 < slots.len() {
            match &mut slots[e.0] {
                Some(b) => {
                    b.unit.initiative = 0;
                    b.grid_position = end;
                },
                None => {},
            }
        }
        self.slots = slots;
    }

    /// The unit under `e`, if there is one, loses `atk` hit points, down to
    /// zero.
    pub fn take_damage(&mut self, e: Entity, atk: u32)
        ensures
            final(self)@ == match lookup(old(self)@, e) {
                Some(b) => old(self)@.update(e.0 as int, Some(damaged(b, atk))),
                None => old(self)@,
            },
    {
        proof {
            use_type_invariant(&*self);
        }
        let mut slots: Vec<Option<UnitLogicBundle>> = Vec::new();
        std::mem::swap(&mut slots, &mut self.slots);
        if e.0 < slots.len() {
            match &mut slots[e.0] {
                Some(b) => {
                    b.unit.current_hp = b.unit.current_hp.saturating_sub(atk);
                },
                None => {},
            }
        }
        self.slots = slots;
    }

    /// Lets `delta` milliseconds pass: every unit's initiative grows by
    /// `delta`, capped at its maximum.
    pub fn advance_unit_initiative(&mut self, delta: u32)
        ensures
            final(self)@.len() == old(self)@.len(),
            forall|i: int|
                0 <= i < old(self)@.len() ==> #[trigger] final(self)@[i] == match old(self)@[i] {
                    Some(b) => Some(advanced(b, delta)),
                    None => None,
                },
    {
        proof {
            use_type_invariant(&*self);
        }
        let ghost s0 = self@;
        let mut slots: Vec<Option<UnitLogicBundle>> = Vec::new();
        std::mem::swap(&mut slots, &mut self.slots);
        let mut i: usize = 0;
        while i < slots.len()
            invariant
                i <= slots@.len(),
                slots@.len() == s0.len(),
                forall|k: int|
                    0 <= k < s0.len() && #[trigger] s0[k] is Some ==> s0[k]->Some_0.wf(),
                forall|k: int|
                    0 <= k < s0.len() ==> #[trigger] slots@[k] == if k < i {
                        match s0[k] {
                            Some(b) => Some(advanced(b, delta)),
                            None => None,
                        }
                    } else {
                        s0[k]
                    },
            decreases s0.len() - i,
        {
            match &mut slots[i] {
                Some(b) => {
                    let max = b.unit_stats.max_initiative;
                    let grown: u64 = b.unit.initiative as u64 + delta as u64;
                    b.unit.initiative = if grown > max as u64 {
                        max
                    } else {
                        grown as u32
                    };
                },
                None => {},
            }
            i = i + 1;
        }
        self.slots = slots;
    }
}

/// `b` after it has acted: it stands at `end` and its initiative is empty.
pub open spec fn finished_turn(b: UnitLogicBundle, end: GridPosition) -> UnitLogicBundle {
    UnitLogicBundle { unit: Unit { initiative: 0, ..b.unit }, grid_position: end, ..b }
}

/// `hp` less `atk`, never below zero.
pub open spec fn damaged_hp(hp: u32, atk: u32) -> u32 {
    if hp >= atk {
        (hp - atk) as u32
    } else {
        0
    }
}

/// `b` after a hit of strength `atk`.
pub open spec fn damaged(b: UnitLogicBundle, atk: u32) -> UnitLogicBundle {
    UnitLogicBundle {
        unit: Unit { current_hp: damaged_hp(b.unit.current_hp, atk), ..b.unit },
        ..b
    }
}

/// `b` after `delta` milliseconds: initiative grows, capped at its maximum.
pub open spec fn advanced(b: UnitLogicBundle, delta: u32) -> UnitLogicBundle {
    UnitLogicBundle {
        unit: Unit {
            initiative: if b.unit.initiative + delta > b.unit_stats.max_initiative {
                b.unit_stats.max_initiative
            } else {
                (b.unit.initiative + delta) as u32
            },
            ..b.unit
        },
        ..b
    }
}

/// A unit on a registered grid can move to `p`.
pub open spec fn unit_reaches(
    grid: Option<&TileGrid>,
    s: Seq<Option<UnitLogicBundle>>,
    e: Entity,
    p: TilePos,
) -> bool {
    &&& grid is Some
    &&& lookup(s, e) is Some
    &&& can_reach(
        *grid->Some_0,
        tile_of(lookup(s, e)->Some_0.grid_position),
        lookup(s, e)->Some_0.unit_speed.0 as int,
        p,
    )
}

/// A unit on a registered grid can attack `p` from some tile it can move to.
pub open spec fn unit_threatens(
    grid: Option<&TileGrid>,
    s: Seq<Option<UnitLogicBundle>>,
    e: Entity,
    p: TilePos,
) -> bool {
    exists|t: TilePos, i: int|
        #[trigger] unit_reaches(grid, s, e, t) && 0 <= i < lookup(
            s,
            e,
        )->Some_0.unit_range.valid_ranges@.len() && tile_distance(t, p)
            == #[trigger] lookup(s, e)->Some_0.unit_range.valid_ranges@[i]
}

/// The tiles that the unit `unit` can move to; `None` when there is no such
/// unit or no grid is registered.
pub fn get_reachable_tiles(grid: Option<&TileGrid>, units: &Units, unit: Entity) -> (r: Option<
    Vec<TilePos>,
>)
    ensures
        r is Some <==> (grid is Some && lookup(units@, unit) is Some),
        r matches Some(v) ==> v@.no_duplicates() && forall|p: TilePos| #[trigger]
            v@.contains(p) <==> unit_reaches(grid, units@, unit, p),
{
    match grid {
        Some(g) => match units.get(unit) {
            Some(b) => {
                let start = tile_pos_of(b.grid_position);
                Some(reachable_tiles_from(g, start, b.unit_speed.0))
            },
            None => None,
        },
        None => None,
    }
}

/// Recomputes the display flags of every tile for the selected unit: whether
/// the unit can move there, and whether it can attack it from a tile it can
/// move to. Returns the indices of the entries whose flags changed.
pub fn mark_reachable_tiles(
    grid: Option<&TileGrid>,
    units: &Units,
    selected: Entity,
    infos: &mut Vec<(TilePos, ReachableInfo)>,
) -> (changed: Vec<usize>)
    ensures
        final(infos)@.len() == old(infos)@.len(),
        forall|i: int|
            0 <= i < old(infos)@.len() ==> (#[trigger] final(infos)@[i]).0 == old(infos)@[i].0
                && final(infos)@[i].1 == (ReachableInfo {
                reachable: unit_reaches(grid, units@, selected, old(infos)@[i].0),
                attack_movable: unit_threatens(grid, units@, selected, old(infos)@[i].0),
            }),
        changed@.no_duplicates(),
        forall|i: usize| #[trigger]
            changed@.contains(i) <==> i < old(infos)@.len() && old(infos)@[i as int].1
                != final(infos)@[i as int].1,
{
    proof {
        use_type_invariant(units);
    }
    let reachable = match get_reachable_tiles(grid, units, selected) {
        Some(v) => v,
        None => Vec::new(),
    };
    let attackable = match units.get(selected) {
        Some(b) => get_attackable_tiles(&reachable, &b.unit_range.valid_ranges),
        None => Vec::new(),
    };
    proof {
        assert forall|p: TilePos| #[trigger] attackable@.contains(p) <==> unit_threatens(
            grid,
            units@,
            selected,
            p,
        ) by {
            if lookup(units@, selected) is Some {
                let ranges = lookup(units@, selected)->Some_0.unit_range.valid_ranges@;
                if attackable@.contains(p) {
                    let (i, j) = choose|i: int, j: int|
                        0 <= i < ranges.len() && 0 <= j < reachable@.len() && #[trigger] tile_distance(
                            reachable@[j],
                            p,
                        ) == #[trigger] ranges[i];
                    assert(reachable@.contains(reachable@[j]));
                    assert(unit_reaches(grid, units@, selected, reachable@[j]));
                }
                if unit_threatens(grid, units@, selected, p) {
                    let (t, i) = choose|t: TilePos, i: int|
                        #[trigger] unit_reaches(grid, units@, selected, t) && 0 <= i < ranges.len()
                            && tile_distance(t, p) == #[trigger] ranges[i];
                    assert(reachable@.contains(t));
                    let j = choose|j: int| 0 <= j < reachable@.len() && reachable@[j] == t;
                    assert(tile_distance(reachable@[j], p) == ranges[i]);
                    assert(attack_covers(reachable@, ranges, p));
                }
            }
        }
        assert forall|p: TilePos| #[trigger] reachable@.contains(p) <==> unit_reaches(
            grid,
            units@,
            selected,
            p,
        ) by {}
    }
    let ghost old_infos = infos@;
    let mut changed: Vec<usize> = Vec::new();
    let mut i: usize = 0;
    while i < infos.len()
        invariant
            i <= infos@.len(),
            infos@.len() == old_infos.len(),
            forall|p: TilePos| #[trigger]
                reachable@.contains(p) <==> unit_reaches(grid, units@, selected, p),
            forall|p: TilePos| #[trigger]
                attackable@.contains(p) <==> unit_threatens(grid, units@, selected, p),
            forall|k: int|
                0 <= k < old_infos.len() ==> #[trigger] infos@[k] == if k < i {
                    (
                        old_infos[k].0,
                        ReachableInfo {
                            reachable: unit_reaches(grid, units@, selected, old_infos[k].0),
                            attack_movable: unit_threatens(grid, units@, selected, old_infos[k].0),
                        },
                    )
                } else {
                    old_infos[k]
                },
            changed@.no_duplicates(),
            forall|k: usize| #[trigger]
                changed@.contains(k) <==> k < i && old_infos[k as int].1 != infos@[k as int].1,
        decreases old_infos.len() - i,
    {
        let pos = infos[i].0;
        let info = ReachableInfo {
            reachable: contains_tile(&reachable, pos),
            attack_movable: contains_tile(&attackable, pos),
        };
        let differs = infos[i].1.reachable != info.reachable || infos[i].1.attack_movable
            != info.attack_movable;
        if differs {
            proof { lemma_push_no_duplicates(changed@, i); }
            changed.push(i);
        }
        infos.set(i, (pos, info));
        i = i + 1;
    }
    changed
}

} // verus!
