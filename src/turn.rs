//! Turn proposals: validation against the current state, and application of
//! validated turns (movement, initiative reset, damage).

use vstd::prelude::*;

use crate::geometry::{tile_of, tile_pos_of, GridPosition, IVec2};
use crate::reachable::contains_tile;
use crate::tile::TileGrid;
use crate::units::{
    damaged, finished_turn, get_reachable_tiles, lookup, unit_reaches, Entity, UnitLogicBundle,
    Units,
};

verus! {

/// What a unit does once it has moved.
#[derive(PartialEq, Eq, Structural, Clone, Copy, Debug)]
pub enum UnitAction {
    Wait,
    Attack { target: Entity },
}

/// A proposed turn: the acting unit, where the proposer believes it stands,
/// where it moves to, and what it does there.
#[derive(PartialEq, Eq, Structural, Clone, Copy, Debug)]
pub struct UnitTurn {
    pub unit: Entity,
    pub start_position: IVec2,
    pub end_position: IVec2,
    pub action: UnitAction,
}

/// A turn that passed validation; only [`validate_turn`] makes one.
#[derive(Clone, Copy, Debug)]
pub struct ValidatedTurn(UnitTurn);

impl View for ValidatedTurn {
    type V = UnitTurn;

    closed spec fn view(&self) -> UnitTurn {
        self.0
    }
}

impl ValidatedTurn {
    pub fn turn(&self) -> (r: UnitTurn)
        ensures
            r == self@,
    {
        self.0
    }
}

/// The turns that `v` carries, in order.
pub open spec fn turn_seq(v: Seq<ValidatedTurn>) -> Seq<UnitTurn> {
    Seq::new(v.len(), |k: int| v[k]@)
}

/// The unit stands at `start` and can move to `end` on a registered grid.
pub open spec fn movement_is_valid(
    grid: Option<&TileGrid>,
    s: Seq<Option<UnitLogicBundle>>,
    unit: Entity,
    start: IVec2,
    end: IVec2,
) -> bool {
    &&& lookup(s, unit) is Some
    &&& lookup(s, unit)->Some_0.grid_position.0 == start
    &&& unit_reaches(grid, s, unit, tile_of(GridPosition(end)))
}

/// The acting unit exists, its initiative is full, it stands where the
/// proposal says, and it can move to the destination.
pub open spec fn turn_is_valid(
    grid: Option<&TileGrid>,
    s: Seq<Option<UnitLogicBundle>>,
    t: UnitTurn,
) -> bool {
    &&& lookup(s, t.unit) is Some
    &&& lookup(s, t.unit)->Some_0.unit.initiative == lookup(s, t.unit)->Some_0.unit_stats.max_initiative
    &&& movement_is_valid(grid, s, t.unit, t.start_position, t.end_position)
}

/// The proposals of `turns` that are valid against `s`, in order.
pub open spec fn valid_turns(
    grid: Option<&TileGrid>,
    s: Seq<Option<UnitLogicBundle>>,
    turns: Seq<UnitTurn>,
) -> Seq<UnitTurn>
    decreases turns.len(),
{
    if turns.len() == 0 {
        Seq::empty()
    } else if turn_is_valid(grid, s, turns.last()) {
        valid_turns(grid, s, turns.drop_last()).push(turns.last())
    } else {
        valid_turns(grid, s, turns.drop_last())
    }
}

/// The state after the actor of `t` moves to the destination and its
/// initiative resets; unchanged if the actor is gone.
pub open spec fn moved(s: Seq<Option<UnitLogicBundle>>, t: UnitTurn) -> Seq<Option<UnitLogicBundle>> {
    match lookup(s, t.unit) {
        Some(b) => s.update(t.unit.0 as int, Some(finished_turn(b, GridPosition(t.end_position)))),
        None => s,
    }
}

/// The state after the attack of `t`, if it has one: the target loses the
/// actor's attack power in hit points, down to zero. Unchanged if the target
/// or the actor is gone.
pub open spec fn attacked(s: Seq<Option<UnitLogicBundle>>, t: UnitTurn) -> Seq<Option<UnitLogicBundle>> {
    match t.action {
        UnitAction::Wait => s,
        UnitAction::Attack { target } => match (lookup(s, target), lookup(s, t.unit)) {
            (Some(tb), Some(ab)) => s.update(target.0 as int, Some(damaged(tb, ab.unit_stats.base_atk))),
            _ => s,
        },
    }
}

pub open spec fn moved_all(s: Seq<Option<UnitLogicBundle>>, turns: Seq<UnitTurn>) -> Seq<
    Option<UnitLogicBundle>,
>
    decreases turns.len(),
{
    if turns.len() == 0 {
        s
    } else {
        moved(moved_all(s, turns.drop_last()), turns.last())
    }
}

pub open spec fn attacked_all(s: Seq<Option<UnitLogicBundle>>, turns: Seq<UnitTurn>) -> Seq<
    Option<UnitLogicBundle>,
>
    decreases turns.len(),
{
    if turns.len() == 0 {
        s
    } else {
        attacked(attacked_all(s, turns.drop_last()), turns.last())
    }
}

/// One round of the pipeline: every proposal is validated against the state
/// before the round, then the valid ones move their actors, then they attack.
pub open spec fn resolve(
    grid: Option<&TileGrid>,
    s: Seq<Option<UnitLogicBundle>>,
    turns: Seq<UnitTurn>,
) -> Seq<Option<UnitLogicBundle>> {
    attacked_all(moved_all(s, valid_turns(grid, s, turns)), valid_turns(grid, s, turns))
}

/// Whether `unit` stands at `start` and can move to `end`.
pub fn validate_movement(
    grid: Option<&TileGrid>,
    units: &Units,
    unit: Entity,
    start: IVec2,
    end: IVec2,
) -> (r: bool)
    ensures
        r == movement_is_valid(grid, units@, unit, start, end),
{
    let pos = match units.get(unit) {
        Some(b) => b.grid_position,
        None => {
            return false;
        },
    };
    if pos.0 != start {
        return false;
    }
    let reachable = match get_reachable_tiles(grid, units, unit) {
        Some(v) => v,
        None => {
            return false;
        },
    };
    contains_tile(&reachable, tile_pos_of(GridPosition(end)))
}

/// Checks a proposal against the current state; `Some` carries it unchanged
/// exactly when it is valid.
pub fn validate_turn(grid: Option<&TileGrid>, units: &Units, turn: &UnitTurn) -> (r: Option<
    ValidatedTurn,
>)
    ensures
        r is Some <==> turn_is_valid(grid, units@, *turn),
        r matches Some(v) ==> v@ == *turn,
{
    let b = match units.get(turn.unit) {
        Some(b) => b,
        None => {
            return None;
        },
    };
    if b.unit.initiative != b.unit_stats.max_initiative {
        return None;
    }
    if !validate_movement(grid, units, turn.unit, turn.start_position, turn.end_position) {
        return None;
    }
    Some(ValidatedTurn(*turn))
}

/// The valid proposals among `turns`, in order, each checked against the
/// same state.
pub fn validate_turns(grid: Option<&TileGrid>, units: &Units, turns: &Vec<UnitTurn>) -> (r: Vec<
    ValidatedTurn,
>)
    ensures
        turn_seq(r@) == valid_turns(grid, units@, turns@),
{
    let mut out: Vec<ValidatedTurn> = Vec::new();
    let mut i: usize = 0;
    while i < turns.len()
        invariant
            i <= turns@.len(),
            turn_seq(out@) == valid_turns(grid, units@, turns@.take(i as int)),
        decreases turns@.len() - i,
    {
        let ghost o0 = out@;
        if let Some(v) = validate_turn(grid, units, &turns[i]) {
            out.push(v);
            assert(turn_seq(out@) =~= turn_seq(o0).push(v@));
        }
        assert(turns@.take(i + 1).drop_last() =~= turns@.take(i as int));
        i = i + 1;
    }
    assert(turns@.take(turns@.len() as int) =~= turns@);
    out
}

/// Moves the actor of `turn` to its destination and resets its initiative.
pub fn apply_movement(units: &mut Units, turn: UnitTurn)
    ensures
        final(units)@ == moved(old(units)@, turn),
{
    units.finish_turn(turn.unit, GridPosition(turn.end_position));
}

/// Applies the attack of `turn`, if it has one.
pub fn apply_attack(units: &mut Units, turn: UnitTurn)
    ensures
        final(units)@ == attacked(old(units)@, turn),
{
    match turn.action {
        UnitAction::Wait => {},
        UnitAction::Attack { target } => {
            if units.get(target).is_none() {
                return;
            }
            let atk = match units.get(turn.unit) {
                Some(b) => b.unit_stats.base_atk,
                None => {
                    return;
                },
            };
            units.take_damage(target, atk);
        },
    }
}

/// Moves the actor of each validated turn, in order.
pub fn apply_valid_turns(units: &mut Units, turns: &Vec<ValidatedTurn>)
    ensures
        final(units)@ == moved_all(old(units)@, turn_seq(turns@)),
{
    let ghost s0 = units@;
    let mut i: usize = 0;
    while i < turns.len()
        invariant
            i <= turns@.len(),
            units@ == moved_all(s0, turn_seq(turns@).take(i as int)),
        decreases turns@.len() - i,
    {
        let t = turns[i].turn();
        apply_movement(units, t);
        assert(turn_seq(turns@).take(i + 1).drop_last() =~= turn_seq(turns@).take(i as int));
        i = i + 1;
    }
    assert(turn_seq(turns@).take(turns@.len() as int) =~= turn_seq(turns@));
}

/// Applies the attack of each validated turn, in order.
pub fn apply_valid_attacks(units: &mut Units, turns: &Vec<ValidatedTurn>)
    ensures
        final(units)@ == attacked_all(old(units)@, turn_seq(turns@)),
{
    let ghost s0 = units@;
    let mut i: usize = 0;
    while i < turns.len()
        invariant
            i <= turns@.len(),
            units@ == attacked_all(s0, turn_seq(turns@).take(i as int)),
        decreases turns@.len() - i,
    {
        let t = turns[i].turn();
        apply_attack(units, t);
        assert(turn_seq(turns@).take(i + 1).drop_last() =~= turn_seq(turns@).take(i as int));
        i = i + 1;
    }
    assert(turn_seq(turns@).take(turns@.len() as int) =~= turn_seq(turns@));
}

/// Runs one round: validates every proposal against the current state, then
/// applies the movement and then the attacks of the valid ones. Returns the
/// turns that were applied.
pub fn resolve_turns(grid: Option<&TileGrid>, units: &mut Units, turns: &Vec<UnitTurn>) -> (r: Vec<
    ValidatedTurn,
>)
    ensures
        turn_seq(r@) == valid_turns(grid, old(units)@, turns@),
        final(units)@ == resolve(grid, old(units)@, turns@),
{
    let validated = validate_turns(grid, units, turns);
    apply_valid_turns(units, &validated);
    apply_valid_attacks(units, &validated);
    validated
}

/// A proposal whose claimed start is not where the actor stands is rejected,
/// and a round made of it changes nothing.
pub proof fn lemma_stale_proposal_changes_nothing(
    grid: Option<&TileGrid>,
    s: Seq<Option<UnitLogicBundle>>,
    t: UnitTurn,
)
    requires
        lookup(s, t.unit) is Some,
        lookup(s, t.unit)->Some_0.grid_position.0 != t.start_position,
    ensures
        !turn_is_valid(grid, s, t),
        resolve(grid, s, seq![t]) == s,
{
    let one = seq![t];
    assert(one.drop_last() =~= Seq::<UnitTurn>::empty());
    assert(one.last() == t);
    assert(valid_turns(grid, s, Seq::<UnitTurn>::empty()) == Seq::<UnitTurn>::empty());
    assert(valid_turns(grid, s, one) == valid_turns(grid, s, one.drop_last()));
}

/// A proposal made before the actor's initiative is full is rejected, and a
/// round made of it changes nothing.
pub proof fn lemma_uncharged_proposal_rejected(
    grid: Option<&TileGrid>,
    s: Seq<Option<UnitLogicBundle>>,
    t: UnitTurn,
)
    requires
        lookup(s, t.unit) is Some,
        lookup(s, t.unit)->Some_0.unit.initiative < lookup(s, t.unit)->Some_0.unit_stats.max_initiative,
    ensures
        !turn_is_valid(grid, s, t),
        resolve(grid, s, seq![t]) == s,
{
    let one = seq![t];
    assert(one.drop_last() =~= Seq::<UnitTurn>::empty());
    assert(one.last() == t);
    assert(valid_turns(grid, s, Seq::<UnitTurn>::empty()) == Seq::<UnitTurn>::empty());
    assert(valid_turns(grid, s, one) == valid_turns(grid, s, one.drop_last()));
}

} // verus!
