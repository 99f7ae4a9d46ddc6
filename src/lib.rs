//! Turn resolution and spatial reasoning for a grid-based tactics game:
//! reachable tiles under a movement budget, attack-range projection, and the
//! validation and application of unit turns.

pub mod geometry;
pub mod tile;
pub mod reachable;
pub mod units;
pub mod turn;

pub use geometry::{get_range_offsets, square_neighbors, GridPosition, IVec2, TilePos, TilemapSize};
pub use reachable::{contains_tile, get_attackable_tiles, offset_tile, reachable_tiles_from};
pub use tile::{
    default_logic_tile, logic_tile_for_value, AttackableInfo, AuthoredCell, GetTileStorageParam,
    LogicTile, ReachableInfo, TileGrid, DIFFICULT_TERRAIN,
};
pub use turn::{
    apply_attack, apply_movement, apply_valid_attacks, apply_valid_turns, resolve_turns,
    validate_movement, validate_turn, validate_turns, UnitAction, UnitTurn, ValidatedTurn,
};
pub use units::{
    get_reachable_tiles, mark_reachable_tiles, Entity, Unit, UnitLogicBundle, UnitRange,
    UnitSpeed, UnitStats, Units,
};
