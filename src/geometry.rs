//! Grid coordinates, offsets and the orthogonal neighbourhood of a tile.

use vstd::prelude::*;

verus! {

/// A signed two-dimensional integer vector: a grid position or an offset.
#[derive(PartialEq, Eq, Structural, Clone, Copy, Debug, Hash)]
pub struct IVec2 {
    pub x: i32,
    pub y: i32,
}

impl IVec2 {
    pub fn new(x: i32, y: i32) -> (r: IVec2)
        ensures
            r.x == x,
            r.y == y,
    {
        IVec2 { x, y }
    }
}

/// Where a unit stands on the grid.
#[derive(PartialEq, Eq, Structural, Clone, Copy, Debug, Hash)]
pub struct GridPosition(pub IVec2);

/// The unsigned address of a tile in a tile map.
#[derive(PartialEq, Eq, Structural, Clone, Copy, Debug, Hash)]
pub struct TilePos {
    pub x: u32,
    pub y: u32,
}

impl TilePos {
    pub fn new(x: u32, y: u32) -> (r: TilePos)
        ensures
            r.x == x,
            r.y == y,
    {
        TilePos { x, y }
    }
}

/// The width (`x`) and height (`y`) of a tile map, in tiles.
#[derive(PartialEq, Eq, Structural, Clone, Copy, Debug, Hash)]
pub struct TilemapSize {
    pub x: u32,
    pub y: u32,
}

pub open spec fn abs(v: int) -> int {
    if v < 0 {
        -v
    } else {
        v
    }
}

/// Taxicab length of an offset.
pub open spec fn manhattan_norm(o: IVec2) -> int {
    abs(o.x as int) + abs(o.y as int)
}

/// Taxicab distance between two tiles.
pub open spec fn tile_distance(a: TilePos, b: TilePos) -> int {
    abs(a.x - b.x) + abs(a.y - b.y)
}

/// The tile that a grid position addresses: each coordinate is reinterpreted
/// as an unsigned 32-bit value.
pub open spec fn tile_of(p: GridPosition) -> TilePos {
    TilePos { x: p.0.x as u32, y: p.0.y as u32 }
}

pub fn tile_pos_of(p: GridPosition) -> (r: TilePos)
    ensures
        r == tile_of(p),
{
    TilePos { x: p.0.x as u32, y: p.0.y as u32 }
}

pub open spec fn in_bounds(p: TilePos, size: TilemapSize) -> bool {
    p.x < size.x && p.y < size.y
}

/// A tile coordinate read as a signed 32-bit value, as positions on a square
/// grid are.
pub open spec fn signed(v: u32) -> int {
    if v <= i32::MAX {
        v as int
    } else {
        v - 0x1_0000_0000
    }
}

/// `q` lies inside the map, one step east, north, west or south of `p`, both
/// read as signed positions. So a tile addressed from a negative grid position
/// still borders the edge of the map.
#[verifier::opaque]
pub open spec fn is_neighbor(p: TilePos, q: TilePos, size: TilemapSize) -> bool {
    &&& in_bounds(q, size)
    &&& q.x <= i32::MAX
    &&& q.y <= i32::MAX
    &&& abs(signed(p.x) - q.x) + abs(signed(p.y) - q.y) == 1
}

pub proof fn lemma_push_no_duplicates<A>(s: Seq<A>, a: A)
    requires
        s.no_duplicates(),
        !s.contains(a),
    ensures
        s.push(a).no_duplicates(),
        forall|b: A| #[trigger] s.push(a).contains(b) <==> s.contains(b) || b == a,
{
    let t = s.push(a);
    assert forall|i: int, j: int| 0 <= i < t.len() && 0 <= j < t.len() && i != j implies t[i]
        != t[j] by {
        if i == s.len() {
            assert(s[j] == t[j]);
        } else if j == s.len() {
            assert(s[i] == t[i]);
        } else {
            assert(s[i] == t[i] && s[j] == t[j]);
        }
    }
    assert forall|b: A| #[trigger] t.contains(b) implies s.contains(b) || b == a by {
        let k = choose|k: int| 0 <= k < t.len() && t[k] == b;
        if k < s.len() {
            assert(s[k] == b);
        }
    }
    assert forall|b: A| s.contains(b) || b == a implies #[trigger] t.contains(b) by {
        if b == a {
            assert(t[s.len() as int] == a);
        } else {
            let k = choose|k: int| 0 <= k < s.len() && s[k] == b;
            assert(t[k] == b);
        }
    }
}

fn signed_of(v: u32) -> (r: i64)
    ensures
        r == signed(v),
{
    if v <= i32::MAX as u32 {
        v as i64
    } else {
        v as i64 - 0x1_0000_0000
    }
}

/// The tile at signed position (`x`, `y`), if it lies inside the map.
fn cell_at(x: i64, y: i64, size: TilemapSize) -> (r: Option<TilePos>)
    ensures
        r is Some <==> (0 <= x < size.x && 0 <= y < size.y && x <= i32::MAX && y <= i32::MAX),
        r matches Some(q) ==> q.x == x && q.y == y,
{
    if 0 <= x && x < size.x as i64 && x <= i32::MAX as i64 && 0 <= y && y < size.y as i64 && y
        <= i32::MAX as i64 {
        Some(TilePos { x: x as u32, y: y as u32 })
    } else {
        None
    }
}

/// The orthogonal neighbours of `pos` that lie inside a map of the given size.
pub fn square_neighbors(pos: TilePos, size: TilemapSize) -> (r: Vec<TilePos>)
    ensures
        forall|q: TilePos| #[trigger] r@.contains(q) <==> is_neighbor(pos, q, size),
        forall|q: TilePos| #[trigger] r@.contains(q) ==> in_bounds(q, size),
        r@.no_duplicates(),
{
    reveal(is_neighbor);
    let sx = signed_of(pos.x);
    let sy = signed_of(pos.y);
    let mut r: Vec<TilePos> = Vec::new();
    if let Some(q) = cell_at(sx + 1, sy, size) {
        proof { lemma_push_no_duplicates(r@, q); }
        r.push(q);
    }
    if let Some(q) = cell_at(sx, sy + 1, size) {
        proof { lemma_push_no_duplicates(r@, q); }
        r.push(q);
    }
    if let Some(q) = cell_at(sx - 1, sy, size) {
        proof { lemma_push_no_duplicates(r@, q); }
        r.push(q);
    }
    if let Some(q) = cell_at(sx, sy - 1, size) {
        proof { lemma_push_no_duplicates(r@, q); }
        r.push(q);
    }
    proof {
        assert forall|q: TilePos| is_neighbor(pos, q, size) implies #[trigger] r@.contains(q) by {
            if q.x == sx + 1 {
            } else if q.y == sy + 1 {
            } else if q.x + 1 == sx {
            } else {
            }
        }
    }
    r
}

/// Every offset at exact taxicab distance `range` from the origin: the outline
/// of a diamond, walked column by column from `x == -range` to `x == range`.
/// At range zero it is the origin alone.
pub fn get_range_offsets(range: u32) -> (r: Vec<IVec2>)
    requires
        range <= i32::MAX,
    ensures
        forall|o: IVec2| #[trigger] r@.contains(o) <==> manhattan_norm(o) == range,
        r@.no_duplicates(),
{
    let ri: i64 = range as i64;
    let mut out: Vec<IVec2> = Vec::new();
    let mut x: i64 = -ri;
    while x <= ri
        invariant
            ri == range,
            ri <= i32::MAX,
            -ri <= x <= ri + 1,
            out@.no_duplicates(),
            forall|o: IVec2| #[trigger]
                out@.contains(o) <==> (manhattan_norm(o) == range && o.x < x),
        decreases ri + 1 - x,
    {
        let ax: i64 = if x < 0 {
            -x
        } else {
            x
        };
        let y: i64 = ri - ax;
        let a = IVec2 { x: x as i32, y: y as i32 };
        proof { lemma_push_no_duplicates(out@, a); }
        out.push(a);
        if y != 0 {
            let b = IVec2 { x: x as i32, y: -y as i32 };
            proof { lemma_push_no_duplicates(out@, b); }
            out.push(b);
        }
        x = x + 1;
    }
    out
}

} // verus!
