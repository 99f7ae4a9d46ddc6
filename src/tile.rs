//! The logical tile grid: which cells can be entered and at what cost, and how
//! authored level data is classified into those properties.

use vstd::prelude::*;

use crate::geometry::{in_bounds, TilePos, TilemapSize};

verus! {

/// The logical properties of one cell, independent of how it is drawn.
#[derive(PartialEq, Eq, Structural, Clone, Copy, Debug, Default)]
pub struct LogicTile {
    pub can_move: bool,
    pub move_cost: u32,
}

/// Per-tile display state: the tile can be moved to, or it can be attacked
/// from some tile that can be moved to.
#[derive(PartialEq, Eq, Structural, Clone, Copy, Debug, Default)]
pub struct ReachableInfo {
    pub reachable: bool,
    pub attack_movable: bool,
}

/// Per-tile display state for a chosen attack.
#[derive(PartialEq, Eq, Structural, Clone, Copy, Debug, Default)]
pub struct AttackableInfo {
    pub attackable: bool,
}

/// One cell of authored level data: its position and its terrain value.
#[derive(PartialEq, Eq, Structural, Clone, Copy, Debug)]
pub struct AuthoredCell {
    pub pos: TilePos,
    pub value: i32,
}

/// The terrain value that marks difficult ground.
pub const DIFFICULT_TERRAIN: i32 = 2;

/// Difficult ground can be entered at cost 2; every other authored value is a
/// wall.
pub open spec fn classify(value: i32) -> LogicTile {
    if value == DIFFICULT_TERRAIN {
        LogicTile { can_move: true, move_cost: 2 }
    } else {
        LogicTile { can_move: false, move_cost: 0 }
    }
}

/// A cell that was not authored is open ground of cost 1.
pub open spec fn default_tile() -> LogicTile {
    LogicTile { can_move: true, move_cost: 1 }
}

pub fn logic_tile_for_value(value: i32) -> (r: LogicTile)
    ensures
        r == classify(value),
{
    if value == DIFFICULT_TERRAIN {
        LogicTile { can_move: true, move_cost: 2 }
    } else {
        LogicTile { can_move: false, move_cost: 0 }
    }
}

pub fn default_logic_tile() -> (r: LogicTile)
    ensures
        r == default_tile(),
{
    LogicTile { can_move: true, move_cost: 1 }
}

/// The value of the last authored record for `p`, if any.
pub open spec fn authored_value(cells: Seq<AuthoredCell>, p: TilePos) -> Option<i32>
    decreases cells.len(),
{
    if cells.len() == 0 {
        None
    } else if cells.last().pos == p {
        Some(cells.last().value)
    } else {
        authored_value(cells.drop_last(), p)
    }
}

pub open spec fn cell_index(p: TilePos, size: TilemapSize) -> int {
    p.y * size.x + p.x
}

pub proof fn lemma_cell_index(p: TilePos, size: TilemapSize)
    requires
        in_bounds(p, size),
    ensures
        0 <= cell_index(p, size) < size.x * size.y,
{
    let (x, y, w, h) = (p.x as int, p.y as int, size.x as int, size.y as int);
    assert(0 <= y * w + x < w * h) by (nonlinear_arith)
        requires
            0 <= x < w,
            0 <= y < h,
    ;
}

pub proof fn lemma_cell_index_injective(p: TilePos, q: TilePos, size: TilemapSize)
    requires
        in_bounds(p, size),
        in_bounds(q, size),
        p != q,
    ensures
        cell_index(p, size) != cell_index(q, size),
{
    let (px, py, qx, qy, w) = (p.x as int, p.y as int, q.x as int, q.y as int, size.x as int);
    if py == qy {
    } else if py < qy {
        assert(py * w + px < qy * w + qx) by (nonlinear_arith)
            requires
                0 <= px < w,
                0 <= qx,
                py < qy,
        ;
    } else {
        assert(qy * w + qx < py * w + px) by (nonlinear_arith)
            requires
                0 <= qx < w,
                0 <= px,
                qy < py,
        ;
    }
}

/// The logical tiles of one rectangular map, stored row by row. A cell holds
/// `None` until it has been classified.
pub struct TileGrid {
    size: TilemapSize,
    tiles: Vec<Option<LogicTile>>,
}

impl TileGrid {
    pub closed spec fn cells(&self) -> Seq<Option<LogicTile>> {
        self.tiles@
    }

    pub closed spec fn map_size(&self) -> TilemapSize {
        self.size
    }

    /// Every cell of the map has its slot.
    #[verifier::type_invariant]
    pub open spec fn wf(&self) -> bool {
        self.cells().len() == self.map_size().x * self.map_size().y
    }

    pub fn size(&self) -> (r: TilemapSize)
        ensures
            r == self.map_size(),
    {
        self.size
    }

    /// The tile at `p`; positions outside the map hold none.
    pub open spec fn tile(&self, p: TilePos) -> Option<LogicTile> {
        if in_bounds(p, self.map_size()) {
            self.cells()[cell_index(p, self.map_size())]
        } else {
            None
        }
    }

    /// A map of the given size in which no cell is classified yet.
    pub fn new(size: TilemapSize) -> (r: TileGrid)
        requires
            size.x * size.y <= usize::MAX,
        ensures
            r.map_size() == size,
            forall|p: TilePos| #[trigger] r.tile(p) == None::<LogicTile>,
    {
        let n: usize = (size.x as usize) * (size.y as usize);
        let mut tiles: Vec<Option<LogicTile>> = Vec::new();
        let mut i: usize = 0;
        while i < n
            invariant
                i <= n,
                tiles@.len() == i,
                forall|k: int| 0 <= k < i ==> #[trigger] tiles@[k] == None::<LogicTile>,
            decreases n - i,
        {
            tiles.push(None);
            i = i + 1;
        }
        let r = TileGrid { size, tiles };
        assert forall|p: TilePos| #[trigger] r.tile(p) == None::<LogicTile> by {
            if in_bounds(p, size) {
                lemma_cell_index(p, size);
            }
        }
        r
    }

    pub fn index_of(&self, p: TilePos) -> (i: usize)
        requires
            in_bounds(p, self.map_size()),
        ensures
            i == cell_index(p, self.map_size()),
            i < self.cells().len(),
    {
        let n = self.tiles.len();
        proof {
            use_type_invariant(self);
            lemma_cell_index(p, self.size);
            assert(n == self.tiles@.len());
            assert(0 <= p.y * self.size.x <= p.y * self.size.x + p.x) by (nonlinear_arith)
                requires
                    0 <= p.x,
                    0 <= p.y,
                    0 <= self.size.x,
            ;
        }
        (p.y as usize) * (self.size.x as usize) + (p.x as usize)
    }

    /// The number of cells of the map.
    pub fn cell_count(&self) -> (n: usize)
        ensures
            n == self.cells().len(),
            n == self.map_size().x * self.map_size().y,
    {
        proof {
            use_type_invariant(self);
        }
        self.tiles.len()
    }

    /// Looks up the tile at `p`.
    pub fn get(&self, p: TilePos) -> (r: Option<LogicTile>)
        ensures
            r == self.tile(p),
    {
        if p.x < self.size.x && p.y < self.size.y {
            proof { lemma_cell_index(p, self.size); }
            let i = self.index_of(p);
            self.tiles[i]
        } else {
            None
        }
    }

    /// Whether `p` holds a tile that a unit can stand on.
    pub fn is_occupiable(&self, p: TilePos) -> (r: bool)
        ensures
            r == (self.tile(p) is Some && self.tile(p)->Some_0.can_move),
    {
        match self.get(p) {
            Some(t) => t.can_move,
            None => false,
        }
    }

    /// Stores `t` at `p`; positions outside the map are ignored.
    pub fn set(&mut self, p: TilePos, t: LogicTile)
        ensures
            final(self).map_size() == old(self).map_size(),
            forall|q: TilePos| #[trigger]
                final(self).tile(q) == (if q == p && in_bounds(p, old(self).map_size()) {
                    Some(t)
                } else {
                    old(self).tile(q)
                }),
    {
        proof {
            use_type_invariant(&*self);
        }
        if p.x < self.size.x && p.y < self.size.y {
            proof { lemma_cell_index(p, self.size); }
            let i = self.index_of(p);
            self.tiles[i] = Some(t);
            proof {
                assert forall|q: TilePos| #[trigger]
                    self.tile(q) == (if q == p { Some(t) } else { old(self).tile(q) }) by {
                    if in_bounds(q, self.size) && q != p {
                        lemma_cell_index(q, self.size);
                        lemma_cell_index_injective(p, q, self.size);
                    }
                }
            }
        }
    }

    /// Classifies level data: each authored cell inside the map gets the tile
    /// of its terrain value (the last record for a cell wins); each cell of
    /// the map's tile index that was neither authored nor classified before
    /// becomes open ground. Other cells keep what they held.
    pub fn populate_logic_tiles(&mut self, cells: &Vec<AuthoredCell>, indexed: &Vec<TilePos>)
        ensures
            final(self).map_size() == old(self).map_size(),
            forall|p: TilePos| #[trigger]
                final(self).tile(p) == (if !in_bounds(p, old(self).map_size()) {
                    None
                } else if authored_value(cells@, p) is Some {
                    Some(classify(authored_value(cells@, p)->Some_0))
                } else if old(self).tile(p) is Some {
                    old(self).tile(p)
                } else if indexed@.contains(p) {
                    Some(default_tile())
                } else {
                    None
                }),
    {
        let ghost g0 = *self;
        let mut i: usize = 0;
        while i < cells.len()
            invariant
                i <= cells@.len(),
                self.map_size() == g0.map_size(),
                forall|p: TilePos| #[trigger]
                    self.tile(p) == (if authored_value(cells@.take(i as int), p) is Some
                        && in_bounds(p, g0.map_size()) {
                        Some(classify(authored_value(cells@.take(i as int), p)->Some_0))
                    } else {
                        g0.tile(p)
                    }),
            decreases cells.len() - i,
        {
            let c = cells[i];
            let t = logic_tile_for_value(c.value);
            self.set(c.pos, t);
            proof {
                assert(cells@.take(i + 1).drop_last() == cells@.take(i as int));
                assert(cells@.take(i + 1).last() == c);
            }
            i = i + 1;
        }
        assert(cells@.take(cells@.len() as int) == cells@);
        let ghost g1 = *self;
        let mut k: usize = 0;
        while k < indexed.len()
            invariant
                k <= indexed@.len(),
                self.map_size() == g0.map_size(),
                forall|p: TilePos| #[trigger]
                    self.tile(p) == (if in_bounds(p, g0.map_size()) && g1.tile(p) is None
                        && indexed@.take(k as int).contains(p) {
                        Some(default_tile())
                    } else {
                        g1.tile(p)
                    }),
            decreases indexed@.len() - k,
        {
            let p = indexed[k];
            if self.get(p).is_none() {
                self.set(p, default_logic_tile());
            }
            proof {
                let pre = indexed@.take(k as int);
                let nxt = indexed@.take(k + 1);
                assert(nxt == pre.push(p));
                assert forall|q: TilePos| #[trigger] nxt.contains(q) <==> pre.contains(q) || q == p by {
                    if nxt.contains(q) {
                        let a = choose|a: int| 0 <= a < nxt.len() && nxt[a] == q;
                        if a < pre.len() {
                            assert(pre[a] == q);
                        }
                    }
                    if pre.contains(q) {
                        let a = choose|a: int| 0 <= a < pre.len() && pre[a] == q;
                        assert(nxt[a] == q);
                    }
                    if q == p {
                        assert(nxt[k as int] == q);
                    }
                }
            }
            k = k + 1;
        }
        assert(indexed@.take(indexed@.len() as int) == indexed@);
    }
}

/// The tile maps that hold logical tiles. The search runs on one of them only:
/// with none, or with more than one, there is no grid to search.
pub struct GetTileStorageParam {
    pub tile_storages: Vec<TileGrid>,
}

impl GetTileStorageParam {
    /// The single registered grid, if there is exactly one.
    pub fn get(&self) -> (r: Option<&TileGrid>)
        ensures
            r is Some <==> self.tile_storages@.len() == 1,
            r matches Some(g) ==> *g == self.tile_storages@[0],
    {
        if self.tile_storages.len() == 1 {
            Some(&self.tile_storages[0])
        } else {
            None
        }
    }
}

} // verus!
