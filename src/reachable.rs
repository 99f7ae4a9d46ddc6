//! Cost-bounded search for the tiles a unit can move to, and the projection of
//! attack ranges from those tiles.

use vstd::prelude::*;

use crate::geometry::{
    get_range_offsets, in_bounds, is_neighbor, lemma_push_no_duplicates, manhattan_norm,
    square_neighbors, tile_distance, IVec2, TilePos, TilemapSize,
};
use crate::tile::{cell_index, lemma_cell_index, lemma_cell_index_injective, TileGrid};

verus! {

/// A tile that a unit may step onto: it is in the grid and traversable.
pub open spec fn enterable(g: TileGrid, v: TilePos) -> bool {
    g.tile(v) is Some && g.tile(v)->Some_0.can_move
}

/// What it costs to step onto `v`.
pub open spec fn entry_cost(g: TileGrid, v: TilePos) -> int {
    g.tile(v)->Some_0.move_cost as int
}

/// A sequence of orthogonal steps inside the map, each onto an enterable tile.
/// The first tile is where the walk starts and need not be enterable.
pub open spec fn is_walk(g: TileGrid, path: Seq<TilePos>) -> bool {
    &&& path.len() >= 1
    &&& forall|i: int|
        0 < i < path.len() ==> #[trigger] is_neighbor(path[i - 1], path[i], g.map_size())
            && enterable(g, path[i])
}

/// The sum of the entry costs of every tile of a walk but the first.
pub open spec fn walk_cost(g: TileGrid, path: Seq<TilePos>) -> int
    decreases path.len(),
{
    if path.len() <= 1 {
        0
    } else {
        walk_cost(g, path.drop_last()) + entry_cost(g, path.last())
    }
}

/// `p` can be reached from `start` by a walk that costs at most `budget`.
pub open spec fn can_reach(g: TileGrid, start: TilePos, budget: int, p: TilePos) -> bool {
    exists|path: Seq<TilePos>|
        #[trigger] is_walk(g, path) && path[0] == start && path.last() == p && walk_cost(g, path)
            <= budget
}

pub proof fn lemma_walk_cost_nonneg(g: TileGrid, path: Seq<TilePos>)
    ensures
        walk_cost(g, path) >= 0,
    decreases path.len(),
{
    if path.len() > 1 {
        lemma_walk_cost_nonneg(g, path.drop_last());
    }
}

pub proof fn lemma_extend_walk(g: TileGrid, path: Seq<TilePos>, v: TilePos)
    requires
        is_walk(g, path),
        is_neighbor(path.last(), v, g.map_size()),
        enterable(g, v),
    ensures
        is_walk(g, path.push(v)),
        path.push(v)[0] == path[0],
        path.push(v).last() == v,
        path.push(v).drop_last() == path,
        walk_cost(g, path.push(v)) == walk_cost(g, path) + entry_cost(g, v),
{
    let q = path.push(v);
    assert(q.drop_last() =~= path);
    assert forall|i: int| 0 < i < q.len() implies #[trigger] is_neighbor(q[i - 1], q[i], g.map_size())
        && enterable(g, q[i]) by {
        if i < path.len() {
            assert(q[i - 1] == path[i - 1] && q[i] == path[i]);
            assert(is_neighbor(path[i - 1], path[i], g.map_size()));
        } else {
            assert(q[i - 1] == path.last() && q[i] == v);
        }
    }
}

/// A unit can always stay where it is: the start is reachable with any
/// budget, whatever tile it stands on.
pub proof fn lemma_start_reaches_itself(g: TileGrid, start: TilePos, budget: int)
    requires
        budget >= 0,
    ensures
        can_reach(g, start, budget, start),
{
    let path = seq![start];
    assert(is_walk(g, path));
}

// The search state: which tiles are marked, and the cost at which each was
// marked. The start is always marked at cost 0; other tiles are marked in
// `best`, indexed like the grid's cells.
spec fn marked(size: TilemapSize, start: TilePos, best: Seq<Option<u64>>, v: TilePos) -> bool {
    v == start || (in_bounds(v, size) && best[cell_index(v, size)] is Some)
}

spec fn cost_at(size: TilemapSize, start: TilePos, best: Seq<Option<u64>>, v: TilePos) -> int {
    if v == start {
        0
    } else {
        best[cell_index(v, size)]->Some_0 as int
    }
}

spec fn in_frontier(f: Seq<(u64, TilePos)>, u: TilePos) -> bool {
    exists|k: int| 0 <= k < f.len() && #[trigger] f[k].1 == u
}

// Every neighbour of `u` that can be entered within the budget from `u` is
// marked, at a cost no greater than through `u`.
spec fn settled(g: TileGrid, start: TilePos, speed: int, best: Seq<Option<u64>>, u: TilePos) -> bool {
    forall|v: TilePos|
        #[trigger] is_neighbor(u, v, g.map_size()) && enterable(g, v) && cost_at(
            g.map_size(),
            start,
            best,
            u,
        ) + entry_cost(g, v) <= speed ==> marked(g.map_size(), start, best, v) && cost_at(
            g.map_size(),
            start,
            best,
            v,
        ) <= cost_at(g.map_size(), start, best, u) + entry_cost(g, v)
}

// `b1` keeps every mark of `b0`, at the same cost.
spec fn keeps_marks(size: TilemapSize, start: TilePos, b0: Seq<Option<u64>>, b1: Seq<Option<u64>>) -> bool {
    forall|v: TilePos| #[trigger]
        marked(size, start, b0, v) ==> marked(size, start, b1, v) && cost_at(size, start, b1, v)
            == cost_at(size, start, b0, v)
}

proof fn lemma_settled_kept(
    g: TileGrid,
    start: TilePos,
    speed: int,
    b0: Seq<Option<u64>>,
    b1: Seq<Option<u64>>,
    u: TilePos,
)
    requires
        settled(g, start, speed, b0, u),
        marked(g.map_size(), start, b0, u),
        keeps_marks(g.map_size(), start, b0, b1),
    ensures
        settled(g, start, speed, b1, u),
{
    assert forall|v: TilePos|
        #[trigger] is_neighbor(u, v, g.map_size()) && enterable(g, v) && cost_at(
            g.map_size(),
            start,
            b1,
            u,
        ) + entry_cost(g, v) <= speed implies marked(g.map_size(), start, b1, v) && cost_at(
        g.map_size(),
        start,
        b1,
        v,
    ) <= cost_at(g.map_size(), start, b1, u) + entry_cost(g, v) by {
        assert(marked(g.map_size(), start, b0, u));
        assert(marked(g.map_size(), start, b0, v));
    }
}

// Marking a fresh in-bounds tile keeps every other mark.
proof fn lemma_mark_keeps(
    size: TilemapSize,
    start: TilePos,
    b0: Seq<Option<u64>>,
    v: TilePos,
    c: u64,
)
    requires
        b0.len() == size.x * size.y,
        in_bounds(v, size),
        !marked(size, start, b0, v),
    ensures
        keeps_marks(size, start, b0, b0.update(cell_index(v, size), Some(c))),
        marked(size, start, b0.update(cell_index(v, size), Some(c)), v),
        cost_at(size, start, b0.update(cell_index(v, size), Some(c)), v) == c,
        forall|w: TilePos| #[trigger]
            marked(size, start, b0.update(cell_index(v, size), Some(c)), w) ==> marked(
                size,
                start,
                b0,
                w,
            ) || w == v,
{
    let b1 = b0.update(cell_index(v, size), Some(c));
    lemma_cell_index(v, size);
    assert forall|w: TilePos| #[trigger] marked(size, start, b0, w) implies marked(size, start, b1, w)
        && cost_at(size, start, b1, w) == cost_at(size, start, b0, w) by {
        if w != start {
            lemma_cell_index(w, size);
            lemma_cell_index_injective(v, w, size);
        }
    }
    assert forall|w: TilePos| #[trigger] marked(size, start, b1, w) implies marked(size, start, b0, w)
        || w == v by {
        if w != start && w != v {
            lemma_cell_index(w, size);
            lemma_cell_index_injective(v, w, size);
        }
    }
}

// Once every marked tile is settled, every tile reachable within the budget is
// marked, at a cost no greater than that of any walk to it.
proof fn lemma_complete(
    g: TileGrid,
    start: TilePos,
    speed: int,
    best: Seq<Option<u64>>,
    path: Seq<TilePos>,
)
    requires
        forall|u: TilePos| #[trigger]
            marked(g.map_size(), start, best, u) ==> settled(g, start, speed, best, u),
        is_walk(g, path),
        path[0] == start,
        walk_cost(g, path) <= speed,
    ensures
        marked(g.map_size(), start, best, path.last()),
        cost_at(g.map_size(), start, best, path.last()) <= walk_cost(g, path),
    decreases path.len(),
{
    if path.len() > 1 {
        let prefix = path.drop_last();
        let u = prefix.last();
        let v = path.last();
        assert(is_walk(g, prefix)) by {
            assert forall|i: int| 0 < i < prefix.len() implies #[trigger] is_neighbor(
                prefix[i - 1],
                prefix[i],
                g.map_size(),
            ) && enterable(g, prefix[i]) by {
                assert(is_neighbor(path[i - 1], path[i], g.map_size()));
            }
        }
        lemma_walk_cost_nonneg(g, prefix);
        assert(walk_cost(g, path) == walk_cost(g, prefix) + entry_cost(g, v));
        assert(entry_cost(g, v) >= 0);
        lemma_complete(g, start, speed, best, prefix);
        let n = path.len() - 1;
        assert(is_neighbor(path[n - 1], path[n], g.map_size()));
        assert(settled(g, start, speed, best, u));
    }
}

spec fn unmarked_count(s: Seq<Option<u64>>) -> nat
    decreases s.len(),
{
    if s.len() == 0 {
        0
    } else {
        unmarked_count(s.drop_last()) + if s.last() is None {
            1nat
        } else {
            0nat
        }
    }
}

proof fn lemma_unmarked_update(s: Seq<Option<u64>>, i: int, c: u64)
    requires
        0 <= i < s.len(),
        s[i] is None,
    ensures
        unmarked_count(s.update(i, Some(c))) + 1 == unmarked_count(s),
    decreases s.len(),
{
    let t = s.update(i, Some(c));
    if i == s.len() - 1 {
        assert(t.drop_last() =~= s.drop_last());
    } else {
        assert(t.drop_last() =~= s.drop_last().update(i, Some(c)));
        lemma_unmarked_update(s.drop_last(), i, c);
    }
}

/// More movement never loses a tile: whatever is reachable with budget `b0`
/// is reachable with any larger budget `b1`.
pub proof fn lemma_can_reach_within(g: TileGrid, start: TilePos, b0: int, b1: int, p: TilePos)
    requires
        can_reach(g, start, b0, p),
        b0 <= b1,
    ensures
        can_reach(g, start, b1, p),
{
    let path = choose|path: Seq<TilePos>|
        #[trigger] is_walk(g, path) && path[0] == start && path.last() == p && walk_cost(g, path)
            <= b0;
    assert(is_walk(g, path));
}

/// Every tile that a unit standing on `start` can move to with `speed` points
/// of movement: the start itself, and every tile reached by a walk whose entry
/// costs sum to at most `speed`. Tiles are settled in order of cost, so each
/// is expanded once.
pub fn reachable_tiles_from(grid: &TileGrid, start: TilePos, speed: u32) -> (r: Vec<TilePos>)
    ensures
        forall|p: TilePos| #[trigger] r@.contains(p) <==> can_reach(*grid, start, speed as int, p),
        r@.no_duplicates(),
{
    proof {
        use_type_invariant(grid);
    }
    let size = grid.size();
    let n = grid.cell_count();
    let mut best: Vec<Option<u64>> = Vec::new();
    let mut i: usize = 0;
    while i < n
        invariant
            i <= n,
            best@.len() == i,
            forall|k: int| 0 <= k < i ==> #[trigger] best@[k] == None::<u64>,
        decreases n - i,
    {
        best.push(None);
        i = i + 1;
    }
    if start.x < size.x && start.y < size.y {
        let si = grid.index_of(start);
        best.set(si, Some(0));
    }
    let mut frontier: Vec<(u64, TilePos)> = Vec::new();
    frontier.push((0, start));
    let ghost mut lvl: int = 0;
    proof {
        lemma_start_reaches_itself(*grid, start, 0);
        assert forall|v: TilePos| #[trigger] marked(size, start, best@, v) implies v == start by {
            if v != start && in_bounds(start, size) {
                lemma_cell_index(v, size);
                lemma_cell_index(start, size);
                lemma_cell_index_injective(v, start, size);
            }
            if v != start && in_bounds(v, size) {
                lemma_cell_index(v, size);
            }
        }
        assert forall|u: TilePos| #[trigger] marked(size, start, best@, u) && !in_frontier(
            frontier@,
            u,
        ) implies settled(*grid, start, speed as int, best@, u) by {
            assert(frontier@[0].1 == start);
        }
    }
    while frontier.len() > 0
        invariant
            grid.wf(),
            size == grid.map_size(),
            best@.len() == size.x * size.y,
            in_bounds(start, size) ==> best@[cell_index(start, size)] == Some(0u64),
            0 <= lvl,
            forall|k: int|
                0 <= k < frontier@.len() ==> marked(size, start, best@, #[trigger] frontier@[k].1)
                    && cost_at(size, start, best@, frontier@[k].1) == frontier@[k].0 && lvl
                    <= frontier@[k].0,
            forall|a: int, b: int|
                0 <= a < frontier@.len() && 0 <= b < frontier@.len() && a != b ==> frontier@[a].1
                    != frontier@[b].1,
            forall|v: TilePos| #[trigger]
                marked(size, start, best@, v) ==> cost_at(size, start, best@, v) <= speed
                    && can_reach(*grid, start, cost_at(size, start, best@, v), v),
            forall|v: TilePos| #[trigger]
                marked(size, start, best@, v) && v != start ==> cost_at(size, start, best@, v)
                    <= lvl + entry_cost(*grid, v),
            forall|u: TilePos| #[trigger]
                marked(size, start, best@, u) && !in_frontier(frontier@, u) ==> settled(
                    *grid,
                    start,
                    speed as int,
                    best@,
                    u,
                ),
        decreases 2 * unmarked_count(best@) + frontier@.len(),
    {
        let ghost measure = 2 * unmarked_count(best@) + frontier@.len();
        let mut m: usize = 0;
        let mut k: usize = 1;
        while k < frontier.len()
            invariant
                frontier@.len() > 0,
                m < frontier@.len(),
                1 <= k <= frontier@.len(),
                forall|a: int| 0 <= a < k ==> frontier@[m as int].0 <= #[trigger] frontier@[a].0,
            decreases frontier@.len() - k,
        {
            if frontier[k].0 < frontier[m].0 {
                m = k;
            }
            k = k + 1;
        }
        let ghost f0 = frontier@;
        let (cost, u) = frontier.remove(m);
        proof {
            assert forall|a: int| 0 <= a < frontier@.len() implies #[trigger] frontier@[a] == (
            if a < m {
                f0[a]
            } else {
                f0[a + 1]
            }) by {}
            assert(f0[m as int] == (cost, u));
            lvl = cost as int;
            assert forall|w: TilePos| #[trigger]
                marked(size, start, best@, w) && !in_frontier(frontier@, w) && w != u implies settled(
                *grid,
                start,
                speed as int,
                best@,
                w,
            ) by {
                if in_frontier(f0, w) {
                    let a = choose|a: int| 0 <= a < f0.len() && #[trigger] f0[a].1 == w;
                    assert(a != m);
                    let a1 = if a < m {
                        a
                    } else {
                        a - 1
                    };
                    assert(frontier@[a1].1 == w);
                }
            }
            assert(!in_frontier(frontier@, u)) by {
                if in_frontier(frontier@, u) {
                    let a = choose|a: int| 0 <= a < frontier@.len() && #[trigger] frontier@[a].1 == u;
                    if a < m {
                        assert(f0[a].1 == u);
                    } else {
                        assert(f0[a + 1].1 == u);
                    }
                }
            }
        }
        let nbrs = square_neighbors(u, size);
        let mut j: usize = 0;
        while j < nbrs.len()
            invariant
                grid.wf(),
                size == grid.map_size(),
                best@.len() == size.x * size.y,
                in_bounds(start, size) ==> best@[cell_index(start, size)] == Some(0u64),
                0 <= lvl,
                lvl == cost,
                j <= nbrs@.len(),
                forall|q: TilePos| #[trigger] nbrs@.contains(q) <==> is_neighbor(u, q, size),
                forall|q: TilePos| #[trigger] nbrs@.contains(q) ==> in_bounds(q, size),
                marked(size, start, best@, u),
                cost_at(size, start, best@, u) == cost,
                !in_frontier(frontier@, u),
                2 * unmarked_count(best@) + frontier@.len() + 1 <= measure,
                forall|k: int|
                    0 <= k < frontier@.len() ==> marked(
                        size,
                        start,
                        best@,
                        #[trigger] frontier@[k].1,
                    ) && cost_at(size, start, best@, frontier@[k].1) == frontier@[k].0 && lvl
                        <= frontier@[k].0,
                forall|a: int, b: int|
                    0 <= a < frontier@.len() && 0 <= b < frontier@.len() && a != b
                        ==> frontier@[a].1 != frontier@[b].1,
                forall|v: TilePos| #[trigger]
                    marked(size, start, best@, v) ==> cost_at(size, start, best@, v) <= speed
                        && can_reach(*grid, start, cost_at(size, start, best@, v), v),
                forall|v: TilePos| #[trigger]
                    marked(size, start, best@, v) && v != start ==> cost_at(size, start, best@, v)
                        <= lvl + entry_cost(*grid, v),
                forall|w: TilePos| #[trigger]
                    marked(size, start, best@, w) && !in_frontier(frontier@, w) && w != u
                        ==> settled(*grid, start, speed as int, best@, w),
                forall|a: int|
                    0 <= a < j ==> (enterable(*grid, #[trigger] nbrs@[a]) && cost + entry_cost(
                        *grid,
                        nbrs@[a],
                    ) <= speed ==> marked(size, start, best@, nbrs@[a]) && cost_at(
                        size,
                        start,
                        best@,
                        nbrs@[a],
                    ) <= cost + entry_cost(*grid, nbrs@[a])),
            decreases nbrs@.len() - j,
        {
            let v = nbrs[j];
            assert(nbrs@.contains(v));
            let iv = grid.index_of(v);
            if best[iv].is_none() {
                if let Some(t) = grid.get(v) {
                    let c: u64 = cost + t.move_cost as u64;
                    if c <= speed as u64 && t.can_move {
                        let ghost b0 = best@;
                        let ghost fr0 = frontier@;
                        proof {
                            lemma_mark_keeps(size, start, b0, v, c);
                            lemma_unmarked_update(b0, iv as int, c);
                            let path = choose|path: Seq<TilePos>|
                                #[trigger] is_walk(*grid, path) && path[0] == start && path.last()
                                    == u && walk_cost(*grid, path) <= cost;
                            lemma_extend_walk(*grid, path, v);
                            assert(is_walk(*grid, path.push(v)));
                        }
                        best.set(iv, Some(c));
                        frontier.push((c, v));
                        proof {
                            let b1 = best@;
                            assert(b1 == b0.update(cell_index(v, size), Some(c)));
                            if in_bounds(start, size) {
                                lemma_cell_index(start, size);
                                lemma_cell_index_injective(v, start, size);
                            }
                            assert forall|w: TilePos| #[trigger]
                                marked(size, start, b1, w) && !in_frontier(frontier@, w) && w != u
                                    implies settled(*grid, start, speed as int, b1, w) by {
                                if w != v {
                                    assert(marked(size, start, b0, w));
                                    if in_frontier(fr0, w) {
                                        let a = choose|a: int|
                                            0 <= a < fr0.len() && #[trigger] fr0[a].1 == w;
                                        assert(frontier@[a].1 == w);
                                    }
                                    lemma_settled_kept(*grid, start, speed as int, b0, b1, w);
                                } else {
                                    assert(frontier@[frontier@.len() - 1].1 == v);
                                }
                            }
                            assert forall|k: int|
                                0 <= k < frontier@.len() implies marked(
                                size,
                                start,
                                b1,
                                #[trigger] frontier@[k].1,
                            ) && cost_at(size, start, b1, frontier@[k].1) == frontier@[k].0 && lvl
                                <= frontier@[k].0 by {
                                if k < fr0.len() {
                                    assert(frontier@[k] == fr0[k]);
                                    assert(marked(size, start, b0, fr0[k].1));
                                }
                            }
                            assert forall|a: int, b: int|
                                0 <= a < frontier@.len() && 0 <= b < frontier@.len() && a != b
                                    implies frontier@[a].1 != frontier@[b].1 by {
                                if a < fr0.len() && b < fr0.len() {
                                    assert(frontier@[a] == fr0[a] && frontier@[b] == fr0[b]);
                                } else if a < fr0.len() {
                                    assert(frontier@[a] == fr0[a]);
                                    assert(marked(size, start, b0, fr0[a].1));
                                } else if b < fr0.len() {
                                    assert(frontier@[b] == fr0[b]);
                                    assert(marked(size, start, b0, fr0[b].1));
                                }
                            }
                            assert forall|v2: TilePos| #[trigger] marked(size, start, b1, v2) implies cost_at(
                                size,
                                start,
                                b1,
                                v2,
                            ) <= speed && can_reach(*grid, start, cost_at(size, start, b1, v2), v2) by {
                                if v2 != v {
                                    assert(marked(size, start, b0, v2));
                                }
                            }
                            assert forall|v2: TilePos| #[trigger]
                                marked(size, start, b1, v2) && v2 != start implies cost_at(
                                size,
                                start,
                                b1,
                                v2,
                            ) <= lvl + entry_cost(*grid, v2) by {
                                if v2 != v {
                                    assert(marked(size, start, b0, v2));
                                }
                            }
                            assert(!in_frontier(frontier@, u)) by {
                                if in_frontier(frontier@, u) {
                                    let a = choose|a: int|
                                        0 <= a < frontier@.len() && #[trigger] frontier@[a].1 == u;
                                    if a < fr0.len() {
                                        assert(fr0[a].1 == u);
                                    }
                                }
                            }
                            assert forall|a: int|
                                0 <= a <= j && enterable(*grid, #[trigger] nbrs@[a]) && cost
                                + entry_cost(*grid, nbrs@[a]) <= speed implies (marked(
                                size,
                                start,
                                b1,
                                nbrs@[a],
                            ) && cost_at(size, start, b1, nbrs@[a]) <= cost + entry_cost(
                                *grid,
                                nbrs@[a],
                            )) by {
                                if a < j && enterable(*grid, nbrs@[a]) && cost + entry_cost(
                                    *grid,
                                    nbrs@[a],
                                ) <= speed {
                                    assert(marked(size, start, b0, nbrs@[a]));
                                }
                            }
                        }
                    }
                }
            } else {
                proof {
                    lemma_cell_index(v, size);
                    assert(marked(size, start, best@, v));
                }
            }
            j = j + 1;
        }
        proof {
            assert forall|v: TilePos| #[trigger] is_neighbor(u, v, size) && enterable(*grid, v)
                && cost_at(size, start, best@, u) + entry_cost(*grid, v) <= speed implies marked(
                size,
                start,
                best@,
                v,
            ) && cost_at(size, start, best@, v) <= cost_at(size, start, best@, u) + entry_cost(
                *grid,
                v,
            ) by {
                assert(nbrs@.contains(v));
                let a = choose|a: int| 0 <= a < nbrs@.len() && nbrs@[a] == v;
                assert(nbrs@[a] == v);
            }
            assert(settled(*grid, start, speed as int, best@, u));
        }
    }
    proof {
        assert forall|u: TilePos| #[trigger] marked(size, start, best@, u) implies settled(
            *grid,
            start,
            speed as int,
            best@,
            u,
        ) by {
            assert(!in_frontier(frontier@, u));
        }
    }
    let mut r: Vec<TilePos> = Vec::new();
    proof { lemma_push_no_duplicates(r@, start); }
    r.push(start);
    let mut y: u32 = 0;
    while y < size.y
        invariant
            grid.wf(),
            size == grid.map_size(),
            best@.len() == size.x * size.y,
            y <= size.y,
            r@.no_duplicates(),
            forall|p: TilePos| #[trigger]
                r@.contains(p) <==> (p == start || (p.y < y && marked(size, start, best@, p))),
        decreases size.y - y,
    {
        let mut x: u32 = 0;
        while x < size.x
            invariant
                grid.wf(),
                size == grid.map_size(),
                best@.len() == size.x * size.y,
                y < size.y,
                x <= size.x,
                r@.no_duplicates(),
                forall|p: TilePos| #[trigger]
                    r@.contains(p) <==> (p == start || ((p.y < y || (p.y == y && p.x < x))
                        && marked(size, start, best@, p))),
            decreases size.x - x,
        {
            let p = TilePos { x, y };
            let ip = grid.index_of(p);
            if p != start && best[ip].is_some() {
                proof { lemma_push_no_duplicates(r@, p); }
                r.push(p);
            }
            x = x + 1;
        }
        y = y + 1;
    }
    proof {
        assert forall|p: TilePos| #[trigger] r@.contains(p) <==> can_reach(*grid, start, speed as int, p) by {
            if r@.contains(p) {
                assert(marked(size, start, best@, p));
                lemma_can_reach_within(*grid, start, cost_at(size, start, best@, p), speed as int, p);
            }
            if can_reach(*grid, start, speed as int, p) {
                let path = choose|path: Seq<TilePos>|
                    #[trigger] is_walk(*grid, path) && path[0] == start && path.last() == p
                        && walk_cost(*grid, path) <= speed;
                lemma_complete(*grid, start, speed as int, best@, path);
            }
        }
    }
    r
}

/// `p` lies at exactly one of the attack ranges from one of the tiles of
/// `reachable`.
pub open spec fn attack_covers(reachable: Seq<TilePos>, ranges: Seq<u32>, p: TilePos) -> bool {
    exists|i: int, j: int|
        0 <= i < ranges.len() && 0 <= j < reachable.len() && #[trigger] tile_distance(
            reachable[j],
            p,
        ) == #[trigger] ranges[i]
}

/// Whether `v` holds `p`.
pub fn contains_tile(v: &Vec<TilePos>, p: TilePos) -> (r: bool)
    ensures
        r == v@.contains(p),
{
    let mut i: usize = 0;
    while i < v.len()
        invariant
            i <= v@.len(),
            forall|k: int| 0 <= k < i ==> v@[k] != p,
        decreases v@.len() - i,
    {
        if v[i] == p {
            return true;
        }
        i = i + 1;
    }
    false
}

/// The tile `t` moved by `o`, or `None` where a coordinate leaves the
/// unsigned range.
pub fn offset_tile(t: TilePos, o: IVec2) -> (r: Option<TilePos>)
    ensures
        r is Some <==> (0 <= t.x + o.x <= u32::MAX && 0 <= t.y + o.y <= u32::MAX),
        r is Some ==> r->Some_0.x == t.x + o.x && r->Some_0.y == t.y + o.y,
{
    let x: i64 = t.x as i64 + o.x as i64;
    let y: i64 = t.y as i64 + o.y as i64;
    if 0 <= x && x <= u32::MAX as i64 && 0 <= y && y <= u32::MAX as i64 {
        Some(TilePos { x: x as u32, y: y as u32 })
    } else {
        None
    }
}

/// Every tile that lies at exactly one of `ranges` (taxicab distance) from one
/// of the tiles of `reachable`. Positions that would leave the unsigned
/// coordinate range are dropped.
pub fn get_attackable_tiles(reachable: &Vec<TilePos>, ranges: &Vec<u32>) -> (r: Vec<TilePos>)
    requires
        forall|i: int| 0 <= i < ranges@.len() ==> #[trigger] ranges@[i] <= i32::MAX,
    ensures
        forall|p: TilePos| #[trigger] r@.contains(p) <==> attack_covers(reachable@, ranges@, p),
        r@.no_duplicates(),
{
    let mut out: Vec<TilePos> = Vec::new();
    let mut i: usize = 0;
    while i < ranges.len()
        invariant
            i <= ranges@.len(),
            forall|k: int| 0 <= k < ranges@.len() ==> #[trigger] ranges@[k] <= i32::MAX,
            out@.no_duplicates(),
            forall|p: TilePos| #[trigger]
                out@.contains(p) <==> attack_covers(reachable@, ranges@.take(i as int), p),
        decreases ranges@.len() - i,
    {
        let range = ranges[i];
        let offsets = get_range_offsets(range);
        let mut j: usize = 0;
        while j < reachable.len()
            invariant
                i < ranges@.len(),
                range == ranges@[i as int],
                range <= i32::MAX,
                j <= reachable@.len(),
                forall|o: IVec2| #[trigger] offsets@.contains(o) <==> manhattan_norm(o) == range,
                out@.no_duplicates(),
                forall|p: TilePos| #[trigger]
                    out@.contains(p) <==> (attack_covers(reachable@, ranges@.take(i as int), p)
                        || exists|b: int|
                        0 <= b < j && #[trigger] tile_distance(reachable@[b], p) == range),
            decreases reachable@.len() - j,
        {
            let t = reachable[j];
            let mut k: usize = 0;
            while k < offsets.len()
                invariant
                    i < ranges@.len(),
                    range == ranges@[i as int],
                    j < reachable@.len(),
                    t == reachable@[j as int],
                    k <= offsets@.len(),
                    out@.no_duplicates(),
                    forall|p: TilePos| #[trigger]
                        out@.contains(p) <==> (attack_covers(reachable@, ranges@.take(i as int), p)
                            || (exists|b: int|
                            0 <= b < j && #[trigger] tile_distance(reachable@[b], p) == range) || (
                        exists|c: int|
                            0 <= c < k && p.x == t.x + (#[trigger] offsets@[c]).x && p.y == t.y
                                + offsets@[c].y)),
                decreases offsets@.len() - k,
            {
                let o = offsets[k];
                if let Some(p) = offset_tile(t, o) {
                    if !contains_tile(&out, p) {
                        proof { lemma_push_no_duplicates(out@, p); }
                        out.push(p);
                    }
                    proof {
                        assert forall|q: TilePos| #[trigger] out@.contains(q) <==> (attack_covers(
                            reachable@,
                            ranges@.take(i as int),
                            q,
                        ) || (exists|b: int|
                            0 <= b < j && #[trigger] tile_distance(reachable@[b], q) == range) || (
                        exists|c: int|
                            0 <= c < k + 1 && q.x == t.x + (#[trigger] offsets@[c]).x && q.y == t.y
                                + offsets@[c].y)) by {
                            if q == p {
                                assert(offsets@[k as int] == o);
                            }
                        }
                    }
                } else {
                    proof {
                        assert forall|q: TilePos| #[trigger] out@.contains(q) <==> (attack_covers(
                            reachable@,
                            ranges@.take(i as int),
                            q,
                        ) || (exists|b: int|
                            0 <= b < j && #[trigger] tile_distance(reachable@[b], q) == range) || (
                        exists|c: int|
                            0 <= c < k + 1 && q.x == t.x + (#[trigger] offsets@[c]).x && q.y == t.y
                                + offsets@[c].y)) by {
                            if exists|c: int|
                                0 <= c < k + 1 && q.x == t.x + (#[trigger] offsets@[c]).x && q.y
                                    == t.y + offsets@[c].y {
                                let c = choose|c: int|
                                    0 <= c < k + 1 && q.x == t.x + (#[trigger] offsets@[c]).x
                                        && q.y == t.y + offsets@[c].y;
                                if c == k {
                                    assert(offsets@[c] == o);
                                }
                            }
                        }
                    }
                }
                k = k + 1;
            }
            proof {
                assert forall|q: TilePos| #[trigger] out@.contains(q) <==> (attack_covers(
                    reachable@,
                    ranges@.take(i as int),
                    q,
                ) || exists|b: int|
                    0 <= b < j + 1 && #[trigger] tile_distance(reachable@[b], q) == range) by {
                    if tile_distance(t, q) == range {
                        let dx: int = q.x - t.x;
                        let dy: int = q.y - t.y;
                        assert(i32::MIN <= dx <= i32::MAX && i32::MIN <= dy <= i32::MAX);
                        let o = IVec2 { x: dx as i32, y: dy as i32 };
                        assert(o.x == dx && o.y == dy);
                        assert(manhattan_norm(o) == range);
                        assert(offsets@.contains(o));
                        let c = choose|c: int| 0 <= c < offsets@.len() && offsets@[c] == o;
                        assert(q.x == t.x + offsets@[c].x && q.y == t.y + offsets@[c].y);
                    }
                    if exists|c: int|
                        0 <= c < offsets@.len() && q.x == t.x + (#[trigger] offsets@[c]).x && q.y
                            == t.y + offsets@[c].y {
                        let c = choose|c: int|
                            0 <= c < offsets@.len() && q.x == t.x + (#[trigger] offsets@[c]).x
                                && q.y == t.y + offsets@[c].y;
                        assert(offsets@.contains(offsets@[c]));
                        assert(tile_distance(reachable@[j as int], q) == range);
                    }
                    if exists|b: int|
                        0 <= b < j + 1 && #[trigger] tile_distance(reachable@[b], q) == range {
                        let b = choose|b: int|
                            0 <= b < j + 1 && #[trigger] tile_distance(reachable@[b], q) == range;
                        if b == j {
                            assert(tile_distance(t, q) == range);
                        }
                    }
                }
            }
            j = j + 1;
        }
        proof {
            let pre = ranges@.take(i as int);
            let nxt = ranges@.take(i + 1);
            assert forall|q: TilePos| #[trigger] out@.contains(q) <==> attack_covers(
                reachable@,
                nxt,
                q,
            ) by {
                if attack_covers(reachable@, pre, q) {
                    let (a, b) = choose|a: int, b: int|
                        0 <= a < pre.len() && 0 <= b < reachable@.len() && #[trigger] tile_distance(
                            reachable@[b],
                            q,
                        ) == #[trigger] pre[a];
                    assert(nxt[a] == pre[a]);
                }
                if exists|b: int|
                    0 <= b < reachable@.len() && #[trigger] tile_distance(reachable@[b], q)
                        == range {
                    let b = choose|b: int|
                        0 <= b < reachable@.len() && #[trigger] tile_distance(reachable@[b], q)
                            == range;
                    assert(nxt[i as int] == range);
                }
                if attack_covers(reachable@, nxt, q) {
                    let (a, b) = choose|a: int, b: int|
                        0 <= a < nxt.len() && 0 <= b < reachable@.len() && #[trigger] tile_distance(
                            reachable@[b],
                            q,
                        ) == #[trigger] nxt[a];
                    if a < i {
                        assert(pre[a] == nxt[a]);
                    }
                }
            }
        }
        i = i + 1;
    }
    assert(ranges@.take(ranges@.len() as int) == ranges@);
    out
}

/// Where every enterable tile costs at least 1 to enter, a unit without
/// movement reaches its own tile and nothing else.
pub proof fn lemma_speed_zero_reaches_only_start(g: TileGrid, start: TilePos, p: TilePos)
    requires
        forall|q: TilePos| #[trigger] enterable(g, q) ==> entry_cost(g, q) >= 1,
    ensures
        can_reach(g, start, 0, p) <==> p == start,
{
    if p == start {
        lemma_start_reaches_itself(g, start, 0);
    }
    if can_reach(g, start, 0, p) {
        let path = choose|path: Seq<TilePos>|
            #[trigger] is_walk(g, path) && path[0] == start && path.last() == p && walk_cost(g, path)
                <= 0;
        if path.len() > 1 {
            let prefix = path.drop_last();
            lemma_walk_cost_nonneg(g, prefix);
            assert(is_neighbor(path[path.len() - 2], path[path.len() - 1], g.map_size()));
            assert(enterable(g, path.last()));
        }
    }
}

/// Two results that both meet the contract of [`reachable_tiles_from`] for the
/// same grid, start and speed hold the same tiles.
pub proof fn lemma_reachable_sets_agree(
    g: TileGrid,
    start: TilePos,
    speed: u32,
    a: Seq<TilePos>,
    b: Seq<TilePos>,
)
    requires
        forall|p: TilePos| #[trigger] a.contains(p) <==> can_reach(g, start, speed as int, p),
        forall|p: TilePos| #[trigger] b.contains(p) <==> can_reach(g, start, speed as int, p),
    ensures
        a.to_set() == b.to_set(),
{
    assert(a.to_set() =~= b.to_set());
}

/// Projecting the same reachable tiles with the same ranges twice gives the
/// same attackable tiles.
pub proof fn lemma_attackable_sets_agree(
    r1: Seq<TilePos>,
    r2: Seq<TilePos>,
    ranges: Seq<u32>,
    a: Seq<TilePos>,
    b: Seq<TilePos>,
)
    requires
        r1.to_set() == r2.to_set(),
        forall|p: TilePos| #[trigger] a.contains(p) <==> attack_covers(r1, ranges, p),
        forall|p: TilePos| #[trigger] b.contains(p) <==> attack_covers(r2, ranges, p),
    ensures
        a.to_set() == b.to_set(),
{
    assert forall|p: TilePos| attack_covers(r1, ranges, p) implies attack_covers(r2, ranges, p) by {
        let (i, j) = choose|i: int, j: int|
            0 <= i < ranges.len() && 0 <= j < r1.len() && #[trigger] tile_distance(r1[j], p)
                == #[trigger] ranges[i];
        assert(r1.to_set().contains(r1[j]));
        assert(r2.to_set().contains(r1[j]));
        let k = choose|k: int| 0 <= k < r2.len() && r2[k] == r1[j];
        assert(tile_distance(r2[k], p) == ranges[i]);
    }
    assert forall|p: TilePos| attack_covers(r2, ranges, p) implies attack_covers(r1, ranges, p) by {
        let (i, j) = choose|i: int, j: int|
            0 <= i < ranges.len() && 0 <= j < r2.len() && #[trigger] tile_distance(r2[j], p)
                == #[trigger] ranges[i];
        assert(r2.to_set().contains(r2[j]));
        assert(r1.to_set().contains(r2[j]));
        let k = choose|k: int| 0 <= k < r1.len() && r1[k] == r2[j];
        assert(tile_distance(r1[k], p) == ranges[i]);
    }
    assert(a.to_set() =~= b.to_set());
}

/// With the single range 0 the attack pattern is the origin alone, so the
/// projection is exactly the reachable tiles.
pub proof fn lemma_range_zero_is_identity(reachable: Seq<TilePos>, p: TilePos)
    ensures
        attack_covers(reachable, seq![0u32], p) <==> reachable.contains(p),
{
    let ranges = seq![0u32];
    if reachable.contains(p) {
        let j = choose|j: int| 0 <= j < reachable.len() && reachable[j] == p;
        assert(tile_distance(reachable[j], p) == ranges[0]);
    }
    if attack_covers(reachable, ranges, p) {
        let (i, j) = choose|i: int, j: int|
            0 <= i < ranges.len() && 0 <= j < reachable.len() && #[trigger] tile_distance(
                reachable[j],
                p,
            ) == #[trigger] ranges[i];
        assert(reachable[j] == p);
    }
}

/// A tile can be both reachable and attack-movable; it is then at one of the
/// attack ranges from some reachable tile, and that tile is another one
/// unless the range is 0.
pub proof fn lemma_reachable_and_attack_movable(reachable: Seq<TilePos>, ranges: Seq<u32>, p: TilePos)
    requires
        reachable.contains(p),
        attack_covers(reachable, ranges, p),
    ensures
        exists|i: int, j: int|
            0 <= i < ranges.len() && 0 <= j < reachable.len() && #[trigger] tile_distance(
                reachable[j],
                p,
            ) == #[trigger] ranges[i] && (reachable[j] == p ==> ranges[i] == 0),
{
    let (i, j) = choose|i: int, j: int|
        0 <= i < ranges.len() && 0 <= j < reachable.len() && #[trigger] tile_distance(
            reachable[j],
            p,
        ) == #[trigger] ranges[i];
    assert(reachable[j] == p ==> tile_distance(reachable[j], p) == 0);
}

} // verus!
