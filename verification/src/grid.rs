//! The square tile map and distances on it.

use vstd::prelude::*;

verus! {

/// Width and height of the map, in tiles.
pub const MAP: usize = 20;

/// One cell of the map.
#[derive(Clone, Copy, PartialEq, Eq, Structural, Debug)]
pub enum Tile {
    Wall,
    Floor,
}

/// A tile position `(x, y)`.
pub type Pos = (usize, usize);

/// The map, stored row by row: `map[y][x]`.
pub type Grid = [[Tile; MAP]; MAP];

pub open spec fn in_bounds(p: Pos) -> bool {
    p.0 < MAP && p.1 < MAP
}

pub open spec fn tile_at(g: Grid, p: Pos) -> Tile {
    g@[p.1 as int]@[p.0 as int]
}

/// A tile that the knight and the goblins may stand on.
pub open spec fn walkable(g: Grid, p: Pos) -> bool {
    in_bounds(p) && tile_at(g, p) == Tile::Floor
}

pub open spec fn abs_diff(a: int, b: int) -> int {
    if a <= b {
        b - a
    } else {
        a - b
    }
}

/// Manhattan distance between two tiles.
pub open spec fn manhattan(a: Pos, b: Pos) -> int {
    abs_diff(a.0 as int, b.0 as int) + abs_diff(a.1 as int, b.1 as int)
}

/// Two tiles that share a side.
pub open spec fn adjacent(a: Pos, b: Pos) -> bool {
    manhattan(a, b) == 1
}

/// The order in which the path finder looks at the neighbours of a tile:
/// up, down, left, right.
pub open spec fn step_rank(a: Pos, b: Pos) -> int {
    if b.0 == a.0 && b.1 + 1 == a.1 {
        0
    } else if b.0 == a.0 && b.1 == a.1 + 1 {
        1
    } else if b.0 + 1 == a.0 && b.1 == a.1 {
        2
    } else {
        3
    }
}

/// Two different neighbours of a tile have different ranks.
pub proof fn lemma_step_rank_injective(a: Pos, b: Pos, c: Pos)
    requires
        adjacent(a, b),
        adjacent(a, c),
        step_rank(a, b) == step_rank(a, c),
    ensures
        b == c,
{
}


/// The neighbour of `p` in direction `k` (0 up, 1 down, 2 left, 3 right),
/// when its coordinates are not negative.
pub open spec fn neighbor(p: Pos, k: int) -> Option<Pos> {
    if k == 0 {
        if p.1 >= 1 {
            Some((p.0, (p.1 - 1) as usize))
        } else {
            None
        }
    } else if k == 1 {
        Some((p.0, (p.1 + 1) as usize))
    } else if k == 2 {
        if p.0 >= 1 {
            Some(((p.0 - 1) as usize, p.1))
        } else {
            None
        }
    } else {
        Some(((p.0 + 1) as usize, p.1))
    }
}

/// The offset `(dx, dy)` of direction `k`, in the order up, down, left, right.
pub fn direction(k: usize) -> (d: (i32, i32))
    requires
        k < 4,
    ensures
        k == 0 ==> d == (0i32, -1i32),
        k == 1 ==> d == (0i32, 1i32),
        k == 2 ==> d == (-1i32, 0i32),
        k == 3 ==> d == (1i32, 0i32),
{
    if k == 0 {
        (0, -1)
    } else if k == 1 {
        (0, 1)
    } else if k == 2 {
        (-1, 0)
    } else {
        (1, 0)
    }
}

/// The neighbour in direction `k` is adjacent and has rank `k`.
pub proof fn lemma_neighbor_rank(p: Pos, k: int, y: Pos)
    requires
        0 <= k < 4,
        in_bounds(p),
        neighbor(p, k) == Some(y),
    ensures
        adjacent(p, y),
        step_rank(p, y) == k,
{
}

/// Every neighbour is the neighbour in the direction of its rank.
pub proof fn lemma_adjacent_neighbor(p: Pos, y: Pos)
    requires
        adjacent(p, y),
    ensures
        0 <= step_rank(p, y) < 4,
        neighbor(p, step_rank(p, y)) == Some(y),
{
}

/// Writing one cell of a grid-shaped array changes that cell alone.
pub proof fn lemma_cell_write<T>(before: [[T; MAP]; MAP], after: [[T; MAP]; MAP], p: Pos, val: T)
    requires
        in_bounds(p),
        after@ == before@.update(p.1 as int, after@[p.1 as int]),
        after@[p.1 as int]@ == before@[p.1 as int]@.update(p.0 as int, val),
    ensures
        forall|y: Pos|
            in_bounds(y) ==> #[trigger] after@[y.1 as int]@[y.0 as int] == (if y == p {
                val
            } else {
                before@[y.1 as int]@[y.0 as int]
            }),
{
}

/// The absolute difference of two coordinates after the conversion to
/// `i32` that the distance works with.
pub open spec fn coord_gap(a: usize, b: usize) -> int {
    abs_diff(a as i32 as int, b as i32 as int)
}

/// Manhattan distance of two tiles, computed on the coordinates converted
/// to `i32`; for coordinates up to `i32::MAX` it is `manhattan(p1, p2)`.
pub fn dist(p1: Pos, p2: Pos) -> (d: i32)
    requires
        i32::MIN < p1.0 as i32 - p2.0 as i32 <= i32::MAX,
        i32::MIN < p1.1 as i32 - p2.1 as i32 <= i32::MAX,
        coord_gap(p1.0, p2.0) + coord_gap(p1.1, p2.1) <= i32::MAX,
    ensures
        d == coord_gap(p1.0, p2.0) + coord_gap(p1.1, p2.1),
        p1.0 <= i32::MAX && p1.1 <= i32::MAX && p2.0 <= i32::MAX && p2.1 <= i32::MAX ==> d
            == manhattan(p1, p2),
{
    let dx = p1.0 as i32 - p2.0 as i32;
    let dy = p1.1 as i32 - p2.1 as i32;
    let ax = if dx < 0 { -dx } else { dx };
    let ay = if dy < 0 { -dy } else { dy };
    ax + ay
}

} // verus!
