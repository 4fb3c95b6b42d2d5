//! Breadth-first path finding on the tile map.
//!
//! A route is described by the tiles it enters, one step at a time, after the
//! starting tile. Among all shortest routes the path finder returns the one
//! whose sequence of moves is least in the order up, down, left, right: it
//! looks at the neighbours of a tile in that order and keeps the first way in
//! which it reached each tile.

use vstd::prelude::*;
use std::collections::VecDeque;
use crate::grid::{
    adjacent, direction, in_bounds, lemma_adjacent_neighbor, lemma_cell_write, lemma_neighbor_rank,
    lemma_step_rank_injective, neighbor, step_rank, walkable, Grid, Pos, Tile, MAP,
};

verus! {

/// The tile a route stands on before it enters `w[i]`.
pub open spec fn prev_of(start: Pos, w: Seq<Pos>, i: int) -> Pos {
    if i == 0 {
        start
    } else {
        w[i - 1]
    }
}

/// The tile a route ends on.
pub open spec fn end_of(start: Pos, w: Seq<Pos>) -> Pos {
    if w.len() == 0 {
        start
    } else {
        w.last()
    }
}

/// Step `i` of `w` enters a walkable tile next to the one before it.
pub open spec fn step_ok(g: Grid, start: Pos, w: Seq<Pos>, i: int) -> bool {
    walkable(g, w[i]) && adjacent(prev_of(start, w, i), w[i])
}

/// `w` is a route from `start`: every step enters a walkable neighbour.
pub open spec fn is_walk(g: Grid, start: Pos, w: Seq<Pos>) -> bool {
    forall|i: int| 0 <= i < w.len() ==> #[trigger] step_ok(g, start, w, i)
}

/// `w` is a route from `start` that ends on `goal`.
pub open spec fn walk_to(g: Grid, start: Pos, w: Seq<Pos>, goal: Pos) -> bool {
    is_walk(g, start, w) && end_of(start, w) == goal
}

pub open spec fn reachable(g: Grid, start: Pos, goal: Pos) -> bool {
    exists|w: Seq<Pos>| walk_to(g, start, w, goal)
}

/// `a` and `b` agree before index `k` and `a` turns, at `k`, in a direction
/// that comes earlier in the order up, down, left, right.
pub open spec fn first_diff(start: Pos, a: Seq<Pos>, b: Seq<Pos>, k: int) -> bool {
    &&& 0 <= k < a.len()
    &&& k < b.len()
    &&& a.take(k) == b.take(k)
    &&& step_rank(prev_of(start, a, k), a[k]) < step_rank(prev_of(start, b, k), b[k])
}

/// Two routes of one length, the first one's moves lexicographically before the second's.
pub open spec fn precedes(start: Pos, a: Seq<Pos>, b: Seq<Pos>) -> bool {
    a.len() == b.len() && exists|k: int| #[trigger] first_diff(start, a, b, k)
}

/// Shorter, or of equal length and not after.
pub open spec fn shortlex_le(start: Pos, a: Seq<Pos>, b: Seq<Pos>) -> bool {
    a.len() < b.len() || (a.len() == b.len() && (a == b || precedes(start, a, b)))
}

/// Shorter, or of equal length and before.
pub open spec fn shortlex_lt(start: Pos, a: Seq<Pos>, b: Seq<Pos>) -> bool {
    a.len() < b.len() || precedes(start, a, b)
}

/// `p` is the route the path finder chooses: a shortest route to `goal`,
/// and among the shortest ones the first in the order of its moves.
pub open spec fn is_route(g: Grid, start: Pos, goal: Pos, p: Seq<Pos>) -> bool {
    &&& walk_to(g, start, p, goal)
    &&& forall|w: Seq<Pos>| #[trigger] walk_to(g, start, w, goal) ==> shortlex_le(start, p, w)
}

/// What the path finder returns: the chosen route, or nothing when `goal`
/// cannot be reached from `start`.
pub open spec fn route(g: Grid, start: Pos, goal: Pos) -> Seq<Pos> {
    if exists|p: Seq<Pos>| is_route(g, start, goal, p) {
        choose|p: Seq<Pos>| is_route(g, start, goal, p)
    } else {
        Seq::empty()
    }
}


/// Marks of the tiles the search has reached, `flags[y][x]`.
pub type Flags = [[bool; MAP]; MAP];

pub open spec fn seen(vis: Flags, p: Pos) -> bool {
    vis@[p.1 as int]@[p.0 as int]
}

spec fn count_row(r: Seq<bool>) -> nat
    decreases r.len(),
{
    if r.len() == 0 {
        0
    } else {
        count_row(r.drop_last()) + (if r.last() {
            1nat
        } else {
            0nat
        })
    }
}

spec fn count_rows(rows: Seq<[bool; MAP]>) -> nat
    decreases rows.len(),
{
    if rows.len() == 0 {
        0
    } else {
        count_rows(rows.drop_last()) + count_row(rows.last()@)
    }
}

/// How many tiles carry a mark.
spec fn count_seen(vis: Flags) -> nat {
    count_rows(vis@)
}

proof fn lemma_count_row_bound(r: Seq<bool>)
    ensures
        count_row(r) <= r.len(),
    decreases r.len(),
{
    if r.len() > 0 {
        lemma_count_row_bound(r.drop_last());
    }
}

proof fn lemma_count_row_set(r: Seq<bool>, i: int)
    requires
        0 <= i < r.len(),
        !r[i],
    ensures
        count_row(r.update(i, true)) == count_row(r) + 1,
    decreases r.len(),
{
    let r2 = r.update(i, true);
    if i == r.len() - 1 {
        assert(r2.drop_last() =~= r.drop_last());
    } else {
        lemma_count_row_set(r.drop_last(), i);
        assert(r2.drop_last() =~= r.drop_last().update(i, true));
    }
}

proof fn lemma_count_rows_bound(rows: Seq<[bool; MAP]>)
    ensures
        count_rows(rows) <= MAP * rows.len(),
    decreases rows.len(),
{
    if rows.len() > 0 {
        lemma_count_rows_bound(rows.drop_last());
        lemma_count_row_bound(rows.last()@);
    }
}

proof fn lemma_count_rows_set(rows: Seq<[bool; MAP]>, j: int, row: [bool; MAP])
    requires
        0 <= j < rows.len(),
        count_row(row@) == count_row(rows[j]@) + 1,
    ensures
        count_rows(rows.update(j, row)) == count_rows(rows) + 1,
    decreases rows.len(),
{
    let rows2 = rows.update(j, row);
    if j == rows.len() - 1 {
        assert(rows2.drop_last() =~= rows.drop_last());
    } else {
        lemma_count_rows_set(rows.drop_last(), j, row);
        assert(rows2.drop_last() =~= rows.drop_last().update(j, row));
    }
}

/// Marking an unmarked tile raises the count by one; the count never exceeds the map.
proof fn lemma_mark(old_vis: Flags, new_vis: Flags, p: Pos)
    requires
        in_bounds(p),
        !seen(old_vis, p),
        new_vis@ == old_vis@.update(p.1 as int, new_vis@[p.1 as int]),
        new_vis@[p.1 as int]@ == old_vis@[p.1 as int]@.update(p.0 as int, true),
    ensures
        count_seen(new_vis) == count_seen(old_vis) + 1,
        count_seen(new_vis) <= MAP * MAP,
        forall|y: Pos| in_bounds(y) ==> (seen(new_vis, y) <==> (y == p || seen(old_vis, y))),
{
    lemma_count_row_set(old_vis@[p.1 as int]@, p.0 as int);
    lemma_count_rows_set(old_vis@, p.1 as int, new_vis@[p.1 as int]);
    lemma_count_rows_bound(new_vis@);
}



/// For each tile, the tile the search came from, `parents[y][x]`.
pub type Parents = [[Option<Pos>; MAP]; MAP];

spec fn parent_at(par: Parents, p: Pos) -> Option<Pos> {
    par@[p.1 as int]@[p.0 as int]
}

/// Every walkable neighbour of `p` has been reached.
spec fn nbrs_seen(g: Grid, cp: Map<Pos, Seq<Pos>>, p: Pos) -> bool {
    forall|y: Pos| walkable(g, y) && #[trigger] adjacent(p, y) ==> cp.dom().contains(y)
}

/// The marks agree with the tiles that have a recorded route.
spec fn dom_matches(vis: Flags, cp: Map<Pos, Seq<Pos>>) -> bool {
    &&& forall|p: Pos| #[trigger] cp.dom().contains(p) ==> in_bounds(p) && seen(vis, p)
    &&& forall|p: Pos| in_bounds(p) && #[trigger] seen(vis, p) ==> cp.dom().contains(p)
}

/// Each recorded route leads from the start to its tile.
spec fn paths_ok(g: Grid, s: Pos, cp: Map<Pos, Seq<Pos>>) -> bool {
    forall|p: Pos| #[trigger] cp.dom().contains(p) ==> walk_to(g, s, cp[p], p)
}

/// Each recorded route is the chosen one for its tile.
spec fn minimal(g: Grid, s: Pos, cp: Map<Pos, Seq<Pos>>) -> bool {
    forall|p: Pos, w: Seq<Pos>|
        cp.dom().contains(p) && #[trigger] walk_to(g, s, w, p) ==> shortlex_le(s, cp[p], w)
}

/// The tile a recorded route passes just before its end.
spec fn pred_of(s: Pos, cp: Map<Pos, Seq<Pos>>, p: Pos) -> Pos {
    end_of(s, cp[p].drop_last())
}

/// The parent marks follow the recorded routes one step back.
spec fn parents_ok(s: Pos, par: Parents, cp: Map<Pos, Seq<Pos>>) -> bool {
    forall|p: Pos|
        #[trigger] cp.dom().contains(p) && p != s ==> {
            &&& parent_at(par, p) == Some(pred_of(s, cp, p))
            &&& cp.dom().contains(pred_of(s, cp, p))
            &&& cp[pred_of(s, cp, p)] == cp[p].drop_last()
        }
}

/// A route to a tile that has no recorded route is longer than `d`, when
/// every recorded tile either has all its walkable neighbours recorded or
/// a route of length at least `d`.
proof fn lemma_unseen_far(g: Grid, s: Pos, cp: Map<Pos, Seq<Pos>>, d: nat, w: Seq<Pos>, v: Pos)
    requires
        cp.dom().contains(s),
        minimal(g, s, cp),
        forall|p: Pos| #[trigger] cp.dom().contains(p) ==> nbrs_seen(g, cp, p) || cp[p].len() >= d,
        walk_to(g, s, w, v),
        !cp.dom().contains(v),
    ensures
        w.len() >= d + 1,
    decreases w.len(),
{
    if w.len() > 0 {
        lemma_walk_prefix(g, s, w, v);
        let w2 = w.drop_last();
        let p = end_of(s, w2);
        if cp.dom().contains(p) {
            assert(!nbrs_seen(g, cp, p)) by {
                assert(walkable(g, v) && adjacent(p, v));
            }
            assert(shortlex_le(s, cp[p], w2));
        } else {
            lemma_unseen_far(g, s, cp, d, w2, p);
        }
    }
}

/// The route through the tile being expanded to a new neighbour is the
/// chosen route of that neighbour.
proof fn lemma_new_route(
    g: Grid,
    s: Pos,
    cp: Map<Pos, Seq<Pos>>,
    closed: Set<Pos>,
    q: Seq<Pos>,
    u: Pos,
    n: Pos,
)
    requires
        cp.dom().contains(s),
        cp.dom().contains(u),
        paths_ok(g, s, cp),
        minimal(g, s, cp),
        forall|p: Pos| #[trigger] cp.dom().contains(p) ==> closed.contains(p) || q.contains(p) || p == u,
        forall|c: Pos| #[trigger] closed.contains(c) ==> nbrs_seen(g, cp, c),
        forall|i: int|
            0 <= i < q.len() ==> cp.dom().contains(#[trigger] q[i]) && shortlex_lt(s, cp[u], cp[q[i]]),
        !cp.dom().contains(n),
        walkable(g, n),
        adjacent(u, n),
    ensures
        walk_to(g, s, cp[u].push(n), n),
        forall|w: Seq<Pos>| #[trigger] walk_to(g, s, w, n) ==> shortlex_le(s, cp[u].push(n), w),
{
    let d = cp[u].len();
    let r = cp[u].push(n);
    assert(walk_to(g, s, cp[u], u));
    lemma_walk_extend(g, s, cp[u], u, n);
    assert forall|p: Pos| #[trigger] cp.dom().contains(p) implies nbrs_seen(g, cp, p) || cp[p].len()
        >= d by {
        if !closed.contains(p) && p != u {
            assert(q.contains(p));
            let i = choose|i: int| 0 <= i < q.len() && q[i] == p;
            assert(shortlex_lt(s, cp[u], cp[q[i]]));
        }
    }
    assert forall|w: Seq<Pos>| #[trigger] walk_to(g, s, w, n) implies shortlex_le(s, r, w) by {
        lemma_unseen_far(g, s, cp, d, w, n);
        if w.len() == d + 1 {
            lemma_walk_prefix(g, s, w, n);
            let w2 = w.drop_last();
            let p = end_of(s, w2);
            if !cp.dom().contains(p) {
                lemma_unseen_far(g, s, cp, d, w2, p);
            }
            assert(shortlex_le(s, cp[p], w2));
            assert(!nbrs_seen(g, cp, p)) by {
                assert(walkable(g, n) && adjacent(p, n));
            }
            if p == u {
                if cp[u] != w2 {
                    lemma_precedes_push(s, cp[u], w2, n, n);
                }
            } else {
                assert(q.contains(p));
                let i = choose|i: int| 0 <= i < q.len() && q[i] == p;
                assert(shortlex_lt(s, cp[u], cp[q[i]]));
                if cp[p] == w2 {
                    lemma_precedes_push(s, cp[u], w2, n, n);
                } else {
                    lemma_precedes_trans(s, cp[u], cp[p], w2);
                    lemma_precedes_push(s, cp[u], w2, n, n);
                }
            }
        }
    }
}

/// The new tile goes behind every tile already waiting in the queue.
proof fn lemma_push_order(
    g: Grid,
    s: Pos,
    cp: Map<Pos, Seq<Pos>>,
    closed: Set<Pos>,
    q: Seq<Pos>,
    u: Pos,
    n: Pos,
    k: int,
)
    requires
        cp.dom().contains(s),
        cp[s] == Seq::<Pos>::empty(),
        cp.dom().contains(u),
        paths_ok(g, s, cp),
        forall|p: Pos|
            #[trigger] cp.dom().contains(p) && p != s ==> cp.dom().contains(pred_of(s, cp, p))
                && cp[pred_of(s, cp, p)] == cp[p].drop_last(),
        forall|c: Pos| #[trigger] closed.contains(c) ==> shortlex_lt(s, cp[c], cp[u]),
        forall|i: int|
            0 <= i < q.len() ==> cp.dom().contains(#[trigger] q[i]) && cp[u].len() <= cp[q[i]].len()
                <= cp[u].len() + 1,
        forall|i: int|
            0 <= i < q.len() && #[trigger] q[i] != s ==> closed.contains(pred_of(s, cp, q[i])) || (
            pred_of(s, cp, q[i]) == u && step_rank(u, q[i]) < k),
        step_rank(u, n) == k,
    ensures
        forall|i: int| 0 <= i < q.len() ==> shortlex_lt(s, cp[#[trigger] q[i]], cp[u].push(n)),
{
    let r = cp[u].push(n);
    assert(walk_to(g, s, cp[u], u));
    assert forall|i: int| 0 <= i < q.len() implies shortlex_lt(s, cp[#[trigger] q[i]], r) by {
        let x = q[i];
        if cp[x].len() == cp[u].len() + 1 {
            assert(x != s);
            let pr = pred_of(s, cp, x);
            assert(walk_to(g, s, cp[x], x));
            assert(cp[pr].push(x) =~= cp[x]);
            if closed.contains(pr) {
                assert(shortlex_lt(s, cp[pr], cp[u]));
                lemma_precedes_push(s, cp[pr], cp[u], x, n);
            } else {
                lemma_precedes_last(s, cp[u], x, n);
            }
        }
    }
}

/// Dropping the last step of a route leaves a route to the tile before it.
pub proof fn lemma_walk_prefix(g: Grid, start: Pos, w: Seq<Pos>, v: Pos)
    requires
        walk_to(g, start, w, v),
        w.len() > 0,
    ensures
        walk_to(g, start, w.drop_last(), end_of(start, w.drop_last())),
        adjacent(end_of(start, w.drop_last()), v),
        walkable(g, v),
        w.drop_last().push(v) == w,
{
    let w2 = w.drop_last();
    assert forall|i: int| 0 <= i < w2.len() implies #[trigger] step_ok(g, start, w2, i) by {
        assert(step_ok(g, start, w, i));
        assert(prev_of(start, w2, i) == prev_of(start, w, i));
    }
    assert(step_ok(g, start, w, w.len() - 1));
    assert(w2.push(v) =~= w);
}


/// The rest of a route after its first step is a route from the tile that step enters.
pub proof fn lemma_walk_rest(g: Grid, start: Pos, w: Seq<Pos>)
    requires
        is_walk(g, start, w),
        w.len() > 0,
    ensures
        is_walk(g, w[0], w.drop_first()),
        walkable(g, w[0]),
        adjacent(start, w[0]),
        end_of(w[0], w.drop_first()) == end_of(start, w),
{
    let w1 = w.drop_first();
    assert(step_ok(g, start, w, 0));
    assert forall|i: int| 0 <= i < w1.len() implies #[trigger] step_ok(g, w[0], w1, i) by {
        assert(step_ok(g, start, w, i + 1));
        assert(prev_of(w[0], w1, i) == prev_of(start, w, i + 1));
    }
}


/// A route walked backwards, from its end to its start.
pub open spec fn reversed(start: Pos, w: Seq<Pos>) -> Seq<Pos> {
    Seq::new(w.len(), |i: int| if i == w.len() - 1 { start } else { w[w.len() - 2 - i] })
}

/// A route from `a` to `b` walked backwards is a route from `b` to `a` of
/// the same length, when `a` is floor.
pub proof fn lemma_walk_reverse(g: Grid, a: Pos, w: Seq<Pos>, b: Pos)
    requires
        walk_to(g, a, w, b),
        walkable(g, a),
    ensures
        walk_to(g, b, reversed(a, w), a),
        reversed(a, w).len() == w.len(),
{
    let k = w.len() as int;
    let r = reversed(a, w);
    assert forall|i: int| 0 <= i < r.len() implies #[trigger] step_ok(g, b, r, i) by {
        assert(step_ok(g, a, w, k - 1 - i));
        if i > 0 {
            assert(prev_of(b, r, i) == w[k - 1 - i]);
        } else {
            assert(prev_of(b, r, i) == w[k - 1]);
        }
        if i < k - 1 {
            assert(step_ok(g, a, w, k - 2 - i));
        }
    }
}

/// One more step into a walkable neighbour extends a route.
pub proof fn lemma_walk_extend(g: Grid, start: Pos, w: Seq<Pos>, p: Pos, n: Pos)
    requires
        walk_to(g, start, w, p),
        walkable(g, n),
        adjacent(p, n),
    ensures
        walk_to(g, start, w.push(n), n),
{
    let w2 = w.push(n);
    assert forall|i: int| 0 <= i < w2.len() implies #[trigger] step_ok(g, start, w2, i) by {
        if i < w.len() {
            assert(step_ok(g, start, w, i));
            assert(prev_of(start, w2, i) == prev_of(start, w, i));
        } else {
            assert(prev_of(start, w2, i) == end_of(start, w));
        }
    }
}

/// The order of moves is irreflexive and asymmetric.
pub proof fn lemma_precedes_asym(start: Pos, a: Seq<Pos>, b: Seq<Pos>)
    requires
        precedes(start, a, b),
    ensures
        !precedes(start, b, a),
        a != b,
{
    let k1 = choose|k: int| #[trigger] first_diff(start, a, b, k);
    if precedes(start, b, a) {
        let k2 = choose|k: int| #[trigger] first_diff(start, b, a, k);
        assert(prev_of(start, a, k1) == prev_of(start, b, k1)) by {
            if k1 > 0 {
                assert(a.take(k1)[k1 - 1] == b.take(k1)[k1 - 1]);
            }
        }
        assert(prev_of(start, a, k2) == prev_of(start, b, k2)) by {
            if k2 > 0 {
                assert(a.take(k2)[k2 - 1] == b.take(k2)[k2 - 1]);
            }
        }
        if k1 < k2 {
            assert(a.take(k2)[k1] == b.take(k2)[k1]);
        } else if k2 < k1 {
            assert(a.take(k1)[k2] == b.take(k1)[k2]);
        } else {
            assert(prev_of(start, a, k1) == prev_of(start, b, k1)) by {
                if k1 > 0 {
                    assert(a.take(k1)[k1 - 1] == b.take(k1)[k1 - 1]);
                }
            }
        }
    }
    if a == b {
        assert(prev_of(start, a, k1) == prev_of(start, b, k1));
    }
}

/// The order of moves is transitive.
pub proof fn lemma_precedes_trans(start: Pos, a: Seq<Pos>, b: Seq<Pos>, c: Seq<Pos>)
    requires
        precedes(start, a, b),
        precedes(start, b, c),
    ensures
        precedes(start, a, c),
{
    let k1 = choose|k: int| #[trigger] first_diff(start, a, b, k);
    let k2 = choose|k: int| #[trigger] first_diff(start, b, c, k);
    if k1 <= k2 {
        assert(a.take(k1) =~= c.take(k1)) by {
            assert forall|i: int| 0 <= i < k1 implies a.take(k1)[i] == c.take(k1)[i] by {
                assert(a.take(k1)[i] == b.take(k1)[i]);
                assert(b.take(k2)[i] == c.take(k2)[i]);
            }
        }
        assert(prev_of(start, a, k1) == prev_of(start, c, k1)) by {
            if k1 > 0 {
                assert(a.take(k1)[k1 - 1] == c.take(k1)[k1 - 1]);
            }
        }
        assert(prev_of(start, b, k1) == prev_of(start, c, k1)) by {
            if k1 > 0 {
                assert(b.take(k2)[k1 - 1] == c.take(k2)[k1 - 1]);
            }
        }
        if k1 < k2 {
            assert(b.take(k2)[k1] == c.take(k2)[k1]);
        }
        assert(first_diff(start, a, c, k1));
    } else {
        assert(a.take(k2) =~= c.take(k2)) by {
            assert forall|i: int| 0 <= i < k2 implies a.take(k2)[i] == c.take(k2)[i] by {
                assert(a.take(k1)[i] == b.take(k1)[i]);
                assert(b.take(k2)[i] == c.take(k2)[i]);
            }
        }
        assert(prev_of(start, a, k2) == prev_of(start, b, k2)) by {
            if k2 > 0 {
                assert(a.take(k1)[k2 - 1] == b.take(k1)[k2 - 1]);
            }
        }
        assert(prev_of(start, a, k2) == prev_of(start, c, k2)) by {
            if k2 > 0 {
                assert(a.take(k2)[k2 - 1] == c.take(k2)[k2 - 1]);
            }
        }
        assert(a.take(k1)[k2] == b.take(k1)[k2]);
        assert(first_diff(start, a, c, k2));
    }
}

/// Two different routes of one length are ordered one way or the other.
pub proof fn lemma_precedes_total(g: Grid, start: Pos, a: Seq<Pos>, b: Seq<Pos>)
    requires
        is_walk(g, start, a),
        is_walk(g, start, b),
        a.len() == b.len(),
        a != b,
    ensures
        precedes(start, a, b) || precedes(start, b, a),
{
    assert(!(a =~= b));
    let k = choose|k: int| 0 <= k < a.len() && a[k] != b[k];
    let k0 = first_mismatch(a, b, k);
    assert(a.take(k0) =~= b.take(k0));
    assert(prev_of(start, a, k0) == prev_of(start, b, k0)) by {
        if k0 > 0 {
            assert(a.take(k0)[k0 - 1] == b.take(k0)[k0 - 1]);
        }
    }
    assert(step_ok(g, start, a, k0));
    assert(step_ok(g, start, b, k0));
    if step_rank(prev_of(start, a, k0), a[k0]) == step_rank(prev_of(start, b, k0), b[k0]) {
        lemma_step_rank_injective(prev_of(start, a, k0), a[k0], b[k0]);
    }
    if step_rank(prev_of(start, a, k0), a[k0]) < step_rank(prev_of(start, b, k0), b[k0]) {
        assert(first_diff(start, a, b, k0));
    } else {
        assert(b.take(k0) =~= a.take(k0));
        assert(first_diff(start, b, a, k0));
    }
}

/// The first index at which two sequences differ, given one at which they do.
proof fn first_mismatch(a: Seq<Pos>, b: Seq<Pos>, k: int) -> (k0: int)
    requires
        0 <= k < a.len(),
        k < b.len(),
        a[k] != b[k],
    ensures
        0 <= k0 <= k,
        a[k0] != b[k0],
        forall|i: int| 0 <= i < k0 ==> a[i] == b[i],
    decreases k,
{
    if exists|i: int| 0 <= i < k && a[i] != b[i] {
        let i = choose|i: int| 0 <= i < k && a[i] != b[i];
        first_mismatch(a, b, i)
    } else {
        k
    }
}

/// Appending one step to each of two ordered routes keeps their order.
pub proof fn lemma_precedes_push(start: Pos, a: Seq<Pos>, b: Seq<Pos>, x: Pos, y: Pos)
    requires
        precedes(start, a, b),
    ensures
        precedes(start, a.push(x), b.push(y)),
{
    let k = choose|k: int| #[trigger] first_diff(start, a, b, k);
    assert(a.push(x).take(k) =~= a.take(k));
    assert(b.push(y).take(k) =~= b.take(k));
    assert(prev_of(start, a.push(x), k) == prev_of(start, a, k));
    assert(prev_of(start, b.push(y), k) == prev_of(start, b, k));
    assert(first_diff(start, a.push(x), b.push(y), k));
}

/// Two routes that share all but their last step are ordered by that step.
pub proof fn lemma_precedes_last(start: Pos, a: Seq<Pos>, x: Pos, y: Pos)
    requires
        step_rank(end_of(start, a), x) < step_rank(end_of(start, a), y),
    ensures
        precedes(start, a.push(x), a.push(y)),
{
    let k = a.len() as int;
    assert(a.push(x).take(k) =~= a.push(y).take(k));
    assert(prev_of(start, a.push(x), k) == end_of(start, a));
    assert(prev_of(start, a.push(y), k) == end_of(start, a));
    assert(first_diff(start, a.push(x), a.push(y), k));
}



/// The moves of a route read as a number in base four, first move most significant.
spec fn code(start: Pos, w: Seq<Pos>) -> nat
    decreases w.len(),
{
    if w.len() == 0 {
        0
    } else {
        4 * code(start, w.drop_last()) + step_rank(prev_of(start, w, w.len() - 1), w.last()) as nat
    }
}

proof fn lemma_code_push(start: Pos, a: Seq<Pos>, b: Seq<Pos>, x: Pos, y: Pos)
    requires
        code(start, a) < code(start, b),
    ensures
        code(start, a.push(x)) < code(start, b.push(y)),
{
    assert(a.push(x).drop_last() =~= a);
    assert(b.push(y).drop_last() =~= b);
}

/// Earlier in the order of moves means a smaller number.
proof fn lemma_precedes_code(start: Pos, a: Seq<Pos>, b: Seq<Pos>)
    requires
        precedes(start, a, b),
    ensures
        code(start, a) < code(start, b),
    decreases a.len(),
{
    let k = choose|k: int| #[trigger] first_diff(start, a, b, k);
    let n = a.len() as int;
    let a1 = a.drop_last();
    let b1 = b.drop_last();
    if k == n - 1 {
        assert(a1 =~= a.take(k));
        assert(b1 =~= b.take(k));
    } else {
        assert(a1.take(k) =~= a.take(k));
        assert(b1.take(k) =~= b.take(k));
        assert(prev_of(start, a1, k) == prev_of(start, a, k));
        assert(prev_of(start, b1, k) == prev_of(start, b, k));
        assert(first_diff(start, a1, b1, k));
        lemma_precedes_code(start, a1, b1);
        lemma_code_push(start, a1, b1, a.last(), b.last());
        assert(a1.push(a.last()) =~= a);
        assert(b1.push(b.last()) =~= b);
    }
}

/// Some route to `goal` is as short as any.
proof fn lemma_shortest_exists(g: Grid, start: Pos, goal: Pos, w: Seq<Pos>) -> (s: Seq<Pos>)
    requires
        walk_to(g, start, w, goal),
    ensures
        walk_to(g, start, s, goal),
        forall|w2: Seq<Pos>| #[trigger] walk_to(g, start, w2, goal) ==> s.len() <= w2.len(),
    decreases w.len(),
{
    if exists|w2: Seq<Pos>| #[trigger] walk_to(g, start, w2, goal) && w2.len() < w.len() {
        let w2 = choose|w2: Seq<Pos>| #[trigger] walk_to(g, start, w2, goal) && w2.len() < w.len();
        lemma_shortest_exists(g, start, goal, w2)
    } else {
        w
    }
}

/// Among the shortest routes to `goal`, one is first in the order of moves.
proof fn lemma_first_exists(g: Grid, start: Pos, goal: Pos, w: Seq<Pos>) -> (p: Seq<Pos>)
    requires
        walk_to(g, start, w, goal),
        forall|w2: Seq<Pos>| #[trigger] walk_to(g, start, w2, goal) ==> w.len() <= w2.len(),
    ensures
        is_route(g, start, goal, p),
    decreases code(start, w),
{
    if exists|w2: Seq<Pos>|
        #[trigger] walk_to(g, start, w2, goal) && w2.len() == w.len() && w2 != w && !precedes(
            start,
            w,
            w2,
        ) {
        let w2 = choose|w2: Seq<Pos>|
            #[trigger] walk_to(g, start, w2, goal) && w2.len() == w.len() && w2 != w && !precedes(
                start,
                w,
                w2,
            );
        lemma_precedes_total(g, start, w, w2);
        lemma_precedes_code(start, w2, w);
        lemma_first_exists(g, start, goal, w2)
    } else {
        w
    }
}

/// Every tile that can be reached has a chosen route.
pub proof fn lemma_route_exists(g: Grid, start: Pos, goal: Pos)
    requires
        reachable(g, start, goal),
    ensures
        is_route(g, start, goal, route(g, start, goal)),
{
    let w = choose|w: Seq<Pos>| walk_to(g, start, w, goal);
    let s = lemma_shortest_exists(g, start, goal, w);
    let p = lemma_first_exists(g, start, goal, s);
    lemma_route_is(g, start, goal, p);
}

/// Walking the first step of a chosen route leaves the chosen route from the
/// tile reached: following a path one step at a time never changes it.
pub proof fn lemma_route_suffix(g: Grid, start: Pos, goal: Pos, p: Seq<Pos>)
    requires
        is_route(g, start, goal, p),
        p.len() > 0,
    ensures
        is_route(g, p[0], goal, p.drop_first()),
{
    let p0 = p[0];
    let p1 = p.drop_first();
    assert forall|i: int| 0 <= i < p1.len() implies #[trigger] step_ok(g, p0, p1, i) by {
        assert(step_ok(g, start, p, i + 1));
        assert(prev_of(p0, p1, i) == prev_of(start, p, i + 1));
    }
    assert(end_of(p0, p1) == goal);
    assert(step_ok(g, start, p, 0));
    assert forall|w: Seq<Pos>| #[trigger] walk_to(g, p0, w, goal) implies shortlex_le(p0, p1, w) by {
        let w2 = seq![p0] + w;
        assert forall|i: int| 0 <= i < w2.len() implies #[trigger] step_ok(g, start, w2, i) by {
            if i > 0 {
                assert(step_ok(g, p0, w, i - 1));
                assert(prev_of(start, w2, i) == prev_of(p0, w, i - 1));
                assert(w2[i] == w[i - 1]);
            }
        }
        assert(end_of(start, w2) == goal);
        assert(walk_to(g, start, w2, goal));
        assert(shortlex_le(start, p, w2));
        if p.len() == w2.len() {
            if p == w2 {
                assert(p1 =~= w);
            } else {
                let k = choose|k: int| #[trigger] first_diff(start, p, w2, k);
                assert(k != 0);
                assert(p1.take(k - 1) =~= w.take(k - 1)) by {
                    assert forall|i: int| 0 <= i < k - 1 implies #[trigger] p1.take(k - 1)[i] == w.take(k - 1)[i] by {
                        assert(p.take(k)[i + 1] == w2.take(k)[i + 1]);
                    }
                }
                assert(prev_of(p0, p1, k - 1) == prev_of(start, p, k)) by {
                    if k > 1 {
                        assert(p.take(k)[k - 1] == p[k - 1]);
                    }
                }
                assert(prev_of(p0, w, k - 1) == prev_of(start, w2, k)) by {
                    if k > 1 {
                        assert(w2[k - 1] == w[k - 2]);
                    }
                }
                assert(first_diff(p0, p1, w, k - 1));
            }
        }
    }
}

/// A chosen route never comes back to a tile, nor to its start: cutting out
/// the loop would give a shorter route.
pub proof fn lemma_route_no_repeat(g: Grid, start: Pos, goal: Pos, p: Seq<Pos>)
    requires
        is_route(g, start, goal, p),
    ensures
        forall|i: int, j: int| 0 <= i < j < p.len() ==> p[i] != p[j],
        forall|i: int| 0 <= i < p.len() ==> p[i] != start,
{
    assert forall|i: int, j: int| 0 <= i < j < p.len() implies p[i] != p[j] by {
        if p[i] == p[j] {
            let w = p.take(i + 1) + p.skip(j + 1);
            assert forall|k: int| 0 <= k < w.len() implies #[trigger] step_ok(g, start, w, k) by {
                if k <= i {
                    assert(step_ok(g, start, p, k));
                    assert(w[k] == p[k]);
                    if k > 0 {
                        assert(w[k - 1] == p[k - 1]);
                    }
                } else {
                    let k2 = k + j - i;
                    assert(step_ok(g, start, p, k2));
                    assert(w[k] == p[k2]);
                    assert(w[k - 1] == p[k2 - 1]) by {
                        if k - 1 == i {
                            assert(w[k - 1] == p[i]);
                        }
                    }
                }
            }
            assert(end_of(start, w) == goal) by {
                if j + 1 == p.len() {
                    assert(w.last() == p[i]);
                } else {
                    assert(w.last() == p.last());
                }
            }
            assert(walk_to(g, start, w, goal));
        }
    }
    assert forall|i: int| 0 <= i < p.len() implies p[i] != start by {
        if p[i] == start {
            let w = p.skip(i + 1);
            assert forall|k: int| 0 <= k < w.len() implies #[trigger] step_ok(g, start, w, k) by {
                assert(step_ok(g, start, p, k + i + 1));
                assert(w[k] == p[k + i + 1]);
                if k > 0 {
                    assert(w[k - 1] == p[k + i]);
                }
            }
            assert(end_of(start, w) == goal) by {
                if w.len() > 0 {
                    assert(w.last() == p.last());
                } else {
                    assert(p.last() == p[i]);
                }
            }
            assert(walk_to(g, start, w, goal));
        }
    }
}

/// A chosen route from a tile of the map enters fewer tiles than the map holds.
pub proof fn lemma_route_short(g: Grid, start: Pos, goal: Pos)
    requires
        in_bounds(start),
    ensures
        route(g, start, goal).len() < MAP * MAP,
{
    let p = route(g, start, goal);
    if exists|q: Seq<Pos>| is_route(g, start, goal, q) {
        lemma_route_no_repeat(g, start, goal, p);
        let q = p.push(start);
        assert forall|i: int| 0 <= i < q.len() implies #[trigger] in_bounds(q[i]) by {
            if i < p.len() {
                assert(step_ok(g, start, p, i));
            }
        }
        let ids = q.map_values(|x: Pos| x.1 * 20 + x.0);
        assert forall|i: int, j: int| 0 <= i < j < ids.len() implies ids[i] != ids[j] by {
            assert(in_bounds(q[i]) && in_bounds(q[j]));
            if j == p.len() {
                assert(q[i] != start);
            } else {
                assert(q[i] != q[j]);
            }
        }
        assert(ids.no_duplicates());
        ids.unique_seq_to_set();
        vstd::set_lib::lemma_int_range(0, 400);
        assert forall|x: int| ids.to_set().contains(x) implies vstd::set_lib::set_int_range(0, 400).contains(x) by {
            let i = choose|i: int| 0 <= i < ids.len() && ids[i] == x;
            assert(in_bounds(q[i]));
        }
        vstd::set_lib::lemma_len_subset(ids.to_set(), vstd::set_lib::set_int_range(0, 400));
    }
}

/// There is at most one chosen route.
pub proof fn lemma_route_unique(g: Grid, start: Pos, goal: Pos, p: Seq<Pos>, q: Seq<Pos>)
    requires
        is_route(g, start, goal, p),
        is_route(g, start, goal, q),
    ensures
        p == q,
{
    assert(shortlex_le(start, p, q));
    assert(shortlex_le(start, q, p));
    if p != q {
        if precedes(start, p, q) {
            lemma_precedes_asym(start, p, q);
        } else {
            lemma_precedes_asym(start, q, p);
        }
    }
}

/// A chosen route is what `route` names.
pub proof fn lemma_route_is(g: Grid, start: Pos, goal: Pos, p: Seq<Pos>)
    requires
        is_route(g, start, goal, p),
    ensures
        route(g, start, goal) == p,
        reachable(g, start, goal),
{
    let q = choose|q: Seq<Pos>| is_route(g, start, goal, q);
    lemma_route_unique(g, start, goal, p, q);
}



/// What holds of the search state between the expansion of two tiles.
spec fn search_ok(g: Grid, s: Pos, vis: Flags, par: Parents, cp: Map<Pos, Seq<Pos>>) -> bool {
    &&& in_bounds(s)
    &&& dom_matches(vis, cp)
    &&& cp.dom().contains(s)
    &&& cp[s] == Seq::<Pos>::empty()
    &&& paths_ok(g, s, cp)
    &&& minimal(g, s, cp)
    &&& parents_ok(s, par, cp)
}

/// The queue holds recorded tiles in the order of their routes, at two
/// consecutive lengths at most.
spec fn queue_sorted(s: Pos, cp: Map<Pos, Seq<Pos>>, q: Seq<Pos>, lo: nat) -> bool {
    &&& forall|i: int|
        0 <= i < q.len() ==> cp.dom().contains(#[trigger] q[i]) && lo <= cp[q[i]].len() <= lo + 1
    &&& forall|i: int, j: int|
        0 <= i < j < q.len() ==> shortlex_lt(s, cp[#[trigger] q[i]], cp[#[trigger] q[j]])
}

/// Tiles that are done come before every tile that waits.
spec fn closed_first(s: Pos, cp: Map<Pos, Seq<Pos>>, closed: Set<Pos>, q: Seq<Pos>) -> bool {
    forall|c: Pos, i: int|
        #![trigger closed.contains(c), q[i]]
        closed.contains(c) && 0 <= i < q.len() ==> shortlex_lt(s, cp[c], cp[q[i]])
}

/// Tiles that are done have all their walkable neighbours recorded.
spec fn closed_ok(g: Grid, cp: Map<Pos, Seq<Pos>>, closed: Set<Pos>) -> bool {
    forall|c: Pos| #[trigger] closed.contains(c) ==> cp.dom().contains(c) && nbrs_seen(g, cp, c)
}

/// The state at the head of the search loop.
spec fn outer_inv(
    g: Grid,
    s: Pos,
    goal: Pos,
    vis: Flags,
    par: Parents,
    cp: Map<Pos, Seq<Pos>>,
    closed: Set<Pos>,
    q: Seq<Pos>,
    level: nat,
) -> bool {
    &&& search_ok(g, s, vis, par, cp)
    &&& forall|p: Pos| #[trigger] cp.dom().contains(p) ==> closed.contains(p) || q.contains(p)
    &&& closed_ok(g, cp, closed)
    &&& queue_sorted(s, cp, q, level)
    &&& closed_first(s, cp, closed, q)
    &&& forall|i: int|
        0 <= i < q.len() && #[trigger] q[i] != s ==> closed.contains(pred_of(s, cp, q[i]))
    &&& cp.dom().contains(goal) ==> !closed.contains(goal)
}

/// The state while the neighbours of `u` in directions below `k` have been looked at.
spec fn inner_inv(
    g: Grid,
    s: Pos,
    goal: Pos,
    vis: Flags,
    par: Parents,
    cp: Map<Pos, Seq<Pos>>,
    closed: Set<Pos>,
    q: Seq<Pos>,
    u: Pos,
    k: int,
) -> bool {
    &&& 0 <= k <= 4
    &&& search_ok(g, s, vis, par, cp)
    &&& in_bounds(u)
    &&& u != goal
    &&& cp.dom().contains(u)
    &&& forall|p: Pos| #[trigger] cp.dom().contains(p) ==> closed.contains(p) || q.contains(p) || p == u
    &&& closed_ok(g, cp, closed)
    &&& forall|c: Pos| #[trigger] closed.contains(c) ==> shortlex_lt(s, cp[c], cp[u])
    &&& queue_sorted(s, cp, q, cp[u].len())
    &&& forall|i: int| 0 <= i < q.len() ==> shortlex_lt(s, cp[u], cp[#[trigger] q[i]])
    &&& closed_first(s, cp, closed, q)
    &&& forall|i: int|
        0 <= i < q.len() && #[trigger] q[i] != s ==> closed.contains(pred_of(s, cp, q[i])) || (
        pred_of(s, cp, q[i]) == u && step_rank(u, q[i]) < k)
    &&& cp.dom().contains(goal) ==> !closed.contains(goal)
    &&& forall|j: int|
        0 <= j < k ==> match #[trigger] neighbor(u, j) {
            Some(y) => walkable(g, y) ==> cp.dom().contains(y),
            None => true,
        }
}

/// Taking the head of the queue starts its expansion.
proof fn lemma_pop(
    g: Grid,
    s: Pos,
    goal: Pos,
    vis: Flags,
    par: Parents,
    cp: Map<Pos, Seq<Pos>>,
    closed: Set<Pos>,
    q0: Seq<Pos>,
    level: nat,
)
    requires
        outer_inv(g, s, goal, vis, par, cp, closed, q0, level),
        q0.len() > 0,
        q0[0] != goal,
    ensures
        inner_inv(g, s, goal, vis, par, cp, closed, q0.drop_first(), q0[0], 0),
{
    let q = q0.drop_first();
    let u = q0[0];
    assert forall|p: Pos| #[trigger] cp.dom().contains(p) implies closed.contains(p) || q.contains(p)
        || p == u by {
        if !closed.contains(p) && p != u {
            let i = choose|i: int| 0 <= i < q0.len() && q0[i] == p;
            assert(q[i - 1] == p);
        }
    }
    assert forall|i: int| 0 <= i < q.len() implies cp.dom().contains(#[trigger] q[i]) && cp[u].len()
        <= cp[q[i]].len() <= cp[u].len() + 1 && shortlex_lt(s, cp[u], cp[q[i]]) by {
        assert(q[i] == q0[i + 1]);
        assert(shortlex_lt(s, cp[q0[0]], cp[q0[i + 1]]));
    }
    assert forall|i: int, j: int| 0 <= i < j < q.len() implies shortlex_lt(
        s,
        cp[#[trigger] q[i]],
        cp[#[trigger] q[j]],
    ) by {
        assert(q[i] == q0[i + 1]);
        assert(q[j] == q0[j + 1]);
    }
    assert forall|c: Pos| #[trigger] closed.contains(c) implies shortlex_lt(s, cp[c], cp[u]) by {
        assert(shortlex_lt(s, cp[c], cp[q0[0]]));
    }
    assert forall|c: Pos, i: int|
        #![trigger closed.contains(c), q[i]]
        closed.contains(c) && 0 <= i < q.len() implies shortlex_lt(s, cp[c], cp[q[i]]) by {
        assert(q[i] == q0[i + 1]);
    }
    assert forall|i: int| 0 <= i < q.len() && #[trigger] q[i] != s implies closed.contains(
        pred_of(s, cp, q[i]),
    ) by {
        assert(q[i] == q0[i + 1]);
    }
}

/// When every neighbour of `u` has been looked at, `u` is done.
proof fn lemma_close(
    g: Grid,
    s: Pos,
    goal: Pos,
    vis: Flags,
    par: Parents,
    cp: Map<Pos, Seq<Pos>>,
    closed: Set<Pos>,
    q: Seq<Pos>,
    u: Pos,
)
    requires
        inner_inv(g, s, goal, vis, par, cp, closed, q, u, 4),
    ensures
        outer_inv(g, s, goal, vis, par, cp, closed.insert(u), q, cp[u].len()),
{
    assert forall|y: Pos| walkable(g, y) && #[trigger] adjacent(u, y) implies cp.dom().contains(y) by {
        lemma_adjacent_neighbor(u, y);
        assert(neighbor(u, step_rank(u, y)) == Some(y));
    }
    let closed2 = closed.insert(u);
    assert forall|c: Pos, i: int|
        #![trigger closed2.contains(c), q[i]]
        closed2.contains(c) && 0 <= i < q.len() implies shortlex_lt(s, cp[c], cp[q[i]]) by {
        if c != u {
            assert(closed.contains(c));
        }
    }
}

/// A neighbour that is off the map, a wall, or already recorded is skipped.
proof fn lemma_skip(
    g: Grid,
    s: Pos,
    goal: Pos,
    vis: Flags,
    par: Parents,
    cp: Map<Pos, Seq<Pos>>,
    closed: Set<Pos>,
    q: Seq<Pos>,
    u: Pos,
    k: int,
)
    requires
        inner_inv(g, s, goal, vis, par, cp, closed, q, u, k),
        k < 4,
        match neighbor(u, k) {
            Some(y) => walkable(g, y) ==> cp.dom().contains(y),
            None => true,
        },
    ensures
        inner_inv(g, s, goal, vis, par, cp, closed, q, u, k + 1),
{
    assert forall|j: int| 0 <= j < k + 1 implies match #[trigger] neighbor(u, j) {
        Some(y) => walkable(g, y) ==> cp.dom().contains(y),
        None => true,
    } by {
        if j < k {
            assert(0 <= j < k);
        }
    }
}

/// Recording a new neighbour `n` of `u` with the route through `u`, and
/// queueing it, keeps the search state.
proof fn lemma_visit(
    g: Grid,
    s: Pos,
    goal: Pos,
    vis: Flags,
    par: Parents,
    cp: Map<Pos, Seq<Pos>>,
    closed: Set<Pos>,
    q: Seq<Pos>,
    u: Pos,
    k: int,
    n: Pos,
    vis2: Flags,
    par2: Parents,
)
    requires
        inner_inv(g, s, goal, vis, par, cp, closed, q, u, k),
        k < 4,
        neighbor(u, k) == Some(n),
        walkable(g, n),
        !seen(vis, n),
        vis2@ == vis@.update(n.1 as int, vis2@[n.1 as int]),
        vis2@[n.1 as int]@ == vis@[n.1 as int]@.update(n.0 as int, true),
        par2@ == par@.update(n.1 as int, par2@[n.1 as int]),
        par2@[n.1 as int]@ == par@[n.1 as int]@.update(n.0 as int, Some(u)),
    ensures
        inner_inv(g, s, goal, vis2, par2, cp.insert(n, cp[u].push(n)), closed, q.push(n), u, k + 1),
        count_seen(vis2) == count_seen(vis) + 1,
        count_seen(vis2) <= MAP * MAP,
{
    lemma_neighbor_rank(u, k, n);
    assert(!cp.dom().contains(n));
    lemma_new_route(g, s, cp, closed, q, u, n);
    lemma_push_order(g, s, cp, closed, q, u, n, k);
    lemma_mark(vis, vis2, n);
    lemma_cell_write(par, par2, n, Some(u));
    let r = cp[u].push(n);
    let cp2 = cp.insert(n, r);
    let q2 = q.push(n);
    assert(walk_to(g, s, cp[u], u));
    assert(r.drop_last() =~= cp[u]);
    assert(pred_of(s, cp2, n) == u);
    assert forall|p: Pos| #[trigger] cp2.dom().contains(p) implies walk_to(g, s, cp2[p], p) by {
        if p != n {
            assert(cp.dom().contains(p));
        }
    }
    assert forall|p: Pos, w: Seq<Pos>|
        cp2.dom().contains(p) && #[trigger] walk_to(g, s, w, p) implies shortlex_le(s, cp2[p], w) by {
        if p != n {
            assert(cp.dom().contains(p));
        }
    }
    assert forall|p: Pos| #[trigger] cp2.dom().contains(p) && p != s implies {
        &&& parent_at(par2, p) == Some(pred_of(s, cp2, p))
        &&& cp2.dom().contains(pred_of(s, cp2, p))
        &&& cp2[pred_of(s, cp2, p)] == cp2[p].drop_last()
    } by {
        if p != n {
            assert(cp.dom().contains(p));
            assert(pred_of(s, cp2, p) == pred_of(s, cp, p));
            assert(cp.dom().contains(pred_of(s, cp, p)));
        }
    }
    assert(dom_matches(vis2, cp2));
    assert forall|p: Pos| #[trigger] cp2.dom().contains(p) implies closed.contains(p) || q2.contains(p)
        || p == u by {
        if p == n {
            assert(q2[q.len() as int] == n);
        } else if q.contains(p) {
            let i = choose|i: int| 0 <= i < q.len() && q[i] == p;
            assert(q2[i] == p);
        }
    }
    assert forall|c: Pos| #[trigger] closed.contains(c) implies cp2.dom().contains(c) && nbrs_seen(
        g,
        cp2,
        c,
    ) by {
        assert(nbrs_seen(g, cp, c));
    }
    assert forall|c: Pos| #[trigger] closed.contains(c) implies shortlex_lt(s, cp2[c], cp2[u]) by {
        assert(cp.dom().contains(c));
    }
    assert forall|i: int| 0 <= i < q2.len() implies cp2.dom().contains(#[trigger] q2[i]) && cp2[u].len()
        <= cp2[q2[i]].len() <= cp2[u].len() + 1 && shortlex_lt(s, cp2[u], cp2[q2[i]]) by {
        if i < q.len() {
            assert(q2[i] == q[i]);
            assert(cp.dom().contains(q[i]));
        } else {
            assert(q2[i] == n);
            assert(cp[u].push(n).len() == cp[u].len() + 1);
        }
    }
    assert forall|i: int, j: int| 0 <= i < j < q2.len() implies shortlex_lt(
        s,
        cp2[#[trigger] q2[i]],
        cp2[#[trigger] q2[j]],
    ) by {
        assert(q2[i] == q[i]);
        assert(cp.dom().contains(q[i]));
        if j < q.len() {
            assert(q2[j] == q[j]);
            assert(cp.dom().contains(q[j]));
        }
    }
    assert forall|c: Pos, i: int|
        #![trigger closed.contains(c), q2[i]]
        closed.contains(c) && 0 <= i < q2.len() implies shortlex_lt(s, cp2[c], cp2[q2[i]]) by {
        assert(cp.dom().contains(c));
        if i < q.len() {
            assert(q2[i] == q[i]);
            assert(cp.dom().contains(q[i]));
        } else {
            assert(shortlex_lt(s, cp[c], cp[u]));
        }
    }
    assert forall|i: int| 0 <= i < q2.len() && #[trigger] q2[i] != s implies closed.contains(
        pred_of(s, cp2, q2[i]),
    ) || (pred_of(s, cp2, q2[i]) == u && step_rank(u, q2[i]) < k + 1) by {
        if i < q.len() {
            assert(q2[i] == q[i]);
            assert(cp.dom().contains(q[i]));
            assert(pred_of(s, cp2, q[i]) == pred_of(s, cp, q[i]));
        }
    }
    assert forall|j: int| 0 <= j < k + 1 implies match #[trigger] neighbor(u, j) {
        Some(y) => walkable(g, y) ==> cp2.dom().contains(y),
        None => true,
    } by {
        if j < k {
            assert(0 <= j < k);
        }
    }
}

/// With the queue empty, no route reaches `goal`.
proof fn lemma_exhausted(
    g: Grid,
    s: Pos,
    goal: Pos,
    vis: Flags,
    par: Parents,
    cp: Map<Pos, Seq<Pos>>,
    closed: Set<Pos>,
    q: Seq<Pos>,
    level: nat,
)
    requires
        outer_inv(g, s, goal, vis, par, cp, closed, q, level),
        q.len() == 0,
    ensures
        !reachable(g, s, goal),
        route(g, s, goal) == Seq::<Pos>::empty(),
{
    assert(!cp.dom().contains(goal)) by {
        if cp.dom().contains(goal) {
            assert(q.contains(goal));
        }
    }
    assert forall|w: Seq<Pos>| !walk_to(g, s, w, goal) by {
        if walk_to(g, s, w, goal) {
            assert forall|p: Pos| #[trigger] cp.dom().contains(p) implies nbrs_seen(g, cp, p)
                || cp[p].len() >= w.len() by {
                if !closed.contains(p) {
                    assert(q.contains(p));
                }
            }
            lemma_unseen_far(g, s, cp, w.len(), w, goal);
        }
    }
    assert(!exists|p: Seq<Pos>| is_route(g, s, goal, p));
}

/// Shortest path from `start` to `goal` over floor tiles, by breadth-first
/// search. The path lists the tiles to enter, in order, without `start`;
/// it is empty when `goal` is `start` or cannot be reached.
pub fn bfs(map: &Grid, start: Pos, goal: Pos) -> (path: Vec<Pos>)
    requires
        in_bounds(start),
    ensures
        path@ == route(*map, start, goal),
        reachable(*map, start, goal) ==> is_route(*map, start, goal, path@),
        !reachable(*map, start, goal) ==> path@.len() == 0,
        path@.len() < MAP * MAP,
{
    let ghost g = *map;
    let mut q: VecDeque<Pos> = VecDeque::new();
    q.push_back(start);
    let mut visited: Flags = [[false; MAP]; MAP];
    visited[start.1][start.0] = true;
    let mut parent: Parents = [[None; MAP]; MAP];
    let ghost mut cp: Map<Pos, Seq<Pos>> = Map::empty().insert(start, Seq::<Pos>::empty());
    let ghost mut closed: Set<Pos> = Set::empty();
    let ghost mut level: nat = 0;
    proof {
        assert forall|p: Pos, w: Seq<Pos>|
            cp.dom().contains(p) && #[trigger] walk_to(g, start, w, p) implies shortlex_le(
            start,
            cp[p],
            w,
        ) by {
            if w.len() == 0 {
                assert(w =~= cp[p]);
            }
        }
        assert(walk_to(g, start, cp[start], start));
        assert(q@[0] == start);
        assert(forall|p: Pos| #[trigger] cp.dom().contains(p) ==> q@.contains(p)) by {
            assert(q@[0] == start);
        }
    }
    loop
        invariant
            g == *map,
            outer_inv(g, start, goal, visited, parent, cp, closed, q@, level),
        decreases MAP * MAP - count_seen(visited), q@.len(),
    {
        let ghost q0 = q@;
        let ghost c0 = count_seen(visited);
        proof {
            lemma_count_rows_bound(visited@);
        }
        let next = q.pop_front();
        match next {
            None => {
                proof {
                    lemma_exhausted(g, start, goal, visited, parent, cp, closed, q@, level);
                }
                return Vec::new();
            },
            Some(curr) => {
                if curr.0 == goal.0 && curr.1 == goal.1 {
                    return reconstruct(map, start, goal, &parent, Ghost(cp));
                }
                proof {
                    lemma_pop(g, start, goal, visited, parent, cp, closed, q0, level);
                }
                let mut k: usize = 0;
                while k < 4
                    invariant
                        g == *map,
                        inner_inv(g, start, goal, visited, parent, cp, closed, q@, curr, k as int),
                        count_seen(visited) > c0 || q@.len() < q0.len(),
                        count_seen(visited) >= c0,
                        count_seen(visited) <= MAP * MAP,
                    decreases 4 - k,
                {
                    let (dx, dy) = direction(k);
                    let nx = curr.0 as i32 + dx;
                    let ny = curr.1 as i32 + dy;
                    proof {
                        if nx >= 0 && ny >= 0 {
                            assert(neighbor(curr, k as int) == Some((nx as usize, ny as usize)));
                        } else {
                            assert(neighbor(curr, k as int) is None);
                        }
                    }
                    if nx >= 0 && ny >= 0 {
                        let (nx, ny) = (nx as usize, ny as usize);
                        if nx < MAP && ny < MAP && !visited[ny][nx] && map[ny][nx] == Tile::Floor {
                            let ghost n: Pos = (nx, ny);
                            let ghost v0 = visited;
                            let ghost p0 = parent;
                            let ghost qq = q@;
                            visited[ny][nx] = true;
                            parent[ny][nx] = Some(curr);
                            q.push_back((nx, ny));
                            proof {
                                lemma_visit(g, start, goal, v0, p0, cp, closed, qq, curr, k as int, n, visited, parent);
                                cp = cp.insert(n, cp[curr].push(n));
                            }
                        } else {
                            proof {
                                if in_bounds((nx, ny)) && seen(visited, (nx, ny)) {
                                    assert(cp.dom().contains((nx, ny)));
                                }
                                lemma_skip(g, start, goal, visited, parent, cp, closed, q@, curr, k as int);
                            }
                        }
                    } else {
                        proof {
                            lemma_skip(g, start, goal, visited, parent, cp, closed, q@, curr, k as int);
                        }
                    }
                    k = k + 1;
                }
                proof {
                    lemma_close(g, start, goal, visited, parent, cp, closed, q@, curr);
                    closed = closed.insert(curr);
                    level = cp[curr].len();
                }
            },
        }
    }
}

/// The recorded routes and parent marks that reading a route back relies on.
#[verifier::opaque]
spec fn trace_ok(g: Grid, s: Pos, par: Parents, cp: Map<Pos, Seq<Pos>>) -> bool {
    &&& paths_ok(g, s, cp)
    &&& parents_ok(s, par, cp)
    &&& forall|p: Pos| #[trigger] cp.dom().contains(p) ==> in_bounds(p)
}

/// One step back along the parent marks: the parent's route is the route
/// without its last tile.
proof fn lemma_back_step(g: Grid, s: Pos, par: Parents, cp: Map<Pos, Seq<Pos>>, c: Pos)
    requires
        trace_ok(g, s, par, cp),
        cp.dom().contains(c),
        c != s,
    ensures
        in_bounds(c),
        parent_at(par, c) == Some(pred_of(s, cp, c)),
        cp.dom().contains(pred_of(s, cp, c)),
        cp[pred_of(s, cp, c)].push(c) == cp[c],
        cp[pred_of(s, cp, c)].len() + 1 == cp[c].len(),
{
    reveal(trace_ok);
    assert(walk_to(g, s, cp[c], c));
    assert(cp[c].drop_last().push(c) =~= cp[c]);
}

/// Reads the route to `goal` back from the parent marks, from `goal` to
/// `start`, and returns it in walking order.
fn reconstruct(
    map: &Grid,
    start: Pos,
    goal: Pos,
    parent: &Parents,
    cp: Ghost<Map<Pos, Seq<Pos>>>,
) -> (path: Vec<Pos>)
    requires
        cp@.dom().contains(start),
        cp@.dom().contains(goal),
        cp@[start] == Seq::<Pos>::empty(),
        paths_ok(*map, start, cp@),
        minimal(*map, start, cp@),
        parents_ok(start, *parent, cp@),
        forall|p: Pos| #[trigger] cp@.dom().contains(p) ==> in_bounds(p),
    ensures
        path@ == route(*map, start, goal),
        reachable(*map, start, goal) ==> is_route(*map, start, goal, path@),
        !reachable(*map, start, goal) ==> path@.len() == 0,
        path@.len() < MAP * MAP,
{
    let ghost g = *map;
    let ghost cp = cp@;
    proof {
        reveal(trace_ok);
    }
    let mut rev: Vec<Pos> = Vec::new();
    let mut c = goal;
    let ghost mut suffix: Seq<Pos> = Seq::empty();
    while !(c.0 == start.0 && c.1 == start.1)
        invariant
            trace_ok(g, start, *parent, cp),
            cp.dom().contains(c),
            cp[start] == Seq::<Pos>::empty(),
            cp[goal] == cp[c] + suffix,
            rev@.len() == suffix.len(),
            forall|j: int| 0 <= j < rev@.len() ==> #[trigger] rev@[j] == suffix[suffix.len() - 1 - j],
        decreases cp[c].len(),
    {
        proof {
            lemma_back_step(g, start, *parent, cp, c);
        }
        let ghost old_suffix = suffix;
        let ghost old_c = c;
        rev.push(c);
        let pc = parent[c.1][c.0];
        c = pc.unwrap();
        proof {
            suffix = seq![old_c] + old_suffix;
            assert(cp[goal] =~= cp[c] + suffix);
        }
    }
    let mut path: Vec<Pos> = Vec::new();
    let mut i = rev.len();
    while i > 0
        invariant
            i <= rev@.len(),
            path@.len() == rev@.len() - i,
            rev@.len() == suffix.len(),
            forall|j: int| 0 <= j < rev@.len() ==> #[trigger] rev@[j] == suffix[suffix.len() - 1 - j],
            forall|j: int| 0 <= j < path@.len() ==> #[trigger] path@[j] == suffix[j],
        decreases i,
    {
        i = i - 1;
        path.push(rev[i]);
    }
    proof {
        assert(path@ =~= suffix);
        assert(cp[goal] =~= suffix);
        assert(walk_to(g, start, cp[goal], goal));
        assert forall|w: Seq<Pos>| #[trigger] walk_to(g, start, w, goal) implies shortlex_le(start, path@, w) by {
        }
        assert(is_route(g, start, goal, path@));
        lemma_route_is(g, start, goal, path@);
        lemma_route_short(g, start, goal);
    }
    path
}

} // verus!
