//! What every move of the game keeps, stated over the views of the game.

use vstd::prelude::*;
use crate::game::{
    after_frame, after_input, before_monsters, flags_after, frame_result, lemma_first_index, over, steps,
    after_click, chase, Monster, after_damage, after_monsters, after_step, apart, first_index, hits,
    lemma_chase_moves, lemma_first_index_some, lemma_hits_bound, lemma_upto_apart, lemma_upto_frame,
    lemma_upto_ok, monsters_upto, occupied, taken_upto, pos_of, positions, score_total, wf, GameView,
};
use crate::grid::{adjacent, manhattan, walkable, Grid, Pos, Tile, MAP};
use crate::pathfind::{
    is_route, is_walk, lemma_route_exists, lemma_walk_reverse, reversed, lemma_route_is, lemma_route_suffix, lemma_walk_rest,
    reachable, route, step_ok, walk_to,
};

verus! {

/// A route exists exactly when the goal can be reached, and it is empty
/// exactly when the goal is the start or cannot be reached.
pub proof fn law_route_empty(g: Grid, start: Pos, goal: Pos)
    ensures
        reachable(g, start, goal) <==> is_route(g, start, goal, route(g, start, goal)),
        route(g, start, goal).len() == 0 <==> (start == goal || !reachable(g, start, goal)),
{
    if start == goal {
        assert(walk_to(g, start, Seq::<Pos>::empty(), goal));
    }
    if reachable(g, start, goal) {
        lemma_route_exists(g, start, goal);
    } else {
        assert(!exists|p: Seq<Pos>| is_route(g, start, goal, p));
    }
}

/// Between two floor tiles the path finder's route has the same length both
/// ways; in particular one is empty exactly when the other is.
pub proof fn law_route_length_symmetric(g: Grid, a: Pos, b: Pos)
    requires
        walkable(g, a),
        walkable(g, b),
    ensures
        route(g, a, b).len() == route(g, b, a).len(),
{
    law_route_empty(g, a, b);
    law_route_empty(g, b, a);
    if reachable(g, a, b) {
        let p = route(g, a, b);
        lemma_walk_reverse(g, a, p, b);
        let q = route(g, b, a);
        assert(reachable(g, b, a));
        lemma_walk_reverse(g, b, q, a);
        assert(walk_to(g, a, reversed(b, q), b));
        assert(walk_to(g, b, reversed(a, p), a));
    } else if reachable(g, b, a) {
        let q = route(g, b, a);
        lemma_walk_reverse(g, b, q, a);
        assert(walk_to(g, a, reversed(b, q), b));
    }
}

/// A click keeps the rules' invariant.
pub proof fn law_click_keeps_wf(v: GameView, t: Pos)
    requires
        wf(v),
    ensures
        wf(after_click(v, t)),
{
    if walkable(v.map, t) {
        law_route_empty(v.map, v.player, t);
    }
}

/// Damage to a goblin keeps the rules' invariant.
pub proof fn law_damage_keeps_wf(v: GameView, idx: int, amount: int)
    requires
        wf(v),
        0 <= idx < v.monsters.len(),
        i32::MIN <= v.monsters[idx].hp - amount <= i32::MAX,
    ensures
        wf(after_damage(v, idx, amount)),
{
    let w = after_damage(v, idx, amount);
    if v.monsters[idx].hp - amount <= 0 {
        assert forall|j: int| 0 <= j < w.monsters.len() implies #[trigger] w.monsters[j] == v.monsters[
            if j < idx { j } else { j + 1 }
        ] by {}
        assert forall|a: int, b: int| 0 <= a < b < w.monsters.len() implies pos_of(#[trigger] w.monsters[a])
            != pos_of(#[trigger] w.monsters[b]) by {
            let a1 = if a < idx { a } else { a + 1 };
            let b1 = if b < idx { b } else { b + 1 };
            assert(pos_of(v.monsters[a1]) != pos_of(v.monsters[b1]));
        }
    } else {
        assert forall|j: int| 0 <= j < w.monsters.len() implies pos_of(#[trigger] w.monsters[j]) == pos_of(
            v.monsters[j],
        ) && w.monsters[j].hp > 0 by {}
        assert forall|a: int, b: int| 0 <= a < b < w.monsters.len() implies pos_of(#[trigger] w.monsters[a])
            != pos_of(#[trigger] w.monsters[b]) by {
            assert(pos_of(v.monsters[a]) != pos_of(v.monsters[b]));
        }
    }
}

/// A step of the knight keeps the rules' invariant.
pub proof fn law_step_keeps_wf(v: GameView)
    requires
        wf(v),
    ensures
        wf(after_step(v)),
{
    if v.path.len() > 0 {
        let t = v.path[0];
        lemma_walk_rest(v.map, v.player, v.path);
        lemma_first_index_some(positions(v.monsters), t);
        lemma_first_index_some(v.gold, t);
        match first_index(positions(v.monsters), t) {
            Some(i) => {
                law_damage_keeps_wf(v, i, 10);
                assert(is_walk(v.map, v.player, Seq::<Pos>::empty()));
            },
            None => {
                let w = after_step(v);
                assert forall|k: int| 0 <= k < w.monsters.len() implies pos_of(#[trigger] w.monsters[k])
                    != w.player by {
                    assert(positions(v.monsters)[k] == pos_of(v.monsters[k]));
                }
            },
        }
    }
}

/// The goblins' turn keeps the rules' invariant.
pub proof fn law_monsters_keep_wf(v: GameView, ready: Seq<bool>)
    requires
        wf(v),
    ensures
        wf(after_monsters(v, ready)),
{
    lemma_upto_ok(v, ready, v.monsters.len() as int);
    lemma_upto_apart(v, ready, v.monsters.len() as int);
    lemma_upto_frame(v, ready, v.monsters.len() as int);
}

/// Goblins never stack: when the goblins stand on tiles of their own, away
/// from the knight, they still do after their turn.
pub proof fn law_goblins_never_stack(v: GameView, ready: Seq<bool>)
    requires
        apart(v.player, v.monsters),
    ensures
        apart(after_monsters(v, ready).player, after_monsters(v, ready).monsters),
{
    lemma_upto_apart(v, ready, v.monsters.len() as int);
}

/// No move changes the score plus the points still to be won: 100 for every
/// coin left and 50 for every goblin left.
pub proof fn law_score_conserved(v: GameView, t: Pos, ready: Seq<bool>)
    ensures
        score_total(after_click(v, t)) == score_total(v),
        score_total(after_step(v)) == score_total(v),
        score_total(after_monsters(v, ready)) == score_total(v),
{
    if v.path.len() > 0 {
        let t0 = v.path[0];
        lemma_first_index_some(positions(v.monsters), t0);
        lemma_first_index_some(v.gold, t0);
    }
    lemma_upto_frame(v, ready, v.monsters.len() as int);
}

/// Damage to a goblin does not change the score plus the points still to be won.
pub proof fn law_damage_score_conserved(v: GameView, idx: int, amount: int)
    requires
        0 <= idx < v.monsters.len(),
    ensures
        score_total(after_damage(v, idx, amount)) == score_total(v),
{
}

/// No move raises the knight's hit points; only the goblins' turn lowers them.
pub proof fn law_hp_never_rises(v: GameView, t: Pos, ready: Seq<bool>, idx: int, amount: int)
    ensures
        after_click(v, t).hp == v.hp,
        after_step(v).hp == v.hp,
        after_damage(v, idx, amount).hp == v.hp,
        after_monsters(v, ready).hp <= v.hp,
{
    lemma_hits_bound(v, ready, v.monsters.len() as int);
}

/// Walking one step along the path to a clicked tile leaves exactly the path
/// the path finder would find from the new tile: the knight keeps to the
/// route it was given.
pub proof fn law_walk_keeps_route(v: GameView, dest: Pos)
    requires
        v.path == route(v.map, v.player, dest),
        v.path.len() > 0,
        first_index(positions(v.monsters), v.path[0]) is None,
    ensures
        after_step(v).player == v.path[0],
        after_step(v).path == route(v.map, after_step(v).player, dest),
{
    law_route_empty(v.map, v.player, dest);
    lemma_route_suffix(v.map, v.player, dest, v.path);
    lemma_route_is(v.map, v.path[0], dest, v.path.drop_first());
}

/// A goblin that moves on its turn steps onto a neighbouring floor tile that
/// is not the knight's, not any goblin's tile when the turn began, and not a
/// tile another goblin moved to earlier in the turn; and its route to the
/// knight becomes one step shorter: it keeps to the first step of its own
/// shortest route.
pub proof fn law_chase_closer(v: GameView, ready: Seq<bool>, i: int)
    requires
        0 <= i < v.monsters.len(),
        pos_of(after_monsters(v, ready).monsters[i]) != pos_of(v.monsters[i]),
    ensures
        ready[i],
        adjacent(pos_of(v.monsters[i]), pos_of(after_monsters(v, ready).monsters[i])),
        walkable(v.map, pos_of(after_monsters(v, ready).monsters[i])),
        !occupied(v.player, v.monsters).contains(pos_of(after_monsters(v, ready).monsters[i])),
        !taken_upto(v, ready, i).contains(pos_of(after_monsters(v, ready).monsters[i])),
        route(v.map, pos_of(after_monsters(v, ready).monsters[i]), v.player).len() == route(
            v.map,
            pos_of(v.monsters[i]),
            v.player,
        ).len() - 1,
{
    let n = v.monsters.len() as int;
    lemma_upto_frame(v, ready, n);
    lemma_upto_frame(v, ready, i);
    lemma_upto_frame(v, ready, i + 1);
    let ms = monsters_upto(v, ready, i);
    let m = v.monsters[i];
    assert(ms[i] == m);
    let taken = taken_upto(v, ready, i);
    let occ = occupied(v.player, v.monsters);
    assert(after_monsters(v, ready).monsters[i] == monsters_upto(v, ready, i + 1)[i]);
    lemma_chase_moves(v.map, v.player, taken, m);
    let p = pos_of(after_monsters(v, ready).monsters[i]);
    if occ.contains(p) {
        let k = choose|k: int| 0 <= k < occ.len() && occ[k] == p;
        assert(taken[k] == occ[k]);
    }
    let r = route(v.map, pos_of(m), v.player);
    lemma_route_suffix(v.map, pos_of(m), v.player, r);
    lemma_route_is(v.map, r[0], v.player, r.drop_first());
}

/// The knight only ever moves to a neighbouring floor tile, and only along its path.
pub proof fn law_step_moves_one_tile(v: GameView)
    requires
        wf(v),
        after_step(v).player != v.player,
    ensures
        v.path.len() > 0,
        after_step(v).player == v.path[0],
        adjacent(v.player, after_step(v).player),
        walkable(v.map, after_step(v).player),
{
    lemma_walk_rest(v.map, v.player, v.path);
}

/// A step of the knight keeps goblins on tiles of their own, away from the knight.
pub proof fn law_step_keeps_apart(v: GameView)
    requires
        apart(v.player, v.monsters),
    ensures
        apart(after_step(v).player, after_step(v).monsters),
{
    if v.path.len() > 0 {
        let t = v.path[0];
        lemma_first_index_some(positions(v.monsters), t);
        match first_index(positions(v.monsters), t) {
            Some(i) => {
                let w = after_step(v);
                if v.monsters[i].hp - 10 <= 0 {
                    assert forall|a: int, b: int| 0 <= a < b < w.monsters.len() implies pos_of(
                        #[trigger] w.monsters[a],
                    ) != pos_of(#[trigger] w.monsters[b]) by {
                        let a1 = if a < i { a } else { a + 1 };
                        let b1 = if b < i { b } else { b + 1 };
                        assert(pos_of(v.monsters[a1]) != pos_of(v.monsters[b1]));
                    }
                    assert forall|j: int| 0 <= j < w.monsters.len() implies pos_of(#[trigger] w.monsters[j])
                        != w.player by {
                        let j1 = if j < i { j } else { j + 1 };
                        assert(w.monsters[j] == v.monsters[j1]);
                    }
                } else {
                    assert forall|a: int, b: int| 0 <= a < b < w.monsters.len() implies pos_of(
                        #[trigger] w.monsters[a],
                    ) != pos_of(#[trigger] w.monsters[b]) by {
                        assert(pos_of(v.monsters[a]) != pos_of(v.monsters[b]));
                    }
                    assert forall|j: int| 0 <= j < w.monsters.len() implies pos_of(#[trigger] w.monsters[j])
                        != w.player by {
                        assert(pos_of(v.monsters[j]) != v.player);
                    }
                }
            },
            None => {
                let w = after_step(v);
                assert forall|k: int| 0 <= k < w.monsters.len() implies pos_of(#[trigger] w.monsters[k])
                    != w.player by {
                    assert(positions(v.monsters)[k] == pos_of(v.monsters[k]));
                }
            },
        }
    }
}

/// A whole frame of play keeps the rules' invariant.
pub proof fn law_frame_keeps_wf(v: GameView, click: Option<Pos>, player_ready: bool, ready: Seq<bool>)
    requires
        wf(v),
    ensures
        wf(after_frame(v, click, player_ready, ready)),
{
    if !over(v) {
        if let Some(t) = click {
            law_click_keeps_wf(v, t);
        }
        let w = after_input(v, click);
        if steps(v, click, player_ready) {
            law_step_keeps_wf(w);
        }
        law_monsters_keep_wf(before_monsters(v, click, player_ready), flags_after(v, click, player_ready, ready));
    }
}

/// Goblins never stack over a whole frame: when they stand on tiles of their
/// own, away from the knight, they still do after the frame.
pub proof fn law_frame_never_stacks(v: GameView, click: Option<Pos>, player_ready: bool, ready: Seq<bool>)
    requires
        apart(v.player, v.monsters),
    ensures
        apart(after_frame(v, click, player_ready, ready).player, after_frame(v, click, player_ready, ready).monsters),
{
    if !over(v) {
        let w = after_input(v, click);
        if steps(v, click, player_ready) {
            law_step_keeps_apart(w);
        }
        law_goblins_never_stack(before_monsters(v, click, player_ready), flags_after(v, click, player_ready, ready));
    }
}

/// In one frame the score gains 0, 50 or 100; the knight loses 5 hit points
/// for each of at most all the goblins; at most one goblin or one coin goes,
/// never both; the map never changes.
pub proof fn law_frame_changes(v: GameView, click: Option<Pos>, player_ready: bool, ready: Seq<bool>)
    ensures
        after_frame(v, click, player_ready, ready).map == v.map,
        after_frame(v, click, player_ready, ready).score == v.score
            || after_frame(v, click, player_ready, ready).score == v.score + 50
            || after_frame(v, click, player_ready, ready).score == v.score + 100,
        exists|k: int|
            0 <= k <= v.monsters.len() && #[trigger] (v.hp - 5 * k) == after_frame(v, click, player_ready, ready).hp,
        after_frame(v, click, player_ready, ready).monsters.len() == v.monsters.len()
            || after_frame(v, click, player_ready, ready).monsters.len() == v.monsters.len() - 1,
        after_frame(v, click, player_ready, ready).gold == v.gold || exists|j: int|
            0 <= j < v.gold.len() && after_frame(v, click, player_ready, ready).gold == #[trigger] v.gold.remove(j),
        !(after_frame(v, click, player_ready, ready).monsters.len() < v.monsters.len()
            && after_frame(v, click, player_ready, ready).gold.len() < v.gold.len()),
{
    let f = after_frame(v, click, player_ready, ready);
    if over(v) {
        assert(v.hp - 5 * 0 == f.hp);
    } else {
        let w = after_input(v, click);
        let b = before_monsters(v, click, player_ready);
        let fl = flags_after(v, click, player_ready, ready);
        lemma_upto_frame(b, fl, b.monsters.len() as int);
        lemma_hits_bound(b, fl, b.monsters.len() as int);
        let k = hits(b, fl, b.monsters.len() as int);
        assert(v.hp - 5 * k == f.hp);
        if steps(v, click, player_ready) {
            let t = w.path[0];
            lemma_first_index_some(positions(w.monsters), t);
            lemma_first_index_some(w.gold, t);
            match first_index(positions(w.monsters), t) {
                Some(i) => {},
                None => {
                    match first_index(w.gold, t) {
                        Some(j) => {
                            assert(f.gold == v.gold.remove(j));
                        },
                        None => {},
                    }
                },
            }
        }
    }
}

/// Every ready goblin at Manhattan distance 1 from the knight, in any
/// direction, hits for exactly 5; a ready goblin farther away does not hit;
/// with no goblin ready the knight keeps its hit points. So marking goblin
/// `i` ready lowers the knight's hit points after the turn by 5 exactly when
/// it stands next to the knight, and such a goblin stays where it is.
pub proof fn law_adjacent_goblin_hits(v: GameView, ready: Seq<bool>, i: int)
    requires
        0 <= i < v.monsters.len(),
        ready.len() == v.monsters.len(),
    ensures
        manhattan(pos_of(v.monsters[i]), v.player) == 1 ==> after_monsters(v, ready.update(i, true)).hp
            == after_monsters(v, ready.update(i, false)).hp - 5,
        manhattan(pos_of(v.monsters[i]), v.player) != 1 ==> after_monsters(v, ready.update(i, true)).hp
            == after_monsters(v, ready.update(i, false)).hp,
        after_monsters(v, Seq::new(v.monsters.len(), |j: int| false)).hp == v.hp,
        ready[i] && manhattan(pos_of(v.monsters[i]), v.player) == 1 ==> after_monsters(v, ready).monsters[i]
            == v.monsters[i],
{
    let n = v.monsters.len() as int;
    let r1 = ready.update(i, true);
    let r0 = ready.update(i, false);
    lemma_hits_flip(v, r1, r0, i, n);
    lemma_hits_none(v, Seq::new(v.monsters.len(), |j: int| false), n);
    lemma_upto_frame(v, ready, n);
    lemma_upto_frame(v, ready, i);
    lemma_upto_frame(v, ready, i + 1);
}

/// Two ready marks that differ only for goblin `i` give hit counts that
/// differ by that goblin's hit alone.
proof fn lemma_hits_flip(v: GameView, r1: Seq<bool>, r2: Seq<bool>, i: int, n: int)
    requires
        0 <= i < n <= v.monsters.len(),
        r1.len() == v.monsters.len(),
        r2.len() == v.monsters.len(),
        forall|j: int| 0 <= j < v.monsters.len() && j != i ==> r1[j] == r2[j],
    ensures
        hits(v, r1, n) - hits(v, r2, n) == (if r1[i] && manhattan(pos_of(v.monsters[i]), v.player) == 1 {
            1int
        } else {
            0int
        }) - (if r2[i] && manhattan(pos_of(v.monsters[i]), v.player) == 1 {
            1int
        } else {
            0int
        }),
    decreases n,
{
    if n - 1 > i {
        lemma_hits_flip(v, r1, r2, i, n - 1);
    } else {
        lemma_hits_same(v, r1, r2, i);
    }
}

/// Ready marks that agree on the first `n` goblins give the same hit count.
proof fn lemma_hits_same(v: GameView, r1: Seq<bool>, r2: Seq<bool>, n: int)
    requires
        0 <= n <= v.monsters.len(),
        forall|j: int| 0 <= j < n ==> r1[j] == r2[j],
    ensures
        hits(v, r1, n) == hits(v, r2, n),
    decreases n,
{
    if n > 0 {
        lemma_hits_same(v, r1, r2, n - 1);
    }
}

/// With no goblin ready, none hits.
proof fn lemma_hits_none(v: GameView, ready: Seq<bool>, n: int)
    requires
        0 <= n <= ready.len(),
        forall|j: int| 0 <= j < ready.len() ==> !ready[j],
    ensures
        hits(v, ready, n) == 0,
    decreases n,
{
    if n > 0 {
        lemma_hits_none(v, ready, n - 1);
    }
}

/// The game is over exactly when the knight has no hit points left or no
/// goblin is left; with hit points and a goblin left a frame is played.
pub proof fn law_over_exactly(v: GameView, click: Option<Pos>, player_ready: bool, ready: Seq<bool>)
    ensures
        over(v) <==> (v.hp <= 0 || v.monsters.len() == 0),
        v.hp > 0 && v.monsters.len() >= 1 ==> frame_result(v, click, player_ready, ready) is Some,
        v.hp <= 0 || v.monsters.len() == 0 ==> frame_result(v, click, player_ready, ready) is None
            && after_frame(v, click, player_ready, ready) == v,
{
}

/// A click on any floor tile of the map sets the path to the route there,
/// whatever the path was; a click on a wall or off the map changes nothing.
pub proof fn law_click_sets_route(v: GameView, t: Pos)
    ensures
        t.0 < MAP && t.1 < MAP && v.map@[t.1 as int]@[t.0 as int] == Tile::Floor ==> after_click(v, t).path
            == route(v.map, v.player, t),
        !(t.0 < MAP && t.1 < MAP && v.map@[t.1 as int]@[t.0 as int] == Tile::Floor) ==> after_click(v, t)
            == v,
        after_click(v, t).player == v.player,
        after_click(v, t).monsters == v.monsters,
{
}

/// In a frame that is played, a click on a floor tile redirects the knight
/// whatever path it had: when it does not step, its path is the route to the
/// clicked tile; when it steps onto the first tile of that route (no goblin
/// there), it stands there with the rest of the route before it.
pub proof fn law_frame_click_redirects(v: GameView, t: Pos, ready: Seq<bool>)
    requires
        v.hp > 0,
        v.monsters.len() >= 1,
        t.0 < MAP,
        t.1 < MAP,
        v.map@[t.1 as int]@[t.0 as int] == Tile::Floor,
    ensures
        after_frame(v, Some(t), false, ready).path == route(v.map, v.player, t),
        after_frame(v, Some(t), false, ready).player == v.player,
        route(v.map, v.player, t).len() > 0 && !(exists|i: int|
            0 <= i < v.monsters.len() && pos_of(v.monsters[i]) == route(v.map, v.player, t)[0]) ==> {
            &&& after_frame(v, Some(t), true, ready).player == route(v.map, v.player, t)[0]
            &&& after_frame(v, Some(t), true, ready).path == route(v.map, v.player, t).drop_first()
        },
{
    let r = route(v.map, v.player, t);
    if r.len() > 0 {
        lemma_first_index_some(positions(v.monsters), r[0]);
        if positions(v.monsters).contains(r[0]) {
            let k = choose|k: int| 0 <= k < positions(v.monsters).len() && positions(v.monsters)[k] == r[0];
            assert(pos_of(v.monsters[k]) == r[0]);
        }
    }
}

/// A step onto a tile where a goblin stands is an attack: the knight stays,
/// its path is dropped whether or not the hit kills, and the first goblin
/// there loses 10 hit points or, with 10 or fewer, is removed for 50 points.
pub proof fn law_attack_stops(v: GameView, i: int)
    requires
        v.path.len() > 0,
        0 <= i < v.monsters.len(),
        pos_of(v.monsters[i]) == v.path[0],
        forall|j: int| 0 <= j < i ==> pos_of(v.monsters[j]) != v.path[0],
    ensures
        after_step(v).path.len() == 0,
        after_step(v).player == v.player,
        after_step(v).gold == v.gold,
        v.monsters[i].hp > 10 ==> after_step(v).monsters == v.monsters.update(
            i,
            Monster { hp: (v.monsters[i].hp - 10) as i32, ..v.monsters[i] },
        ) && after_step(v).score == v.score,
        v.monsters[i].hp <= 10 ==> after_step(v).monsters == v.monsters.remove(i) && after_step(v).score
            == v.score + 50,
{
    let ps = positions(v.monsters);
    assert(ps[i] == v.path[0]);
    assert forall|j: int| 0 <= j < i implies ps[j] != v.path[0] by {
        assert(ps[j] == pos_of(v.monsters[j]));
    }
    lemma_first_index(ps, v.path[0], i);
}

/// A step onto a tile with no goblin moves the knight there and shortens its
/// path by that tile; a coin there is picked up for 100 points.
pub proof fn law_step_moves(v: GameView)
    requires
        v.path.len() > 0,
        forall|j: int| 0 <= j < v.monsters.len() ==> pos_of(v.monsters[j]) != v.path[0],
    ensures
        after_step(v).player == v.path[0],
        after_step(v).path == v.path.drop_first(),
        after_step(v).monsters == v.monsters,
        v.gold.contains(v.path[0]) ==> after_step(v).score == v.score + 100 && after_step(v).gold.len()
            == v.gold.len() - 1,
        !v.gold.contains(v.path[0]) ==> after_step(v).score == v.score && after_step(v).gold == v.gold,
{
    let ps = positions(v.monsters);
    lemma_first_index_some(ps, v.path[0]);
    if ps.contains(v.path[0]) {
        let k = choose|k: int| 0 <= k < ps.len() && ps[k] == v.path[0];
        assert(pos_of(v.monsters[k]) == v.path[0]);
    }
    lemma_first_index_some(v.gold, v.path[0]);
}

/// Damage of `amount` to goblin `idx`: with hit points left over it stays
/// in place with `amount` fewer; otherwise it is removed, the others keep
/// their order, and the score gains 50. Nothing else changes.
pub proof fn law_damage_exact(v: GameView, idx: int, amount: int)
    requires
        0 <= idx < v.monsters.len(),
        i32::MIN <= v.monsters[idx].hp - amount <= i32::MAX,
    ensures
        v.monsters[idx].hp - amount > 0 ==> {
            &&& after_damage(v, idx, amount).monsters.len() == v.monsters.len()
            &&& after_damage(v, idx, amount).monsters[idx].hp == v.monsters[idx].hp - amount
            &&& pos_of(after_damage(v, idx, amount).monsters[idx]) == pos_of(v.monsters[idx])
            &&& forall|j: int| 0 <= j < v.monsters.len() && j != idx ==> after_damage(v, idx, amount).monsters[j] == v.monsters[j]
            &&& after_damage(v, idx, amount).score == v.score
        },
        v.monsters[idx].hp - amount <= 0 ==> {
            &&& after_damage(v, idx, amount).monsters.len() == v.monsters.len() - 1
            &&& forall|j: int| 0 <= j < idx ==> after_damage(v, idx, amount).monsters[j] == v.monsters[j]
            &&& forall|j: int| idx < j < v.monsters.len() ==> after_damage(v, idx, amount).monsters[j - 1] == v.monsters[j]
            &&& after_damage(v, idx, amount).score == v.score + 50
        },
        after_damage(v, idx, amount).player == v.player,
        after_damage(v, idx, amount).hp == v.hp,
        after_damage(v, idx, amount).gold == v.gold,
        after_damage(v, idx, amount).path == v.path,
{
}

/// The tiles blocked at goblin `n`'s turn are the tiles taken when the turn
/// began (every goblin's and the knight's) and the tiles the goblins before
/// it stand on.
proof fn lemma_taken_is(v: GameView, ready: Seq<bool>, n: int, p: Pos)
    requires
        0 <= n <= v.monsters.len(),
    ensures
        taken_upto(v, ready, n).contains(p) <==> (occupied(v.player, v.monsters).contains(p) || exists|j: int|
            0 <= j < n && pos_of(#[trigger] monsters_upto(v, ready, n)[j]) == p),
    decreases n,
{
    let occ = occupied(v.player, v.monsters);
    lemma_upto_frame(v, ready, n);
    if n > 0 {
        lemma_taken_is(v, ready, n - 1, p);
        lemma_upto_frame(v, ready, n - 1);
        let ms = monsters_upto(v, ready, n - 1);
        let ms2 = monsters_upto(v, ready, n);
        let taken = taken_upto(v, ready, n - 1);
        let i = n - 1;
        let c = chase(v.map, v.player, taken, ms[i]);
        if ready[i] && c != ms[i] {
            let t2 = taken.push(pos_of(c));
            if t2.contains(p) && !taken.contains(p) {
                assert(p == pos_of(c));
                assert(pos_of(ms2[i]) == p);
            }
            if taken.contains(p) {
                let k = choose|k: int| 0 <= k < taken.len() && taken[k] == p;
                assert(t2[k] == p);
            }
            if exists|j: int| 0 <= j < n && pos_of(#[trigger] ms2[j]) == p {
                let j = choose|j: int| 0 <= j < n && pos_of(#[trigger] ms2[j]) == p;
                if j < i {
                    assert(ms2[j] == ms[j]);
                } else {
                    assert(t2[taken.len() as int] == p);
                }
            }
            if exists|j: int| 0 <= j < n - 1 && pos_of(#[trigger] ms[j]) == p {
                let j = choose|j: int| 0 <= j < n - 1 && pos_of(#[trigger] ms[j]) == p;
                assert(ms2[j] == ms[j]);
            }
        } else {
            if exists|j: int| 0 <= j < n && pos_of(#[trigger] ms2[j]) == p {
                let j = choose|j: int| 0 <= j < n && pos_of(#[trigger] ms2[j]) == p;
                if j == i {
                    assert(ms[i] == v.monsters[i]);
                    assert(occ[i] == pos_of(v.monsters[i]));
                }
            }
            if exists|j: int| 0 <= j < n - 1 && pos_of(#[trigger] ms[j]) == p {
                let j = choose|j: int| 0 <= j < n - 1 && pos_of(#[trigger] ms[j]) == p;
                assert(ms2[j] == ms[j]);
            }
        }
    }
}

/// A ready goblin that is not next to the knight takes the first step of
/// its route to the knight, when that route has more than one step and its
/// first tile is neither the knight's, nor any goblin's when the turn began,
/// nor where a goblin before it ends the turn; when that tile is one of
/// these, or the route is a single step or none, it stays.
pub proof fn law_goblin_advances(v: GameView, ready: Seq<bool>, i: int)
    requires
        0 <= i < v.monsters.len(),
        ready.len() == v.monsters.len(),
        ready[i],
        manhattan(pos_of(v.monsters[i]), v.player) != 1,
    ensures
        ({
            let r = route(v.map, pos_of(v.monsters[i]), v.player);
            let w = after_monsters(v, ready);
            let free = r.len() > 1 && r[0] != v.player
                && (forall|j: int| 0 <= j < v.monsters.len() ==> pos_of(v.monsters[j]) != r[0])
                && (forall|j: int| 0 <= j < i ==> pos_of(w.monsters[j]) != r[0]);
            &&& free ==> pos_of(w.monsters[i]) == r[0] && w.monsters[i].hp == v.monsters[i].hp
            &&& !free ==> w.monsters[i] == v.monsters[i]
        }),
{
    let n = v.monsters.len() as int;
    let r = route(v.map, pos_of(v.monsters[i]), v.player);
    let w = after_monsters(v, ready);
    lemma_upto_frame(v, ready, n);
    lemma_upto_frame(v, ready, i);
    lemma_upto_frame(v, ready, i + 1);
    let ms = monsters_upto(v, ready, i);
    assert(ms[i] == v.monsters[i]);
    assert(w.monsters[i] == monsters_upto(v, ready, i + 1)[i]);
    assert forall|j: int| 0 <= j < i implies #[trigger] w.monsters[j] == ms[j] by {
        assert(monsters_upto(v, ready, n)[j] == monsters_upto(v, ready, j + 1)[j]);
        assert(monsters_upto(v, ready, i)[j] == monsters_upto(v, ready, j + 1)[j]);
    }
    let occ = occupied(v.player, v.monsters);
    let taken = taken_upto(v, ready, i);
    let c = chase(v.map, v.player, taken, ms[i]);
    assert(taken.contains(pos_of(ms[i])));
    let free = r.len() > 1 && r[0] != v.player
        && (forall|j: int| 0 <= j < v.monsters.len() ==> pos_of(v.monsters[j]) != r[0])
        && (forall|j: int| 0 <= j < i ==> pos_of(w.monsters[j]) != r[0]);
    if r.len() > 1 {
        lemma_taken_is(v, ready, i, r[0]);
        if free {
            assert(!occ.contains(r[0])) by {
                if occ.contains(r[0]) {
                    let k = choose|k: int| 0 <= k < occ.len() && occ[k] == r[0];
                    if k < n {
                        assert(occ[k] == pos_of(v.monsters[k]));
                    } else {
                        assert(occ[k] == v.player);
                    }
                }
            }
            assert(!exists|j: int| 0 <= j < i && pos_of(#[trigger] ms[j]) == r[0]) by {
                if exists|j: int| 0 <= j < i && pos_of(#[trigger] ms[j]) == r[0] {
                    let j = choose|j: int| 0 <= j < i && pos_of(#[trigger] ms[j]) == r[0];
                    assert(w.monsters[j] == ms[j]);
                }
            }
            assert(!taken.contains(r[0]));
            assert(c != ms[i]);
        } else {
            if r[0] == v.player {
                assert(occ[n] == v.player);
            } else if !(forall|j: int| 0 <= j < v.monsters.len() ==> pos_of(v.monsters[j]) != r[0]) {
                let k = choose|k: int| 0 <= k < v.monsters.len() && !(pos_of(v.monsters[k]) != r[0]);
                assert(occ[k] == pos_of(v.monsters[k]));
            } else {
                let j = choose|j: int| 0 <= j < i && !(pos_of(w.monsters[j]) != r[0]);
                assert(w.monsters[j] == ms[j]);
            }
            assert(taken.contains(r[0]));
            assert(c == ms[i]);
        }
    } else {
        assert(c == ms[i]);
    }
}

/// A goblin with 30 hit points dies from the third hit of 10: it is removed
/// and the score gains 50.
pub proof fn law_three_hits(v: GameView, i: int)
    requires
        0 <= i < v.monsters.len(),
        v.monsters[i].hp == 30,
    ensures
        after_damage(after_damage(after_damage(v, i, 10), i, 10), i, 10).monsters == v.monsters.remove(i),
        after_damage(after_damage(after_damage(v, i, 10), i, 10), i, 10).score == v.score + 50,
        after_damage(after_damage(v, i, 10), i, 10).monsters.len() == v.monsters.len(),
{
    let v1 = after_damage(v, i, 10);
    let v2 = after_damage(v1, i, 10);
    let v3 = after_damage(v2, i, 10);
    assert(v3.monsters =~= v.monsters.remove(i));
}

/// The knight's hit points fall by exactly 5 for every goblin that acts
/// while standing next to it.
pub proof fn law_goblin_hits(v: GameView, ready: Seq<bool>)
    requires
        ready.len() == v.monsters.len(),
    ensures
        after_monsters(v, ready).hp == v.hp - 5 * hits(v, ready, v.monsters.len() as int),
        0 <= hits(v, ready, v.monsters.len() as int) <= v.monsters.len(),
{
    lemma_hits_bound(v, ready, v.monsters.len() as int);
}

} // verus!
