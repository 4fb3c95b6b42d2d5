//! The state of a game and its rules: the knight walks along the path found
//! to the tile clicked, attacks a goblin that stands in the way, picks up
//! gold, and the goblins chase and hit the knight.

use vstd::prelude::*;
use crate::laws::{law_goblins_never_stack, law_monsters_keep_wf, law_step_keeps_wf};
use crate::grid::{adjacent, dist, lemma_cell_write, manhattan, tile_at, walkable, Grid, Pos, Tile, MAP};
use crate::pathfind::{bfs, is_route, is_walk, route, step_ok, walk_to};

verus! {

/// A goblin: its tile and its hit points.
#[derive(Clone, Copy, PartialEq, Eq, Structural, Debug)]
pub struct Monster {
    pub x: usize,
    pub y: usize,
    pub hp: i32,
}

pub open spec fn pos_of(m: Monster) -> Pos {
    (m.x, m.y)
}

/// The tiles of the goblins, in order.
pub open spec fn positions(ms: Seq<Monster>) -> Seq<Pos> {
    ms.map_values(|m: Monster| pos_of(m))
}

/// `i` is the first index at which `s` holds `p`.
pub open spec fn is_first(s: Seq<Pos>, p: Pos, i: int) -> bool {
    &&& 0 <= i < s.len()
    &&& s[i] == p
    &&& forall|j: int| 0 <= j < i ==> s[j] != p
}

/// The first index at which `s` holds `p`, if any.
pub open spec fn first_index(s: Seq<Pos>, p: Pos) -> Option<int> {
    if s.contains(p) {
        Some(choose|i: int| is_first(s, p, i))
    } else {
        None
    }
}

/// A first index is what `first_index` names.
pub proof fn lemma_first_index(s: Seq<Pos>, p: Pos, i: int)
    requires
        is_first(s, p, i),
    ensures
        first_index(s, p) == Some(i),
{
    assert(s.contains(p));
    let j = choose|j: int| is_first(s, p, j);
    assert(is_first(s, p, j));
    if j < i {
        assert(s[j] != p);
    } else if i < j {
        assert(s[i] != p);
    }
}


/// The first index at which `s` holds `p`, given some index at which it does.
proof fn first_at_or_before(s: Seq<Pos>, p: Pos, k: int) -> (i: int)
    requires
        0 <= k < s.len(),
        s[k] == p,
    ensures
        is_first(s, p, i),
    decreases k,
{
    if exists|j: int| 0 <= j < k && s[j] == p {
        let j = choose|j: int| 0 <= j < k && s[j] == p;
        first_at_or_before(s, p, j)
    } else {
        k
    }
}

/// `first_index` names a first index whenever there is one.
pub proof fn lemma_first_index_some(s: Seq<Pos>, p: Pos)
    ensures
        match first_index(s, p) {
            Some(i) => is_first(s, p, i),
            None => !s.contains(p),
        },
{
    if s.contains(p) {
        let k = choose|k: int| 0 <= k < s.len() && s[k] == p;
        let i = first_at_or_before(s, p, k);
        lemma_first_index(s, p, i);
    }
}

/// Index of the first entry of `s` equal to `p`.
pub fn find_pos(s: &Vec<Pos>, p: Pos) -> (r: Option<usize>)
    ensures
        match r {
            Some(i) => first_index(s@, p) == Some(i as int) && is_first(s@, p, i as int),
            None => first_index(s@, p) is None && !s@.contains(p),
        },
{
    let mut i: usize = 0;
    while i < s.len()
        invariant
            i <= s@.len(),
            forall|j: int| 0 <= j < i ==> s@[j] != p,
        decreases s@.len() - i,
    {
        if s[i].0 == p.0 && s[i].1 == p.1 {
            proof {
                lemma_first_index(s@, p, i as int);
            }
            return Some(i);
        }
        i = i + 1;
    }
    None
}

/// Index of the first goblin standing on `p`.
pub fn find_monster(ms: &Vec<Monster>, p: Pos) -> (r: Option<usize>)
    ensures
        match r {
            Some(i) => first_index(positions(ms@), p) == Some(i as int) && is_first(
                positions(ms@),
                p,
                i as int,
            ),
            None => first_index(positions(ms@), p) is None && !positions(ms@).contains(p),
        },
{
    let ghost ps = positions(ms@);
    let mut i: usize = 0;
    while i < ms.len()
        invariant
            i <= ms@.len(),
            ps == positions(ms@),
            forall|j: int| 0 <= j < i ==> ps[j] != p,
        decreases ms@.len() - i,
    {
        if ms[i].x == p.0 && ms[i].y == p.1 {
            proof {
                assert(ps[i as int] == p);
                lemma_first_index(ps, p, i as int);
            }
            return Some(i);
        }
        i = i + 1;
    }
    proof {
        assert(!ps.contains(p));
    }
    None
}

/// The state of a game as the rules see it.
#[verifier::ext_equal]
pub struct GameView {
    pub map: Grid,
    pub player: Pos,
    pub path: Seq<Pos>,
    pub monsters: Seq<Monster>,
    pub hp: int,
    pub gold: Seq<Pos>,
    pub score: int,
}

/// The knight, the goblins and the gold on one map.
pub struct Game {
    pub map: Grid,
    pub px: usize,
    pub py: usize,
    /// The tiles still to walk, next one first.
    pub path: Vec<Pos>,
    pub monsters: Vec<Monster>,
    pub hp: i32,
    pub gold: Vec<Pos>,
    pub score: i32,
}

impl View for Game {
    type V = GameView;

    open spec fn view(&self) -> GameView {
        GameView {
            map: self.map,
            player: (self.px, self.py),
            path: self.path@,
            monsters: self.monsters@,
            hp: self.hp as int,
            gold: self.gold@,
            score: self.score as int,
        }
    }
}

/// The goblins stand on pairwise different tiles, none on the knight's tile.
pub open spec fn apart(player: Pos, ms: Seq<Monster>) -> bool {
    &&& forall|i: int, j: int|
        0 <= i < j < ms.len() ==> pos_of(#[trigger] ms[i]) != pos_of(#[trigger] ms[j])
    &&& forall|i: int| 0 <= i < ms.len() ==> pos_of(#[trigger] ms[i]) != player
}

/// Every goblin stands on floor and is alive.
pub open spec fn monsters_ok(map: Grid, ms: Seq<Monster>) -> bool {
    forall|i: int|
        0 <= i < ms.len() ==> walkable(map, pos_of(#[trigger] ms[i])) && ms[i].hp > 0
}

/// What the rules keep true of every game: the knight and the goblins stand
/// on floor, the goblins on tiles of their own away from the knight, the
/// path is a walk from the knight's tile, every goblin is alive, and the
/// score cannot overflow.
pub open spec fn wf(v: GameView) -> bool {
    &&& walkable(v.map, v.player)
    &&& is_walk(v.map, v.player, v.path)
    &&& monsters_ok(v.map, v.monsters)
    &&& apart(v.player, v.monsters)
    &&& 0 <= v.score
    &&& score_total(v) <= i32::MAX
}

/// The score with the points of every coin and goblin left added in.
pub open spec fn score_total(v: GameView) -> int {
    v.score + 100 * v.gold.len() + 50 * v.monsters.len()
}

/// The game ends when the knight has no hit points left or no goblin is left.
pub open spec fn over(v: GameView) -> bool {
    v.hp <= 0 || v.monsters.len() == 0
}

/// A click on tile `t` sets the path to the route there, when `t` is floor.
pub open spec fn after_click(v: GameView, t: Pos) -> GameView {
    if walkable(v.map, t) {
        GameView { path: route(v.map, v.player, t), ..v }
    } else {
        v
    }
}

/// Goblin `idx` loses `amount` hit points; at zero or below it is removed
/// and the score gains 50.
pub open spec fn after_damage(v: GameView, idx: int, amount: int) -> GameView {
    let m = v.monsters[idx];
    if m.hp - amount <= 0 {
        GameView { monsters: v.monsters.remove(idx), score: v.score + 50, ..v }
    } else {
        GameView { monsters: v.monsters.update(idx, Monster { hp: (m.hp - amount) as i32, ..m }), ..v }
    }
}

/// One step of the knight along the path: a goblin on the next tile is hit
/// for 10 and the path is dropped; otherwise the knight moves there and
/// picks up a coin lying there, for 100 points.
pub open spec fn after_step(v: GameView) -> GameView {
    if v.path.len() == 0 {
        v
    } else {
        let t = v.path[0];
        match first_index(positions(v.monsters), t) {
            Some(i) => GameView { path: Seq::empty(), ..after_damage(v, i, 10) },
            None => {
                let moved = GameView { path: v.path.drop_first(), player: t, ..v };
                match first_index(v.gold, t) {
                    Some(j) => GameView { gold: v.gold.remove(j), score: v.score + 100, ..moved },
                    None => moved,
                }
            },
        }
    }
}

/// The tiles taken: those of the goblins `ms`, then the knight's.
pub open spec fn occupied(player: Pos, ms: Seq<Monster>) -> Seq<Pos> {
    positions(ms).push(player)
}

/// What goblin `m` becomes when it acts while the tiles `taken` are taken:
/// next to the knight it stays (and hits); otherwise it takes the first step
/// of its route to the knight, unless that route is a single step or that
/// tile is taken.
pub open spec fn chase(map: Grid, player: Pos, taken: Seq<Pos>, m: Monster) -> Monster {
    if manhattan(pos_of(m), player) == 1 {
        m
    } else {
        let r = route(map, pos_of(m), player);
        if r.len() > 1 && !taken.contains(r[0]) {
            Monster { x: r[0].0, y: r[0].1, ..m }
        } else {
            m
        }
    }
}

/// The goblins after the first `n` of them had their turn, in order, with
/// the tiles no goblin may enter: the knight's tile, every goblin's tile when
/// the turn began, and each tile a goblin moved to earlier in the turn.
pub open spec fn turn_upto(v: GameView, ready: Seq<bool>, n: int) -> (Seq<Monster>, Seq<Pos>)
    decreases n,
{
    if n <= 0 {
        (v.monsters, occupied(v.player, v.monsters))
    } else {
        let prev = turn_upto(v, ready, n - 1);
        let ms = prev.0;
        let taken = prev.1;
        let c = chase(v.map, v.player, taken, ms[n - 1]);
        if ready[n - 1] && c != ms[n - 1] {
            (ms.update(n - 1, c), taken.push(pos_of(c)))
        } else {
            (ms, taken)
        }
    }
}

/// The goblins after the first `n` of them had their turn.
pub open spec fn monsters_upto(v: GameView, ready: Seq<bool>, n: int) -> Seq<Monster> {
    turn_upto(v, ready, n).0
}

/// The tiles no goblin may enter after the first `n` goblins had their turn.
pub open spec fn taken_upto(v: GameView, ready: Seq<bool>, n: int) -> Seq<Pos> {
    turn_upto(v, ready, n).1
}

/// How many of the first `n` goblins act and stand next to the knight.
pub open spec fn hits(v: GameView, ready: Seq<bool>, n: int) -> int
    decreases n,
{
    if n <= 0 {
        0
    } else {
        hits(v, ready, n - 1) + (if ready[n - 1] && manhattan(pos_of(v.monsters[n - 1]), v.player)
            == 1 {
            1int
        } else {
            0int
        })
    }
}

/// The goblins marked ready act, in order; each one next to the knight hits for 5.
pub open spec fn after_monsters(v: GameView, ready: Seq<bool>) -> GameView {
    GameView {
        monsters: monsters_upto(v, ready, v.monsters.len() as int),
        hp: v.hp - 5 * hits(v, ready, v.monsters.len() as int),
        ..v
    }
}

/// A goblin keeps its place in the list; those not yet at their turn are
/// as they were, and one that had its turn stays as its turn left it. The
/// tiles taken when the turn began stay taken, with the knight's, and every
/// goblin's tile is among the taken ones.
pub proof fn lemma_upto_frame(v: GameView, ready: Seq<bool>, n: int)
    requires
        0 <= n <= v.monsters.len(),
    ensures
        monsters_upto(v, ready, n).len() == v.monsters.len(),
        forall|j: int| n <= j < v.monsters.len() ==> #[trigger] monsters_upto(v, ready, n)[j] == v.monsters[j],
        forall|j: int| 0 <= j < n ==> #[trigger] monsters_upto(v, ready, n)[j] == monsters_upto(v, ready, j + 1)[j],
        taken_upto(v, ready, n).len() >= v.monsters.len() + 1,
        forall|k: int|
            0 <= k <= v.monsters.len() ==> #[trigger] taken_upto(v, ready, n)[k] == occupied(v.player, v.monsters)[k],
        forall|j: int|
            0 <= j < v.monsters.len() ==> taken_upto(v, ready, n).contains(pos_of(#[trigger] monsters_upto(v, ready, n)[j])),
        taken_upto(v, ready, n).contains(v.player),
    decreases n,
{
    let occ = occupied(v.player, v.monsters);
    if n == 0 {
        assert forall|j: int| 0 <= j < v.monsters.len() implies taken_upto(v, ready, n).contains(
            pos_of(#[trigger] monsters_upto(v, ready, n)[j]),
        ) by {
            assert(occ[j] == pos_of(v.monsters[j]));
        }
        assert(occ[v.monsters.len() as int] == v.player);
    } else {
        lemma_upto_frame(v, ready, n - 1);
        let ms = monsters_upto(v, ready, n - 1);
        let taken = taken_upto(v, ready, n - 1);
        let c = chase(v.map, v.player, taken, ms[n - 1]);
        if ready[n - 1] && c != ms[n - 1] {
            let t2 = taken.push(pos_of(c));
            assert forall|k: int| 0 <= k <= v.monsters.len() implies #[trigger] t2[k] == occ[k] by {
                assert(taken[k] == occ[k]);
            }
            assert forall|j: int| 0 <= j < v.monsters.len() implies taken_upto(v, ready, n).contains(
                pos_of(#[trigger] monsters_upto(v, ready, n)[j]),
            ) by {
                if j == n - 1 {
                    assert(t2[taken.len() as int] == pos_of(c));
                } else {
                    assert(taken.contains(pos_of(ms[j])));
                    let k = choose|k: int| 0 <= k < taken.len() && taken[k] == pos_of(ms[j]);
                    assert(t2[k] == pos_of(ms[j]));
                }
            }
            assert(taken.contains(v.player));
            let k = choose|k: int| 0 <= k < taken.len() && taken[k] == v.player;
            assert(t2[k] == v.player);
        }
    }
}

/// A goblin that moves on its turn takes the first step of its route to the
/// knight, onto a walkable tile next to it that is not taken.
pub proof fn lemma_chase_moves(map: Grid, player: Pos, taken: Seq<Pos>, m: Monster)
    requires
        chase(map, player, taken, m) != m,
    ensures
        route(map, pos_of(m), player).len() > 1,
        is_route(map, pos_of(m), player, route(map, pos_of(m), player)),
        pos_of(chase(map, player, taken, m)) == route(map, pos_of(m), player)[0],
        walkable(map, pos_of(chase(map, player, taken, m))),
        adjacent(pos_of(m), pos_of(chase(map, player, taken, m))),
        !taken.contains(pos_of(chase(map, player, taken, m))),
        chase(map, player, taken, m).hp == m.hp,
{
    let r = route(map, pos_of(m), player);
    if !exists|p: Seq<Pos>| is_route(map, pos_of(m), player, p) {
        assert(r.len() == 0);
    }
    assert(step_ok(map, pos_of(m), r, 0));
}

/// Each turn keeps the goblins on floor and alive.
pub proof fn lemma_upto_ok(v: GameView, ready: Seq<bool>, n: int)
    requires
        0 <= n <= v.monsters.len(),
        monsters_ok(v.map, v.monsters),
    ensures
        monsters_ok(v.map, monsters_upto(v, ready, n)),
    decreases n,
{
    if n > 0 {
        lemma_upto_ok(v, ready, n - 1);
        lemma_upto_frame(v, ready, n - 1);
        let ms = monsters_upto(v, ready, n - 1);
        let taken = taken_upto(v, ready, n - 1);
        if ready[n - 1] && chase(v.map, v.player, taken, ms[n - 1]) != ms[n - 1] {
            lemma_chase_moves(v.map, v.player, taken, ms[n - 1]);
        }
    }
}

/// Each turn keeps the goblins on tiles of their own, away from the knight:
/// a goblin only steps onto a tile that is not taken, and every goblin's tile
/// and the knight's are taken.
pub proof fn lemma_upto_apart(v: GameView, ready: Seq<bool>, n: int)
    requires
        0 <= n <= v.monsters.len(),
        apart(v.player, v.monsters),
    ensures
        apart(v.player, monsters_upto(v, ready, n)),
    decreases n,
{
    if n > 0 {
        lemma_upto_apart(v, ready, n - 1);
        lemma_upto_frame(v, ready, n - 1);
        let ms = monsters_upto(v, ready, n - 1);
        let taken = taken_upto(v, ready, n - 1);
        let i = n - 1;
        let c = chase(v.map, v.player, taken, ms[i]);
        if ready[i] && c != ms[i] {
            let ms2 = ms.update(i, c);
            lemma_chase_moves(v.map, v.player, taken, ms[i]);
            assert forall|j: int| 0 <= j < ms.len() && j != i implies pos_of(#[trigger] ms2[j])
                != pos_of(c) by {
                assert(taken.contains(pos_of(ms[j])));
            }
            assert forall|a: int, b: int| 0 <= a < b < ms2.len() implies pos_of(#[trigger] ms2[a])
                != pos_of(#[trigger] ms2[b]) by {
                if a != i && b != i {
                    assert(pos_of(ms[a]) != pos_of(ms[b]));
                }
            }
        }
    }
}

/// What a step of the knight did, for the screen to show.
#[derive(Clone, Copy, PartialEq, Eq, Debug)]
pub enum StepOutcome {
    /// There was no path to follow.
    Idle,
    /// The goblin at `index`, standing on `(x, y)`, was hit for `amount`;
    /// `killed` when that removed it.
    Hit { index: usize, x: usize, y: usize, amount: i32, killed: bool },
    /// The knight moved one tile; `gold` when it picked up a coin there.
    Moved { gold: bool },
}

/// What a step of the knight reports.
pub open spec fn step_result(v: GameView) -> StepOutcome {
    if v.path.len() == 0 {
        StepOutcome::Idle
    } else {
        let t = v.path[0];
        match first_index(positions(v.monsters), t) {
            Some(i) => StepOutcome::Hit {
                index: i as usize,
                x: t.0,
                y: t.1,
                amount: 10,
                killed: v.monsters[i].hp - 10 <= 0,
            },
            None => StepOutcome::Moved { gold: first_index(v.gold, t) is Some },
        }
    }
}

/// What one frame of play reports, for the screen to show.
#[derive(Clone, Copy, PartialEq, Eq, Debug)]
pub struct FrameOutcome {
    /// What the knight's step did; `Idle` when it did not step.
    pub step: StepOutcome,
    /// Whether the knight had a path to follow, so that its move timer runs.
    pub ticked: bool,
    /// How many goblins hit the knight.
    pub hits: usize,
}

/// The game after the click of this frame, if any.
pub open spec fn after_input(v: GameView, click: Option<Pos>) -> GameView {
    match click {
        Some(t) => after_click(v, t),
        None => v,
    }
}

/// The knight steps this frame: it has a path and its move timer ran out.
pub open spec fn steps(v: GameView, click: Option<Pos>, player_ready: bool) -> bool {
    player_ready && after_input(v, click).path.len() > 0
}

/// The game when the goblins are about to act.
pub open spec fn before_monsters(v: GameView, click: Option<Pos>, player_ready: bool) -> GameView {
    if steps(v, click, player_ready) {
        after_step(after_input(v, click))
    } else {
        after_input(v, click)
    }
}

/// The ready marks of the goblins left when they act: a goblin killed by the
/// knight's step takes its mark with it.
pub open spec fn flags_after(v: GameView, click: Option<Pos>, player_ready: bool, ready: Seq<bool>) -> Seq<bool> {
    if steps(v, click, player_ready) {
        match step_result(after_input(v, click)) {
            StepOutcome::Hit { index, killed, .. } => if killed {
                ready.remove(index as int)
            } else {
                ready
            },
            _ => ready,
        }
    } else {
        ready
    }
}

/// One frame of play: nothing once the game is over; otherwise the click,
/// then the knight's step when due, then the goblins whose timers ran out.
pub open spec fn after_frame(v: GameView, click: Option<Pos>, player_ready: bool, ready: Seq<bool>) -> GameView {
    if over(v) {
        v
    } else {
        after_monsters(
            before_monsters(v, click, player_ready),
            flags_after(v, click, player_ready, ready),
        )
    }
}

/// What one frame of play reports; nothing once the game is over.
pub open spec fn frame_result(v: GameView, click: Option<Pos>, player_ready: bool, ready: Seq<bool>) -> Option<FrameOutcome> {
    if over(v) {
        None
    } else {
        let b = before_monsters(v, click, player_ready);
        Some(FrameOutcome {
            step: if steps(v, click, player_ready) {
                step_result(after_input(v, click))
            } else {
                StepOutcome::Idle
            },
            ticked: after_input(v, click).path.len() > 0,
            hits: hits(b, flags_after(v, click, player_ready, ready), b.monsters.len() as int) as usize,
        })
    }
}

/// How many of the first `n` goblins act while next to the knight is at most `n`.
pub proof fn lemma_hits_bound(v: GameView, ready: Seq<bool>, n: int)
    requires
        0 <= n,
    ensures
        0 <= hits(v, ready, n) <= n,
    decreases n,
{
    if n > 0 {
        lemma_hits_bound(v, ready, n - 1);
    }
}

/// The count of hits only grows with the number of goblins counted.
pub proof fn lemma_hits_mono(v: GameView, ready: Seq<bool>, a: int, b: int)
    requires
        0 <= a <= b,
    ensures
        hits(v, ready, a) <= hits(v, ready, b),
    decreases b - a,
{
    if a < b {
        lemma_hits_mono(v, ready, a, b - 1);
    }
}

/// A tile is a wall at the start of a game: the border, and three pillars.
pub open spec fn start_wall(x: int, y: int) -> bool {
    ||| x == 0
    ||| y == 0
    ||| x == MAP - 1
    ||| y == MAP - 1
    ||| (x == 5 && y == 5)
    ||| (x == 6 && y == 5)
    ||| (x == 12 && y == 10)
}

/// The map at the start of a game.
pub open spec fn start_map(g: Grid) -> bool {
    forall|x: int, y: int|
        0 <= x < MAP && 0 <= y < MAP ==> #[trigger] g@[y]@[x] == (if start_wall(x, y) {
            Tile::Wall
        } else {
            Tile::Floor
        })
}

/// The state at the start of a game.
pub open spec fn start_view(v: GameView) -> bool {
    &&& start_map(v.map)
    &&& v.player == (2usize, 2usize)
    &&& v.path == Seq::<Pos>::empty()
    &&& v.monsters == seq![
        Monster { x: 8, y: 8, hp: 30 },
        Monster { x: 12, y: 4, hp: 30 },
        Monster { x: 15, y: 12, hp: 30 },
    ]
    &&& v.hp == 100
    &&& v.gold == seq![(3usize, 3usize), (10usize, 2usize), (16usize, 5usize), (6usize, 14usize), (17usize, 17usize)]
    &&& v.score == 0
}

impl Game {

    /// A new game: the walled map with its pillars, the knight at (2, 2),
    /// three goblins of 30 hit points and five coins.
    pub fn new() -> (g: Game)
        ensures
            start_view(g@),
            wf(g@),
    {
        let mut map: Grid = [[Tile::Floor; MAP]; MAP];
        let mut i: usize = 0;
        while i < MAP
            invariant
                i <= MAP,
                forall|x: int, y: int|
                    0 <= x < MAP && 0 <= y < MAP ==> #[trigger] map@[y]@[x] == (if (y == 0 && x < i) || (
                    y == MAP - 1 && x < i) || (x == 0 && y < i) || (x == MAP - 1 && y < i) {
                        Tile::Wall
                    } else {
                        Tile::Floor
                    }),
            decreases MAP - i,
        {
            let ghost m0 = map;
            map[0][i] = Tile::Wall;
            let ghost m1 = map;
            proof { lemma_cell_write(m0, m1, (i, 0usize), Tile::Wall); }
            map[MAP - 1][i] = Tile::Wall;
            let ghost m2 = map;
            proof { lemma_cell_write(m1, m2, (i, (MAP - 1) as usize), Tile::Wall); }
            map[i][0] = Tile::Wall;
            let ghost m3 = map;
            proof { lemma_cell_write(m2, m3, (0usize, i), Tile::Wall); }
            map[i][MAP - 1] = Tile::Wall;
            proof {
                lemma_cell_write(m3, map, ((MAP - 1) as usize, i), Tile::Wall);
                assert forall|x: int, y: int| 0 <= x < MAP && 0 <= y < MAP implies #[trigger] map@[y]@[x] == (if (y == 0 && x < i + 1) || (
                    y == MAP - 1 && x < i + 1) || (x == 0 && y < i + 1) || (x == MAP - 1 && y < i + 1) {
                        Tile::Wall
                    } else {
                        Tile::Floor
                    }) by {
                    let p: Pos = (x as usize, y as usize);
                    assert(m1@[p.1 as int]@[p.0 as int] == m1@[y]@[x]);
                    assert(m2@[p.1 as int]@[p.0 as int] == m2@[y]@[x]);
                    assert(m3@[p.1 as int]@[p.0 as int] == m3@[y]@[x]);
                    assert(map@[p.1 as int]@[p.0 as int] == map@[y]@[x]);
                    assert(m0@[p.1 as int]@[p.0 as int] == m0@[y]@[x]);
                }
            }
            i = i + 1;
        }
        let ghost m4 = map;
        map[5][5] = Tile::Wall;
        let ghost m5 = map;
        map[5][6] = Tile::Wall;
        let ghost m6 = map;
        map[10][12] = Tile::Wall;
        proof {
            lemma_cell_write(m4, m5, (5usize, 5usize), Tile::Wall);
            lemma_cell_write(m5, m6, (6usize, 5usize), Tile::Wall);
            lemma_cell_write(m6, map, (12usize, 10usize), Tile::Wall);
            assert forall|x: int, y: int| 0 <= x < MAP && 0 <= y < MAP implies #[trigger] map@[y]@[x] == (if start_wall(x, y) {
                Tile::Wall
            } else {
                Tile::Floor
            }) by {
                let p: Pos = (x as usize, y as usize);
                assert(m4@[p.1 as int]@[p.0 as int] == m4@[y]@[x]);
                assert(m5@[p.1 as int]@[p.0 as int] == m5@[y]@[x]);
                assert(m6@[p.1 as int]@[p.0 as int] == m6@[y]@[x]);
                assert(map@[p.1 as int]@[p.0 as int] == map@[y]@[x]);
            }
        }
        let g = Game {
            map,
            px: 2,
            py: 2,
            path: Vec::new(),
            monsters: vec![
                Monster { x: 8, y: 8, hp: 30 },
                Monster { x: 12, y: 4, hp: 30 },
                Monster { x: 15, y: 12, hp: 30 },
            ],
            hp: 100,
            gold: vec![(3, 3), (10, 2), (16, 5), (6, 14), (17, 17)],
            score: 0,
        };
        proof {
            assert(g@.monsters =~= seq![
                Monster { x: 8, y: 8, hp: 30 },
                Monster { x: 12, y: 4, hp: 30 },
                Monster { x: 15, y: 12, hp: 30 },
            ]);
            assert(g@.gold =~= seq![(3usize, 3usize), (10usize, 2usize), (16usize, 5usize), (6usize, 14usize), (17usize, 17usize)]);
            assert(g@.path =~= Seq::<Pos>::empty());
            assert(tile_at(map, (2usize, 2usize)) == map@[2int]@[2int]);
            assert(map@[2int]@[2int] == Tile::Floor);
            assert(map@[8int]@[8int] == Tile::Floor);
            assert(map@[4int]@[12int] == Tile::Floor);
            assert(map@[12int]@[15int] == Tile::Floor);
            assert(is_walk(map, (2usize, 2usize), g@.path));
        }
        g
    }

    /// The knight won: the game is over and it still has hit points.
    pub fn won(&self) -> (r: bool)
        ensures
            r == (self@.hp > 0),
    {
        self.hp > 0
    }

    /// One step of the knight along its path (the screen calls this when the
    /// knight's move timer runs out).
    pub fn player_step(&mut self) -> (out: StepOutcome)
        requires
            wf(old(self)@),
        ensures
            final(self)@ == after_step(old(self)@),
            wf(final(self)@),
            out == step_result(old(self)@),
    {
        let ghost v = self@;
        if self.path.len() == 0 {
            return StepOutcome::Idle;
        }
        let (nx, ny) = self.path[0];
        proof {
            lemma_first_index_some(positions(v.monsters), (nx, ny));
            lemma_first_index_some(v.gold, (nx, ny));
        }
        match find_monster(&self.monsters, (nx, ny)) {
            Some(i) => {
                let killed = self.monsters[i].hp - 10 <= 0;
                self.damage_monster(i, 10);
                self.path.clear();
                proof {
                    assert(self@ =~= after_step(v));
                    law_step_keeps_wf(v);
                }
                StepOutcome::Hit { index: i, x: nx, y: ny, amount: 10, killed }
            },
            None => {
                proof {
                    assert(!positions(v.monsters).contains((nx, ny)));
                }
                self.path.remove(0);
                self.px = nx;
                self.py = ny;
                let gold = match find_pos(&self.gold, (self.px, self.py)) {
                    Some(j) => {
                        self.gold.remove(j);
                        self.score = self.score + 100;
                        true
                    },
                    None => false,
                };
                proof {
                    assert(self@ =~= after_step(v));
                    law_step_keeps_wf(v);
                }
                StepOutcome::Moved { gold }
            },
        }
    }

    /// The goblins whose move timer ran out (`ready[i]` for goblin `i`) act,
    /// in order: each one next to the knight hits it for 5, the others take a
    /// step towards it onto a tile no goblin and not the knight stands on.
    /// Returns how many hit.
    pub fn monsters_act(&mut self, ready: &Vec<bool>) -> (n_hits: usize)
        requires
            wf(old(self)@),
            ready@.len() == old(self)@.monsters.len(),
            old(self)@.hp - 5 * hits(old(self)@, ready@, old(self)@.monsters.len() as int) >= i32::MIN,
        ensures
            final(self)@ == after_monsters(old(self)@, ready@),
            n_hits == hits(old(self)@, ready@, old(self)@.monsters.len() as int),
            wf(final(self)@),
            apart(old(self)@.player, old(self)@.monsters) ==> apart(final(self)@.player, final(self)@.monsters),
    {
        let ghost v = self@;
        let n = self.monsters.len();
        let mut taken: Vec<Pos> = Vec::new();
        let mut j: usize = 0;
        while j < n
            invariant
                j <= n,
                n == self.monsters@.len(),
                self@ == v,
                taken@ == positions(v.monsters).take(j as int),
            decreases n - j,
        {
            taken.push((self.monsters[j].x, self.monsters[j].y));
            proof {
                assert(taken@ =~= positions(v.monsters).take(j + 1));
            }
            j = j + 1;
        }
        taken.push((self.px, self.py));
        proof {
            assert(taken@ =~= taken_upto(v, ready@, 0));
        }
        let mut count: usize = 0;
        let mut i: usize = 0;
        while i < n
            invariant
                i <= n,
                n == v.monsters.len(),
                ready@.len() == n,
                wf(v),
                v.hp - 5 * hits(v, ready@, n as int) >= i32::MIN,
                self@.map == v.map,
                self@.player == v.player,
                self@.path == v.path,
                self@.gold == v.gold,
                self@.score == v.score,
                self@.monsters == monsters_upto(v, ready@, i as int),
                taken@ == taken_upto(v, ready@, i as int),
                count == hits(v, ready@, i as int),
                self@.hp == v.hp - 5 * hits(v, ready@, i as int),
            decreases n - i,
        {
            proof {
                lemma_upto_frame(v, ready@, i as int);
                lemma_upto_ok(v, ready@, i as int);
                lemma_hits_bound(v, ready@, i as int);
                lemma_hits_mono(v, ready@, i + 1, n as int);
            }
            let ghost ms = self@.monsters;
            let ghost tk = taken@;
            let ghost c = chase(v.map, v.player, tk, ms[i as int]);
            if ready[i] {
                let mx = self.monsters[i].x;
                let my = self.monsters[i].y;
                let d = dist((mx, my), (self.px, self.py));
                if d == 1 {
                    self.hp = self.hp - 5;
                    count = count + 1;
                } else {
                    let path = bfs(&self.map, (mx, my), (self.px, self.py));
                    if path.len() > 1 {
                        let nxt = path[0];
                        if find_pos(&taken, nxt).is_none() {
                            proof {
                                assert(tk.contains(pos_of(ms[i as int])));
                                assert(c != ms[i as int]);
                            }
                            self.monsters[i].x = nxt.0;
                            self.monsters[i].y = nxt.1;
                            taken.push(nxt);
                        }
                    }
                }
            }
            proof {
                assert(self@.monsters =~= monsters_upto(v, ready@, i + 1));
                assert(taken@ =~= taken_upto(v, ready@, i + 1));
            }
            i = i + 1;
        }
        proof {
            assert(self@ =~= after_monsters(v, ready@));
            law_monsters_keep_wf(v, ready@);
            law_goblins_never_stack(v, ready@);
        }
        count
    }

    /// One frame of play. `click` is the tile clicked this frame,
    /// `player_ready` whether the knight's move timer runs out if it runs,
    /// `ready[i]` whether goblin `i`'s timer runs out. Returns nothing when
    /// the game is over; otherwise applies the click, then the knight's step
    /// if it has a path and is ready, then the goblins' turn.
    pub fn frame(&mut self, click: Option<Pos>, player_ready: bool, ready: &Vec<bool>) -> (out: Option<FrameOutcome>)
        requires
            wf(old(self)@),
            ready@.len() == old(self)@.monsters.len(),
            over(old(self)@) || before_monsters(old(self)@, click, player_ready).hp - 5 * hits(
                before_monsters(old(self)@, click, player_ready),
                flags_after(old(self)@, click, player_ready, ready@),
                before_monsters(old(self)@, click, player_ready).monsters.len() as int,
            ) >= i32::MIN,
        ensures
            final(self)@ == after_frame(old(self)@, click, player_ready, ready@),
            out == frame_result(old(self)@, click, player_ready, ready@),
            wf(final(self)@),
    {
        let ghost v = self@;
        if self.is_over() {
            return None;
        }
        match click {
            Some(t) => self.click(t.0, t.1),
            None => {},
        }
        let ghost w = self@;
        let ticked = self.path.len() > 0;
        let mut flags: Vec<bool> = Vec::new();
        let mut k: usize = 0;
        while k < ready.len()
            invariant
                k <= ready@.len(),
                flags@ == ready@.take(k as int),
            decreases ready@.len() - k,
        {
            flags.push(ready[k]);
            proof {
                assert(flags@ =~= ready@.take(k + 1));
            }
            k = k + 1;
        }
        proof {
            assert(flags@ =~= ready@);
        }
        let mut step = StepOutcome::Idle;
        if ticked && player_ready {
            proof {
                lemma_first_index_some(positions(w.monsters), w.path[0]);
            }
            step = self.player_step();
            match step {
                StepOutcome::Hit { index, killed, .. } => {
                    if killed {
                        flags.remove(index);
                    }
                },
                _ => {},
            }
        }
        proof {
            assert(self@ == before_monsters(v, click, player_ready));
            assert(flags@ == flags_after(v, click, player_ready, ready@));
        }
        let hits = self.monsters_act(&flags);
        Some(FrameOutcome { step, ticked, hits })
    }

    /// Whether the game has ended.
    pub fn is_over(&self) -> (r: bool)
        ensures
            r == over(self@),
            r == (self.hp <= 0 || self.monsters@.len() == 0),
    {
        self.hp <= 0 || self.monsters.len() == 0
    }

    /// Sets the path to the tile `(tx, ty)` that was clicked.
    pub fn click(&mut self, tx: usize, ty: usize)
        requires
            wf(old(self)@),
        ensures
            final(self)@ == after_click(old(self)@, (tx, ty)),
            wf(final(self)@),
            tx < MAP && ty < MAP && old(self).map@[ty as int]@[tx as int] == Tile::Floor ==> final(self).path@
                == route(old(self).map, (old(self).px, old(self).py), (tx, ty)),
            !(tx < MAP && ty < MAP && old(self).map@[ty as int]@[tx as int] == Tile::Floor) ==> final(self).path@
                == old(self).path@,
    {
        if tx < MAP && ty < MAP && self.map[ty][tx] == Tile::Floor {
            self.path = bfs(&self.map, (self.px, self.py), (tx, ty));
            proof {
                if walk_to(self.map, (self.px, self.py), self.path@, (tx, ty)) {
                }
            }
        }
        assert(self@ =~= after_click(old(self)@, (tx, ty)));
    }

    /// Goblin `idx` takes `amount` damage and is removed when it has no hit points left.
    pub fn damage_monster(&mut self, idx: usize, amount: i32)
        requires
            idx < old(self).monsters@.len(),
            old(self).monsters@[idx as int].hp - amount >= i32::MIN,
            old(self).monsters@[idx as int].hp - amount <= i32::MAX,
            old(self).monsters@[idx as int].hp - amount <= 0 ==> old(self).score + 50 <= i32::MAX,
        ensures
            final(self)@ == after_damage(old(self)@, idx as int, amount as int),
    {
        self.monsters[idx].hp = self.monsters[idx].hp - amount;
        if self.monsters[idx].hp <= 0 {
            self.monsters.remove(idx);
            self.score = self.score + 50;
        }
        assert(self@ =~= after_damage(old(self)@, idx as int, amount as int));
    }
}


/// The screens of the program.
#[derive(Clone, Copy, PartialEq, Eq, Structural, Debug)]
pub enum AppState {
    Menu,
    Playing,
    GameOver,
}

impl AppState {
    /// The screen for the next frame: a click or Enter (`pressed`) starts a
    /// game from the menu and goes back to the menu from the end screen; a
    /// game that is over moves on to the end screen.
    pub fn next(self, pressed: bool, over: bool) -> (s: AppState)
        ensures
            self == AppState::Menu ==> s == (if pressed {
                AppState::Playing
            } else {
                AppState::Menu
            }),
            self == AppState::Playing ==> s == (if over {
                AppState::GameOver
            } else {
                AppState::Playing
            }),
            self == AppState::GameOver ==> s == (if pressed {
                AppState::Menu
            } else {
                AppState::GameOver
            }),
    {
        match self {
            AppState::Menu => if pressed {
                AppState::Playing
            } else {
                AppState::Menu
            },
            AppState::Playing => if over {
                AppState::GameOver
            } else {
                AppState::Playing
            },
            AppState::GameOver => if pressed {
                AppState::Menu
            } else {
                AppState::GameOver
            },
        }
    }
}

} // verus!
