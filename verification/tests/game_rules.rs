use crablo::game::{find_monster, find_pos, AppState, FrameOutcome, Game, Monster, StepOutcome};
use crablo::grid::{Tile, MAP};
use crablo::pathfind::bfs;

fn score_total(g: &Game) -> i32 {
    g.score + 100 * g.gold.len() as i32 + 50 * g.monsters.len() as i32
}

#[test]
fn new_game_layout() {
    let g = Game::new();
    for y in 0..MAP {
        for x in 0..MAP {
            let wall = x == 0
                || y == 0
                || x == MAP - 1
                || y == MAP - 1
                || (x, y) == (5, 5)
                || (x, y) == (6, 5)
                || (x, y) == (12, 10);
            let expected = if wall { Tile::Wall } else { Tile::Floor };
            assert_eq!(g.map[y][x], expected, "tile ({}, {})", x, y);
        }
    }
    assert_eq!((g.px, g.py), (2, 2));
    assert!(g.path.is_empty());
    assert_eq!(
        g.monsters,
        vec![
            Monster { x: 8, y: 8, hp: 30 },
            Monster { x: 12, y: 4, hp: 30 },
            Monster { x: 15, y: 12, hp: 30 },
        ]
    );
    assert_eq!(g.hp, 100);
    assert_eq!(g.gold, vec![(3, 3), (10, 2), (16, 5), (6, 14), (17, 17)]);
    assert_eq!(g.score, 0);
    assert!(!g.is_over());
    assert_eq!(score_total(&g), 650);
}

#[test]
fn click_on_floor_sets_path() {
    let mut g = Game::new();
    g.click(4, 2);
    assert_eq!(g.path, vec![(3, 2), (4, 2)]);
}

#[test]
fn click_on_wall_or_off_map_keeps_path() {
    let mut g = Game::new();
    g.click(4, 2);
    g.click(5, 5);
    assert_eq!(g.path, vec![(3, 2), (4, 2)]);
    g.click(0, 7);
    assert_eq!(g.path, vec![(3, 2), (4, 2)]);
    g.click(25, 3);
    assert_eq!(g.path, vec![(3, 2), (4, 2)]);
    g.click(3, 40);
    assert_eq!(g.path, vec![(3, 2), (4, 2)]);
}

#[test]
fn click_on_own_tile_clears_path() {
    let mut g = Game::new();
    g.click(4, 2);
    g.click(2, 2);
    assert!(g.path.is_empty());
}

#[test]
fn step_without_path_is_idle() {
    let mut g = Game::new();
    assert_eq!(g.player_step(), StepOutcome::Idle);
    assert_eq!((g.px, g.py), (2, 2));
}

#[test]
fn walking_onto_gold_scores_100() {
    let mut g = Game::new();
    g.click(3, 3);
    assert_eq!(g.path, vec![(2, 3), (3, 3)]);
    assert_eq!(g.player_step(), StepOutcome::Moved { gold: false });
    assert_eq!((g.px, g.py), (2, 3));
    assert_eq!(g.score, 0);
    assert_eq!(g.player_step(), StepOutcome::Moved { gold: true });
    assert_eq!((g.px, g.py), (3, 3));
    assert_eq!(g.score, 100);
    assert_eq!(g.gold, vec![(10, 2), (16, 5), (6, 14), (17, 17)]);
    assert!(g.path.is_empty());
    assert_eq!(score_total(&g), 650);
}

#[test]
fn walking_keeps_to_the_route() {
    let mut g = Game::new();
    g.click(10, 9);
    while !g.path.is_empty() {
        let expected = bfs(&g.map, (g.px, g.py), (10, 9));
        assert_eq!(g.path, expected);
        g.player_step();
    }
    assert_eq!((g.px, g.py), (10, 9));
}

fn duel() -> Game {
    let mut g = Game::new();
    g.monsters = vec![Monster { x: 3, y: 2, hp: 30 }, Monster { x: 15, y: 12, hp: 30 }];
    g
}

#[test]
fn attacking_a_goblin_hits_for_10_and_stops() {
    let mut g = duel();
    g.click(4, 2);
    assert_eq!(g.path, vec![(3, 2), (4, 2)]);
    let out = g.player_step();
    assert_eq!(out, StepOutcome::Hit { index: 0, x: 3, y: 2, amount: 10, killed: false });
    assert_eq!(g.monsters[0].hp, 20);
    assert!(g.path.is_empty());
    assert_eq!((g.px, g.py), (2, 2));
}

#[test]
fn three_hits_kill_a_goblin() {
    let mut g = duel();
    for round in 0..3 {
        g.click(3, 2);
        let out = g.player_step();
        let killed = round == 2;
        assert_eq!(out, StepOutcome::Hit { index: 0, x: 3, y: 2, amount: 10, killed });
    }
    assert_eq!(g.monsters, vec![Monster { x: 15, y: 12, hp: 30 }]);
    assert_eq!(g.score, 50);
    assert_eq!(score_total(&g), 50 + 500 + 50);
}

#[test]
fn damage_monster_exact() {
    let mut g = Game::new();
    g.damage_monster(1, 25);
    assert_eq!(g.monsters[1], Monster { x: 12, y: 4, hp: 5 });
    assert_eq!(g.score, 0);
    g.damage_monster(1, 5);
    assert_eq!(g.monsters.len(), 2);
    assert_eq!(g.monsters[1], Monster { x: 15, y: 12, hp: 30 });
    assert_eq!(g.score, 50);
}

#[test]
fn adjacent_goblin_hits_for_5() {
    let mut g = Game::new();
    g.monsters = vec![Monster { x: 2, y: 3, hp: 30 }];
    let hits = g.monsters_act(&vec![true]);
    assert_eq!(hits, 1);
    assert_eq!(g.hp, 95);
    assert_eq!(g.monsters, vec![Monster { x: 2, y: 3, hp: 30 }]);
}

#[test]
fn goblin_not_ready_stays() {
    let mut g = Game::new();
    let before = g.monsters.clone();
    let hits = g.monsters_act(&vec![false, false, false]);
    assert_eq!(hits, 0);
    assert_eq!(g.monsters, before);
    assert_eq!(g.hp, 100);
}

#[test]
fn goblins_chase_along_their_route() {
    let mut g = Game::new();
    let before: Vec<usize> = g
        .monsters
        .iter()
        .map(|m| bfs(&g.map, (m.x, m.y), (g.px, g.py)).len())
        .collect();
    let firsts: Vec<(usize, usize)> = g
        .monsters
        .iter()
        .map(|m| bfs(&g.map, (m.x, m.y), (g.px, g.py))[0])
        .collect();
    let hits = g.monsters_act(&vec![true, true, true]);
    assert_eq!(hits, 0);
    for (i, m) in g.monsters.iter().enumerate() {
        assert_eq!((m.x, m.y), firsts[i]);
        let after = bfs(&g.map, (m.x, m.y), (g.px, g.py)).len();
        assert_eq!(after, before[i] - 1);
    }
    // (8, 8) -> up first: (8, 7)
    assert_eq!(g.monsters[0], Monster { x: 8, y: 7, hp: 30 });
}

#[test]
fn goblin_does_not_step_on_taken_tile() {
    let mut g = Game::new();
    // the second goblin's first step would be onto the first goblin
    g.monsters = vec![Monster { x: 2, y: 4, hp: 30 }, Monster { x: 2, y: 5, hp: 30 }];
    let hits = g.monsters_act(&vec![false, true]);
    assert_eq!(hits, 0);
    assert_eq!(g.monsters[1], Monster { x: 2, y: 5, hp: 30 });
}

#[test]
fn goblin_waits_for_a_tile_taken_earlier_in_the_turn() {
    let mut g = Game::new();
    g.monsters = vec![Monster { x: 4, y: 1, hp: 30 }, Monster { x: 4, y: 3, hp: 30 }];
    g.monsters_act(&vec![true, true]);
    // the first goblin steps down to (4, 2); the second one's first step is
    // that tile, so it stays
    assert_eq!(g.monsters[0], Monster { x: 4, y: 2, hp: 30 });
    assert_eq!(g.monsters[1], Monster { x: 4, y: 3, hp: 30 });
}

#[test]
fn goblin_may_not_enter_tile_left_this_turn() {
    let mut g = Game::new();
    g.px = 10;
    g.py = 3;
    g.monsters = vec![Monster { x: 8, y: 3, hp: 30 }, Monster { x: 7, y: 3, hp: 30 }];
    g.monsters_act(&vec![true, true]);
    // the first goblin steps to (9, 3); (8, 3) was taken when the turn began
    assert_eq!(g.monsters[0], Monster { x: 9, y: 3, hp: 30 });
    assert_eq!(g.monsters[1], Monster { x: 7, y: 3, hp: 30 });
}

#[test]
fn frame_when_over_does_nothing() {
    let mut g = Game::new();
    g.hp = 0;
    assert_eq!(g.frame(Some((4, 2)), true, &vec![true, true, true]), None);
    assert!(g.path.is_empty());
    assert_eq!(g.monsters[0], Monster { x: 8, y: 8, hp: 30 });
}

#[test]
fn frame_clicks_steps_then_goblins_act() {
    let mut g = Game::new();
    let out = g.frame(Some((4, 2)), true, &vec![true, false, false]);
    assert_eq!(
        out,
        Some(FrameOutcome { step: StepOutcome::Moved { gold: false }, ticked: true, hits: 0 })
    );
    assert_eq!((g.px, g.py), (3, 2));
    assert_eq!(g.path, vec![(4, 2)]);
    // (8, 8) chases (3, 2): up first
    assert_eq!(g.monsters[0], Monster { x: 8, y: 7, hp: 30 });
    assert_eq!(g.monsters[1], Monster { x: 12, y: 4, hp: 30 });
}

#[test]
fn frame_without_path_does_not_tick() {
    let mut g = Game::new();
    let out = g.frame(None, true, &vec![false, false, false]);
    assert_eq!(out, Some(FrameOutcome { step: StepOutcome::Idle, ticked: false, hits: 0 }));
    let out = g.frame(Some((4, 2)), false, &vec![false, false, false]);
    assert_eq!(out, Some(FrameOutcome { step: StepOutcome::Idle, ticked: true, hits: 0 }));
    assert_eq!((g.px, g.py), (2, 2));
}

#[test]
fn frame_drops_the_mark_of_a_killed_goblin() {
    let mut g = Game::new();
    g.monsters = vec![Monster { x: 3, y: 2, hp: 10 }, Monster { x: 2, y: 3, hp: 30 }];
    let out = g.frame(Some((3, 2)), true, &vec![false, true]);
    assert_eq!(
        out,
        Some(FrameOutcome {
            step: StepOutcome::Hit { index: 0, x: 3, y: 2, amount: 10, killed: true },
            ticked: true,
            hits: 1,
        })
    );
    assert_eq!(g.monsters, vec![Monster { x: 2, y: 3, hp: 30 }]);
    assert_eq!(g.score, 50);
    assert_eq!(g.hp, 95);
}

#[test]
fn goblins_never_stack() {
    let mut g = Game::new();
    g.monsters = vec![Monster { x: 4, y: 2, hp: 30 }, Monster { x: 4, y: 4, hp: 30 }];
    g.px = 7;
    g.py = 3;
    let hits = g.monsters_act(&vec![true, true]);
    assert_eq!(hits, 0);
    assert_eq!(g.hp, 100);
    assert_eq!(g.monsters[0], Monster { x: 4, y: 3, hp: 30 });
    assert_eq!(g.monsters[1], Monster { x: 4, y: 4, hp: 30 });
}

#[test]
fn goblin_without_route_stays() {
    let mut g = Game::new();
    g.map[3][14] = Tile::Wall;
    g.map[5][14] = Tile::Wall;
    g.map[4][13] = Tile::Wall;
    g.map[4][15] = Tile::Wall;
    g.monsters = vec![Monster { x: 14, y: 4, hp: 30 }];
    g.monsters_act(&vec![true]);
    assert_eq!(g.monsters, vec![Monster { x: 14, y: 4, hp: 30 }]);
}

#[test]
fn game_over_and_victory() {
    let mut g = Game::new();
    g.hp = 0;
    assert!(g.is_over());
    assert!(!g.won());
    let mut g = Game::new();
    g.monsters.clear();
    assert!(g.is_over());
    assert!(g.won());
}

#[test]
fn find_returns_first_match() {
    let v = vec![(1, 1), (2, 2), (1, 1)];
    assert_eq!(find_pos(&v, (1, 1)), Some(0));
    assert_eq!(find_pos(&v, (2, 2)), Some(1));
    assert_eq!(find_pos(&v, (3, 3)), None);
    let ms = vec![Monster { x: 4, y: 4, hp: 1 }, Monster { x: 4, y: 4, hp: 2 }];
    assert_eq!(find_monster(&ms, (4, 4)), Some(0));
    assert_eq!(find_monster(&ms, (4, 5)), None);
}

#[test]
fn screens_follow_clicks_and_game_over() {
    assert_eq!(AppState::Menu.next(false, false), AppState::Menu);
    assert_eq!(AppState::Menu.next(true, false), AppState::Playing);
    assert_eq!(AppState::Playing.next(true, false), AppState::Playing);
    assert_eq!(AppState::Playing.next(false, true), AppState::GameOver);
    assert_eq!(AppState::GameOver.next(false, true), AppState::GameOver);
    assert_eq!(AppState::GameOver.next(true, true), AppState::Menu);
}

#[test]
fn score_total_is_conserved_over_a_game() {
    let mut g = Game::new();
    let targets = [(3, 3), (10, 2), (8, 7), (16, 5), (2, 2)];
    for &(tx, ty) in targets.iter() {
        g.click(tx, ty);
        for _ in 0..40 {
            if g.is_over() {
                break;
            }
            let before = (g.px, g.py);
            let hp_before = g.hp;
            g.player_step();
            if (g.px, g.py) != before {
                let dx = (g.px as i64 - before.0 as i64).abs();
                let dy = (g.py as i64 - before.1 as i64).abs();
                assert_eq!(dx + dy, 1);
            }
            assert_eq!(g.hp, hp_before);
            let ready = vec![true; g.monsters.len()];
            let hits = g.monsters_act(&ready);
            assert_eq!(g.hp, hp_before - 5 * hits as i32);
            assert_eq!(score_total(&g), 650);
            for (i, m) in g.monsters.iter().enumerate() {
                assert_ne!((m.x, m.y), (g.px, g.py));
                for o in &g.monsters[i + 1..] {
                    assert_ne!((m.x, m.y), (o.x, o.y));
                }
                assert_eq!(g.map[m.y][m.x], Tile::Floor);
            }
            assert_eq!(g.map[g.py][g.px], Tile::Floor);
        }
    }
}
