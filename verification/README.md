# crablo

The rules of Crablo, a small isometric dungeon crawler, as a verified Verus
library, with the window around them.

- `src/grid.rs`: the 20×20 tile map, neighbours and the Manhattan distance.
- `src/pathfind.rs`: breadth-first path finding. `bfs` returns the shortest
  route to the goal, and among shortest routes the one whose moves come first
  in the order up, down, left, right; the proof covers the whole search.
- `src/game.rs`: the game state, its view for specifications, and the moves:
  a click sets the path, the knight steps (attacking a goblin in the way or
  picking up gold), the goblins chase and hit; `Game::frame` runs one frame
  of play in that order.
- `src/laws.rs`: what every move keeps: the knight and goblins stay on floor,
  no two goblins share a tile,
  no goblin stands on the knight, the score plus the points left is constant,
  a walked path stays the path finder's route, a route has the same length
  both ways.
- `app/main.rs`: macroquad drawing, input, the frame timers and the floating
  damage numbers; it calls the library for every rule.
