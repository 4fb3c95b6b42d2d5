use crablo::grid::{direction, dist, Grid, Tile, MAP};
use crablo::pathfind::bfs;

fn open_map() -> Grid {
    [[Tile::Floor; MAP]; MAP]
}

fn walled_map() -> Grid {
    let mut map = open_map();
    for i in 0..MAP {
        map[0][i] = Tile::Wall;
        map[MAP - 1][i] = Tile::Wall;
        map[i][0] = Tile::Wall;
        map[i][MAP - 1] = Tile::Wall;
    }
    map[5][5] = Tile::Wall;
    map[5][6] = Tile::Wall;
    map[10][12] = Tile::Wall;
    map
}

fn is_walk(map: &Grid, start: (usize, usize), path: &[(usize, usize)]) -> bool {
    let mut prev = start;
    for &p in path {
        if p.0 >= MAP || p.1 >= MAP || map[p.1][p.0] != Tile::Floor {
            return false;
        }
        if dist(prev, p) != 1 {
            return false;
        }
        prev = p;
    }
    true
}

#[test]
fn dist_is_manhattan() {
    assert_eq!(dist((0, 0), (3, 4)), 7);
    assert_eq!(dist((5, 2), (2, 5)), 6);
    assert_eq!(dist((7, 7), (7, 7)), 0);
    assert_eq!(dist((8, 8), (8, 9)), 1);
}

#[test]
fn dist_converts_coordinates_to_i32() {
    // 3_000_000_000 becomes -1_294_967_296 as an i32
    assert_eq!(dist((3_000_000_000, 0), (0, 0)), 1_294_967_296);
    assert_eq!(dist((0, 0), (2_147_483_647, 0)), 2_147_483_647);
}

#[test]
fn directions_are_up_down_left_right() {
    assert_eq!(direction(0), (0, -1));
    assert_eq!(direction(1), (0, 1));
    assert_eq!(direction(2), (-1, 0));
    assert_eq!(direction(3), (1, 0));
}

#[test]
fn bfs_to_start_is_empty() {
    let map = walled_map();
    assert!(bfs(&map, (2, 2), (2, 2)).is_empty());
}

#[test]
fn bfs_straight_line() {
    let map = walled_map();
    assert_eq!(bfs(&map, (2, 2), (4, 2)), vec![(3, 2), (4, 2)]);
}

#[test]
fn bfs_prefers_down_before_right() {
    let map = walled_map();
    assert_eq!(bfs(&map, (2, 2), (3, 3)), vec![(2, 3), (3, 3)]);
}

#[test]
fn bfs_prefers_up_before_left() {
    let map = walled_map();
    assert_eq!(bfs(&map, (2, 2), (1, 1)), vec![(2, 1), (1, 1)]);
}

#[test]
fn bfs_goes_around_pillars() {
    let map = walled_map();
    let path = bfs(&map, (4, 5), (7, 5));
    assert_eq!(path, vec![(4, 4), (5, 4), (6, 4), (7, 4), (7, 5)]);
    assert!(is_walk(&map, (4, 5), &path));
}

#[test]
fn bfs_to_wall_is_empty() {
    let map = walled_map();
    assert!(bfs(&map, (2, 2), (0, 0)).is_empty());
    assert!(bfs(&map, (2, 2), (5, 5)).is_empty());
}

#[test]
fn bfs_to_enclosed_tile_is_empty() {
    let mut map = open_map();
    map[9][10] = Tile::Wall;
    map[11][10] = Tile::Wall;
    map[10][9] = Tile::Wall;
    map[10][11] = Tile::Wall;
    assert!(bfs(&map, (0, 0), (10, 10)).is_empty());
}

#[test]
fn bfs_off_map_goal_is_empty() {
    let map = open_map();
    assert!(bfs(&map, (0, 0), (25, 3)).is_empty());
}

#[test]
fn bfs_path_is_shortest_across_open_map() {
    let map = open_map();
    let path = bfs(&map, (0, 0), (19, 19));
    assert_eq!(path.len(), 38);
    assert!(is_walk(&map, (0, 0), &path));
    assert_eq!(path[0], (0, 1));
    assert_eq!(*path.last().unwrap(), (19, 19));
    // down first, as long as that stays shortest
    for (i, p) in path.iter().take(19).enumerate() {
        assert_eq!(*p, (0, i + 1));
    }
}

#[test]
fn bfs_from_wall_tile_start() {
    // the start tile itself is not required to be floor
    let map = walled_map();
    assert_eq!(bfs(&map, (0, 1), (1, 1)), vec![(1, 1)]);
}

#[test]
fn bfs_suffix_is_route_from_next_tile() {
    let map = walled_map();
    let path = bfs(&map, (2, 2), (17, 17));
    assert_eq!(path.len(), 30);
    let rest = bfs(&map, path[0], (17, 17));
    assert_eq!(rest, path[1..].to_vec());
}

#[test]
fn route_length_is_symmetric() {
    let map = walled_map();
    let pairs = [((2, 2), (17, 17)), ((4, 5), (7, 5)), ((1, 1), (18, 3)), ((6, 4), (12, 11))];
    for (a, b) in pairs.iter() {
        assert_eq!(bfs(&map, *a, *b).len(), bfs(&map, *b, *a).len());
    }
}
