use hexes::consts::MAX_FLOOR_HEIGHT;
use hexes::grid::HexGrid;
use hexes::hex::{Axial, HexPathNode};
use hexes::map::{HexMap, HexTileData};

fn empty_map() -> HexMap {
    HexMap { terrain: HexGrid::new(), dijkstra: HexGrid::new() }
}

fn open_map(width: i32, height: i32) -> HexMap {
    let mut m = empty_map();
    for q in 0..width {
        for r in 0..height {
            m.terrain.set(Axial::new(q, r), HexTileData::new(0));
        }
    }
    m
}

#[test]
fn tile_constructors() {
    let floor = HexTileData::new(2);
    assert_eq!(floor.ground_height, 2);
    assert_eq!(floor.wall_height, 2);
    assert_eq!(floor.get_height(), 2);
    let wall = HexTileData::new_wall(3);
    assert_eq!(wall.ground_height, 0);
    assert_eq!(wall.wall_height, 3);
    assert_eq!(wall.get_height(), 3);
}

#[test]
fn direction_roundtrip() {
    let center = Axial::new(4, -2);
    let deltas = [(0, -1), (1, -1), (1, 0), (0, 1), (-1, 1), (-1, 0)];
    for &(dq, dr) in deltas.iter() {
        let neighbor = Axial::new(center.q + dq, center.r + dr);
        let node = HexPathNode::from_hex(center, neighbor);
        assert_ne!(node, HexPathNode::Goal);
        let d = node.to_hex();
        // stepping from the neighbor by the stored delta returns to center
        assert_eq!(Axial::new(neighbor.q + d.q, neighbor.r + d.r), center);
    }
    assert_eq!(HexPathNode::from_hex(center, center), HexPathNode::Goal);
    assert_eq!(HexPathNode::Goal.to_hex(), Axial::new(0, 0));
}

#[test]
fn flatten_lower_then_raise() {
    let mut m = empty_map();
    let a = Axial::new(0, 0);
    m.terrain.set(a, HexTileData::new(2));
    m.flatten_tile(a, 1);
    let t = *m.terrain.get(a).unwrap();
    assert_eq!((t.ground_height, t.wall_height), (1, 1));
    m.flatten_tile(a, 5);
    let t = *m.terrain.get(a).unwrap();
    assert_eq!((t.ground_height, t.wall_height), (1, 5));
}

#[test]
fn flatten_missing_tile_inserts_wall_profile() {
    let mut m = empty_map();
    let a = Axial::new(7, -3);
    m.flatten_tile(a, 4);
    let t = *m.terrain.get(a).unwrap();
    assert_eq!((t.ground_height, t.wall_height), (0, 4));
}

#[test]
fn flatten_noop_when_height_matches() {
    let mut m = empty_map();
    let a = Axial::new(1, 1);
    m.terrain.set(a, HexTileData::new(2));
    m.flatten_tile(a, 2);
    let t = *m.terrain.get(a).unwrap();
    assert_eq!((t.ground_height, t.wall_height), (2, 2));
}

#[test]
fn flatten_twice_same_as_once() {
    let mut once = empty_map();
    let mut twice = empty_map();
    let a = Axial::new(2, 2);
    once.terrain.set(a, HexTileData::new(2));
    twice.terrain.set(a, HexTileData::new(2));
    once.flatten_tile(a, 1);
    twice.flatten_tile(a, 1);
    twice.flatten_tile(a, 1);
    assert_eq!(once.terrain.get(a).unwrap(), twice.terrain.get(a).unwrap());
}

#[test]
fn open_terrain_path_to_adjacent_goal() {
    let mut m = open_map(3, 3);
    m.update_dijkstra(vec![Axial::new(0, 0)]);
    let path = m.get_path(Axial::new(1, 0)).unwrap();
    assert_eq!(path, vec![Axial::new(1, 0), Axial::new(0, 0)]);
}

#[test]
fn labels_point_back_toward_goal() {
    let mut m = open_map(2, 2);
    m.update_dijkstra(vec![Axial::new(0, 0)]);
    // the stored label is the delta from the tile back to its parent
    assert_eq!(m.dijkstra.get(Axial::new(0, 0)), Some(&HexPathNode::Goal));
    assert_eq!(m.dijkstra.get(Axial::new(1, 0)), Some(&HexPathNode::Left));
    assert_eq!(m.dijkstra.get(Axial::new(0, 1)), Some(&HexPathNode::TopLeft));
}

#[test]
fn goal_tile_path_is_itself() {
    let mut m = open_map(3, 3);
    m.update_dijkstra(vec![Axial::new(0, 0)]);
    let path = m.get_path(Axial::new(0, 0)).unwrap();
    assert_eq!(path, vec![Axial::new(0, 0)]);
}

#[test]
fn open_terrain_far_corner_shortest_hop_count() {
    let mut m = open_map(3, 3);
    m.update_dijkstra(vec![Axial::new(0, 0)]);
    // hex distance from (2, 2) to (0, 0) is 4, so the path has 5 tiles
    let path = m.get_path(Axial::new(2, 2)).unwrap();
    assert_eq!(path.len(), 5);
    assert_eq!(path[0], Axial::new(2, 2));
    assert_eq!(path[4], Axial::new(0, 0));
}

#[test]
fn height_delta_blocks_step() {
    // ceiling is 4, so a height of 3 is not blocked by the ceiling, but
    // the tile at height 0 only touches the grid through a 0-to-3 step
    let mut m = empty_map();
    m.terrain.set(Axial::new(0, 0), HexTileData::new(0));
    m.terrain.set(Axial::new(1, 0), HexTileData::new(3));
    m.terrain.set(Axial::new(2, 0), HexTileData::new(3));
    m.update_dijkstra(vec![Axial::new(2, 0)]);
    assert_eq!(m.get_path(Axial::new(0, 0)), None);
    let path = m.get_path(Axial::new(1, 0)).unwrap();
    assert_eq!(path, vec![Axial::new(1, 0), Axial::new(2, 0)]);
}

#[test]
fn ceiling_blocks_step_even_when_flat() {
    // both tiles at the ceiling height: the delta is 0 but neither may be
    // stepped into
    let mut m = empty_map();
    m.terrain.set(Axial::new(0, 0), HexTileData::new_wall(4));
    m.terrain.set(Axial::new(1, 0), HexTileData::new_wall(4));
    m.update_dijkstra(vec![Axial::new(1, 0)]);
    assert_eq!(m.get_path(Axial::new(0, 0)), None);
}

#[test]
fn rebuild_is_idempotent() {
    let mut m = open_map(4, 4);
    let goals = vec![Axial::new(3, 3), Axial::new(0, 1)];
    m.update_dijkstra(goals.clone());
    let mut labels_first = Vec::new();
    for q in 0..4 {
        for r in 0..4 {
            labels_first.push(m.dijkstra.get(Axial::new(q, r)).copied());
        }
    }
    m.update_dijkstra(goals);
    let mut labels_second = Vec::new();
    for q in 0..4 {
        for r in 0..4 {
            labels_second.push(m.dijkstra.get(Axial::new(q, r)).copied());
        }
    }
    assert_eq!(labels_first, labels_second);
}

#[test]
fn empty_goal_list_leaves_everything_unreachable() {
    let mut m = open_map(2, 2);
    m.update_dijkstra(vec![]);
    assert_eq!(m.get_path(Axial::new(0, 0)), None);
    assert_eq!(m.get_path(Axial::new(1, 1)), None);
}

#[test]
fn duplicate_goals_are_tolerated() {
    let mut m = open_map(2, 2);
    let g = Axial::new(0, 0);
    m.update_dijkstra(vec![g, g, g]);
    assert_eq!(m.dijkstra.get(g), Some(&HexPathNode::Goal));
    let path = m.get_path(Axial::new(1, 0)).unwrap();
    assert_eq!(path, vec![Axial::new(1, 0), g]);
}

#[test]
fn path_query_outside_terrain_is_none() {
    let mut m = open_map(2, 2);
    m.update_dijkstra(vec![Axial::new(0, 0)]);
    assert_eq!(m.get_path(Axial::new(10, 10)), None);
}

#[test]
fn seeded_map_heights_bounded_and_reproducible() {
    let goals = vec![Axial::new(1, 1)];
    let m1 = HexMap::new(42, 5, 5, goals.clone());
    let m2 = HexMap::new(42, 5, 5, goals);
    for q in 0..5 {
        for r in 0..5 {
            let a = Axial::new(q, r);
            let t1 = *m1.terrain.get(a).unwrap();
            let t2 = *m2.terrain.get(a).unwrap();
            assert!(t1.wall_height <= MAX_FLOOR_HEIGHT);
            assert_eq!(t1.ground_height, t1.wall_height);
            assert_eq!((t1.ground_height, t1.wall_height), (t2.ground_height, t2.wall_height));
        }
    }
    assert!(m1.terrain.get(Axial::new(5, 0)).is_none());
    assert!(m1.terrain.get(Axial::new(-1, 0)).is_none());
    let path = m1.get_path(Axial::new(1, 1)).unwrap();
    assert_eq!(path[0], Axial::new(1, 1));
}

#[test]
fn different_seeds_can_differ() {
    // not a certainty in principle, but these two seeds give different
    // layouts; the test pins the wrapper to the generator, not to chance
    let mut any_diff = false;
    let m1 = HexMap::new(1, 6, 6, vec![]);
    let m2 = HexMap::new(2, 6, 6, vec![]);
    for q in 0..6 {
        for r in 0..6 {
            let a = Axial::new(q, r);
            if m1.terrain.get(a).unwrap().wall_height != m2.terrain.get(a).unwrap().wall_height {
                any_diff = true;
            }
        }
    }
    assert!(any_diff);
}
