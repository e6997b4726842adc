use platformer_nav::geometry::Point;
use platformer_nav::graph::PathfindingGraphNode;
use platformer_nav::level::{Level, Polygon};
use platformer_nav::trajectory::{droppability_check, jumpability_check};

fn p(x: i64, y: i64) -> Point {
    Point { x, y }
}

fn node(polygon_index: usize, position: Point) -> PathfindingGraphNode {
    PathfindingGraphNode {
        id: 0,
        position,
        polygon_index,
        line_indicies: vec![0],
        walkable_connections: Vec::new(),
        jumpable_connections: Vec::new(),
        droppable_connections: Vec::new(),
        normal: p(0, 1000),
        is_corner: false,
        is_external_corner: None,
    }
}

fn open_level() -> Level {
    Level { polygons: Vec::new() }
}

#[test]
fn jump_at_the_speed_limit_is_accepted() {
    let level = open_level();
    let a = node(0, p(0, 0));
    assert!(jumpability_check(&a, &node(1, p(128_000, 0)), &level, 8000).is_some());
    assert!(jumpability_check(&a, &node(1, p(127_999, 0)), &level, 8000).is_some());
}

#[test]
fn jump_just_over_the_speed_limit_is_rejected() {
    let level = open_level();
    let a = node(0, p(0, 0));
    assert!(jumpability_check(&a, &node(1, p(128_001, 0)), &level, 8000).is_none());
    assert!(jumpability_check(&a, &node(1, p(0, 64_001)), &level, 8000).is_none());
    assert!(jumpability_check(&a, &node(1, p(0, 64_000)), &level, 8000).is_some());
}

#[test]
fn jump_effort_is_the_launch_speed() {
    let level = open_level();
    let a = node(0, p(0, 0));
    assert_eq!(jumpability_check(&a, &node(1, p(100_000, 0)), &level, 8000), Some(7071));
    assert_eq!(jumpability_check(&a, &node(1, p(0, 20_000)), &level, 8000), Some(4472));
}

#[test]
fn wall_in_the_way_blocks_the_jump() {
    let wall = Polygon { points: vec![p(50_000, -10_000), p(50_000, 100_000)], is_container: false };
    let level = Level { polygons: vec![wall] };
    let a = node(5, p(0, 0));
    assert!(jumpability_check(&a, &node(6, p(100_000, 0)), &level, 8000).is_none());
}

#[test]
fn own_edges_do_not_block() {
    let floor = Polygon { points: vec![p(-10_000, 0), p(10_000, 0)], is_container: false };
    let level = Level { polygons: vec![floor] };
    let a = node(0, p(0, 0));
    assert!(jumpability_check(&a, &node(1, p(60_000, 0)), &level, 8000).is_some());
}

#[test]
fn drop_needs_a_lower_goal() {
    let level = open_level();
    let a = node(0, p(0, 20_000));
    assert_eq!(droppability_check(&a, &node(1, p(0, 0)), &level, 8000), Some(20_000));
    assert_eq!(droppability_check(&a, &node(1, p(15_000, 0)), &level, 8000), Some(25_000));
    assert!(droppability_check(&a, &node(1, p(0, 20_000)), &level, 8000).is_none());
    assert!(droppability_check(&a, &node(1, p(0, 30_000)), &level, 8000).is_none());
}

#[test]
fn floor_under_the_fall_blocks_the_drop() {
    let shelf = Polygon { points: vec![p(-30_000, 10_000), p(30_000, 10_000)], is_container: false };
    let level = Level { polygons: vec![shelf] };
    let a = node(5, p(0, 20_000));
    assert!(droppability_check(&a, &node(6, p(0, 0)), &level, 8000).is_none());
}
