use platformer_nav::builder::{init_pathfinding_graph, MERGE_TOLERANCE_SQ};
use platformer_nav::geometry::{squared_distance, Point};
use platformer_nav::graph::{PathfindingGraph, PathfindingGraphConnectionType};
use platformer_nav::level::{Level, Polygon};

fn p(x: i64, y: i64) -> Point {
    Point { x, y }
}

fn poly(points: Vec<Point>, is_container: bool) -> Polygon {
    Polygon { points, is_container }
}

fn build(level: &Level) -> PathfindingGraph {
    let mut graph = PathfindingGraph::new();
    init_pathfinding_graph(level, &mut graph);
    graph
}

/// A floor 200 units wide and a ledge 20 units higher and 40 units wide.
fn two_platforms() -> Level {
    Level {
        polygons: vec![
            poly(vec![p(-100_000, 0), p(100_000, 0)], false),
            poly(vec![p(-20_000, 20_000), p(20_000, 20_000)], false),
        ],
    }
}

fn check_invariants(graph: &PathfindingGraph) {
    let n = graph.nodes.len();
    for (i, node) in graph.nodes.iter().enumerate() {
        assert_eq!(node.id, i);
        for c in node.walkable_connections.iter() {
            assert!(c.node_id < n);
            assert_eq!(c.connection_type, PathfindingGraphConnectionType::Walkable);
            assert!(graph.nodes[c.node_id]
                .walkable_connections
                .iter()
                .any(|back| back.node_id == i && back.dist == c.dist));
        }
        for c in node.jumpable_connections.iter() {
            assert!(c.node_id < n);
            assert_eq!(c.connection_type, PathfindingGraphConnectionType::Jumpable);
        }
        for c in node.droppable_connections.iter() {
            assert!(c.node_id < n);
            assert!(graph.nodes[c.node_id].position.y < node.position.y);
            assert_eq!(c.effort, c.dist / 2);
        }
        for other in graph.nodes.iter().skip(i + 1) {
            assert!(squared_distance(node.position, other.position) >= MERGE_TOLERANCE_SQ);
        }
    }
}

#[test]
fn floor_is_cut_into_equal_segments() {
    let level = Level { polygons: vec![poly(vec![p(-100_000, 0), p(100_000, 0)], false)] };
    let graph = build(&level);
    assert_eq!(graph.nodes.len(), 11);
    for (i, node) in graph.nodes.iter().enumerate() {
        assert_eq!(node.position, p(-100_000 + 20_000 * i as i64, 0));
        assert_eq!(node.normal, p(0, 1000));
        assert!(!node.is_corner);
        assert_eq!(node.is_external_corner, None);
    }
    assert_eq!(graph.nodes[5].walkable_connections.len(), 2);
    assert!(graph.nodes[5].walkable_connections.iter().all(|c| c.dist == 20_000 && c.effort == 0));
    check_invariants(&graph);
}

#[test]
fn leftward_and_degenerate_edges_carry_no_nodes() {
    let level = Level {
        polygons: vec![
            poly(vec![p(100_000, 0), p(-100_000, 0)], false),
            poly(vec![p(5, 5), p(5, 5)], false),
        ],
    };
    assert_eq!(build(&level).nodes.len(), 0);
}

#[test]
fn first_container_is_skipped_and_second_kept() {
    let container = || poly(vec![p(0, 0), p(40_000, 0)], true);
    assert_eq!(build(&Level { polygons: vec![container()] }).nodes.len(), 0);
    assert_eq!(build(&Level { polygons: vec![container(), container()] }).nodes.len(), 3);
}

#[test]
fn shared_corner_is_merged() {
    let level = Level { polygons: vec![poly(vec![p(0, 0), p(40_000, 0), p(80_000, 20_000)], false)] };
    let graph = build(&level);
    assert_eq!(graph.nodes.len(), 6);
    let corner = graph.nodes.iter().find(|n| n.position == p(40_000, 0)).unwrap();
    assert_eq!(corner.line_indicies, vec![0, 1]);
    assert!(corner.is_corner);
    assert!(corner.is_external_corner.is_some());
    assert_eq!(corner.walkable_connections.len(), 2);
    check_invariants(&graph);
}

#[test]
fn platforms_get_jumps_and_drops() {
    let graph = build(&two_platforms());
    check_invariants(&graph);
    let ledge = graph.nodes.iter().position(|n| n.position == p(0, 20_000)).unwrap();
    let below = graph.nodes.iter().position(|n| n.position == p(0, 0)).unwrap();
    assert!(graph.nodes[ledge].droppable_connections.iter().any(|c| c.node_id == below));
    assert!(graph.nodes[below].jumpable_connections.iter().any(|c| c.node_id == ledge));
    assert!(graph.nodes[below].droppable_connections.is_empty());
    let jump = graph.nodes[below].jumpable_connections.iter().find(|c| c.node_id == ledge).unwrap();
    assert_eq!(jump.dist, 20_000);
    assert_eq!(jump.effort, 4472);
}

#[test]
fn building_twice_gives_the_same_graph() {
    let level = two_platforms();
    let a = build(&level);
    let b = build(&level);
    assert_eq!(a.nodes.len(), b.nodes.len());
    for (x, y) in a.nodes.iter().zip(b.nodes.iter()) {
        assert_eq!(x.id, y.id);
        assert_eq!(x.position, y.position);
        assert_eq!(x.walkable_connections, y.walkable_connections);
        assert_eq!(x.jumpable_connections, y.jumpable_connections);
        assert_eq!(x.droppable_connections, y.droppable_connections);
        assert_eq!(x.normal, y.normal);
        assert_eq!(x.is_external_corner, y.is_external_corner);
    }
    assert_eq!(a.grid_bounds, b.grid_bounds);
}

fn bare_node(id: usize, position: Point) -> platformer_nav::graph::PathfindingGraphNode {
    platformer_nav::graph::PathfindingGraphNode {
        id,
        position,
        polygon_index: 0,
        line_indicies: vec![0],
        walkable_connections: Vec::new(),
        jumpable_connections: Vec::new(),
        droppable_connections: Vec::new(),
        normal: p(0, 1000),
        is_corner: false,
        is_external_corner: Some(true),
    }
}

fn walk_to(node_id: usize, dist: u64) -> platformer_nav::graph::PathfindingGraphConnection {
    platformer_nav::graph::PathfindingGraphConnection {
        node_id,
        dist,
        connection_type: PathfindingGraphConnectionType::Walkable,
        effort: 0,
    }
}

#[test]
fn placement_appends_after_existing_nodes() {
    let level = Level { polygons: vec![poly(vec![p(0, 0), p(40_000, 0)], false)] };
    let mut graph = PathfindingGraph::new();
    graph.nodes = vec![bare_node(0, p(7, 7)), bare_node(1, p(9, 9))];
    platformer_nav::builder::place_nodes(&mut graph, &level);
    assert_eq!(graph.nodes.len(), 5);
    assert_eq!(graph.nodes[0].position, p(7, 7));
    assert_eq!(graph.nodes[1].position, p(9, 9));
    assert_eq!(graph.nodes[2].id, 2);
    assert_eq!(graph.nodes[2].position, p(0, 0));
    assert!(graph.nodes[2].walkable_connections.is_empty());
    assert_eq!(graph.nodes[3].walkable_connections, vec![walk_to(2, 20_000)]);
    assert_eq!(graph.nodes[4].position, p(40_000, 0));
}

#[test]
fn one_way_connections_are_merged_and_renumbered() {
    let mut graph = PathfindingGraph::new();
    let mut a = bare_node(10, p(0, 0));
    let b = bare_node(20, p(500, 0));
    let mut c = bare_node(30, p(50_000, 0));
    a.walkable_connections.push(walk_to(30, 50_000));
    c.walkable_connections.push(walk_to(20, 49_500));
    graph.nodes = vec![a, b, c];
    platformer_nav::builder::remove_duplicate_nodes(&mut graph);
    assert_eq!(graph.nodes.len(), 2);
    assert_eq!(graph.nodes[0].id, 10);
    assert_eq!(graph.nodes[0].line_indicies, vec![0, 0]);
    assert_eq!(graph.nodes[0].walkable_connections, vec![walk_to(30, 50_000)]);
    assert_eq!(graph.nodes[1].walkable_connections, vec![walk_to(10, 49_500)]);
    platformer_nav::builder::make_node_ids_indices(&mut graph);
    assert_eq!(graph.nodes[0].id, 0);
    assert_eq!(graph.nodes[1].id, 1);
    assert_eq!(graph.nodes[0].walkable_connections, vec![walk_to(1, 50_000)]);
    assert_eq!(graph.nodes[1].walkable_connections, vec![walk_to(0, 49_500)]);
}

#[test]
fn nodes_on_one_edge_are_not_corners() {
    let mut graph = PathfindingGraph::new();
    graph.nodes = vec![bare_node(0, p(0, 0))];
    platformer_nav::builder::setup_corners(&mut graph);
    assert!(!graph.nodes[0].is_corner);
    assert_eq!(graph.nodes[0].is_external_corner, None);
}

#[test]
fn grid_holds_each_node_once_in_its_cell() {
    let graph = build(&two_platforms());
    let mut seen = vec![0; graph.nodes.len()];
    for ids in graph.spatial_grid.values() {
        assert!(!ids.is_empty());
        for id in ids {
            seen[*id] += 1;
        }
    }
    assert!(seen.iter().all(|n| *n == 1));
    assert_eq!(graph.grid_bounds, (p(-100_000, 0), p(100_000, 20_000)));
}
