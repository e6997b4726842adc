use platformer_nav::a_star::{calculate_heuristic, find_path, get_goal_node_id, get_start_node_id, PathNode};
use platformer_nav::builder::build_spatial_index;
use platformer_nav::geometry::Point;
use platformer_nav::graph::{
    PathfindingGraph, PathfindingGraphConnection, PathfindingGraphConnectionType, PathfindingGraphNode,
};

fn p(x: i64, y: i64) -> Point {
    Point { x, y }
}

fn node(id: usize, position: Point) -> PathfindingGraphNode {
    PathfindingGraphNode {
        id,
        position,
        polygon_index: 0,
        line_indicies: vec![0],
        walkable_connections: Vec::new(),
        jumpable_connections: Vec::new(),
        droppable_connections: Vec::new(),
        normal: p(0, 1000),
        is_corner: false,
        is_external_corner: None,
    }
}

fn walk(to: usize, dist: u64) -> PathfindingGraphConnection {
    PathfindingGraphConnection {
        node_id: to,
        dist,
        connection_type: PathfindingGraphConnectionType::Walkable,
        effort: 0,
    }
}

fn link(nodes: &mut [PathfindingGraphNode], a: usize, b: usize, dist: u64) {
    nodes[a].walkable_connections.push(walk(b, dist));
    nodes[b].walkable_connections.push(walk(a, dist));
}

fn graph_of(nodes: Vec<PathfindingGraphNode>) -> PathfindingGraph {
    let mut graph = PathfindingGraph::new();
    graph.nodes = nodes;
    build_spatial_index(&mut graph);
    graph
}

/// A at x = 0, B at x = 1 unit, C at x = 3 units, plus a lone node D far away.
fn line_nodes() -> Vec<PathfindingGraphNode> {
    vec![node(0, p(0, 0)), node(1, p(1000, 0)), node(2, p(3000, 0)), node(3, p(500_000, 500_000))]
}

fn path_cost(graph: &PathfindingGraph, start: usize, path: &[PathNode]) -> u64 {
    let mut cost = 0;
    let mut at = start;
    for step in path {
        let conn = graph.nodes[at].walkable_connections.iter().filter(|c| c.node_id == step.id).map(|c| c.dist).min().unwrap();
        cost += conn;
        at = step.id;
    }
    cost
}

#[test]
fn line_graph_path_goes_through_the_middle() {
    let mut nodes = line_nodes();
    link(&mut nodes, 0, 1, 1000);
    link(&mut nodes, 1, 2, 2000);
    let graph = graph_of(nodes);
    let path = find_path(&graph, p(0, 0), p(3000, 0)).unwrap();
    let ids: Vec<usize> = path.iter().map(|n| n.id).collect();
    assert_eq!(ids, vec![1, 2]);
    assert_eq!(path[0].position, p(1000, 0));
    assert_eq!(path_cost(&graph, 0, &path), 3000);
}

#[test]
fn cheaper_direct_edge_is_chosen() {
    let mut nodes = line_nodes();
    link(&mut nodes, 0, 1, 1000);
    link(&mut nodes, 1, 2, 2000);
    link(&mut nodes, 0, 2, 2000);
    let graph = graph_of(nodes);
    let path = find_path(&graph, p(0, 0), p(3000, 0)).unwrap();
    let ids: Vec<usize> = path.iter().map(|n| n.id).collect();
    assert_eq!(ids, vec![2]);
    assert_eq!(path_cost(&graph, 0, &path), 2000);
}

#[test]
fn start_and_goal_on_one_node_give_an_empty_path() {
    let mut nodes = line_nodes();
    link(&mut nodes, 0, 1, 1000);
    let graph = graph_of(nodes);
    let path = find_path(&graph, p(10, 0), p(-10, 5)).unwrap();
    assert!(path.is_empty());
}

#[test]
fn unreachable_goal_gives_no_path() {
    let mut nodes = line_nodes();
    link(&mut nodes, 0, 1, 1000);
    link(&mut nodes, 1, 2, 2000);
    let graph = graph_of(nodes);
    assert!(find_path(&graph, p(0, 0), p(500_000, 500_000)).is_none());
}

#[test]
fn empty_graph_gives_no_path() {
    let graph = graph_of(Vec::new());
    assert!(find_path(&graph, p(0, 0), p(10, 10)).is_none());
    assert_eq!(get_goal_node_id(&graph, p(0, 0)), None);
}

#[test]
fn jump_and_drop_connections_are_searched() {
    let mut nodes = line_nodes();
    nodes[0].jumpable_connections.push(PathfindingGraphConnection {
        node_id: 1,
        dist: 1000,
        connection_type: PathfindingGraphConnectionType::Jumpable,
        effort: 500,
    });
    nodes[1].droppable_connections.push(PathfindingGraphConnection {
        node_id: 2,
        dist: 2000,
        connection_type: PathfindingGraphConnectionType::Droppable,
        effort: 1000,
    });
    let graph = graph_of(nodes);
    let ids: Vec<usize> = find_path(&graph, p(0, 0), p(3000, 0)).unwrap().iter().map(|n| n.id).collect();
    assert_eq!(ids, vec![1, 2]);
    assert!(find_path(&graph, p(3000, 0), p(0, 0)).is_none());
}

#[test]
fn goal_snapping_takes_the_first_nearest() {
    let graph = graph_of(vec![node(0, p(0, 0)), node(1, p(2000, 0)), node(2, p(1000, 0))]);
    assert_eq!(get_goal_node_id(&graph, p(1900, 0)), Some(1));
    assert_eq!(get_goal_node_id(&graph, p(500, 0)), Some(0));
}

#[test]
fn start_snapping_breaks_ties_towards_the_goal() {
    let graph = graph_of(vec![node(0, p(0, 0)), node(1, p(2000, 0))]);
    assert_eq!(get_start_node_id(&graph, p(1000, 0), p(5000, 0)), Some(1));
    assert_eq!(get_start_node_id(&graph, p(1000, 0), p(-5000, 0)), Some(0));
    assert_eq!(get_start_node_id(&graph, p(1000, 0), p(1000, 7000)), Some(1));
}

#[test]
fn far_positions_fall_back_to_all_nodes() {
    let graph = graph_of(vec![node(0, p(0, 0)), node(1, p(2000, 0))]);
    assert_eq!(get_goal_node_id(&graph, p(900_000_000, 0)), Some(1));
    assert_eq!(get_start_node_id(&graph, p(-900_000_000, 0), p(0, 0)), Some(0));
}

#[test]
fn heuristic_weights_climbing() {
    assert_eq!(calculate_heuristic(p(0, 0), p(3000, 4000)), 6708);
    assert_eq!(calculate_heuristic(p(0, 0), p(3000, -4000)), 5000);
    assert_eq!(calculate_heuristic(p(0, 0), p(0, 0)), 0);
}

#[test]
fn open_list_entry_starts_from_its_node() {
    let graph_node = node(4, p(7000, -3000));
    let mut entry = platformer_nav::a_star::AStarNode::new(&graph_node);
    assert_eq!(entry.id, 4);
    assert_eq!(entry.position, p(7000, -3000));
    assert_eq!(entry.parent, None);
    assert_eq!(entry.get_f_cost(), 0);
    entry.g_cost = 12;
    entry.h_cost = 30;
    assert_eq!(entry.get_f_cost(), 42);
}
