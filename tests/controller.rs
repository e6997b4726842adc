use platformer_nav::a_star::PathNode;
use platformer_nav::builder::build_spatial_index;
use platformer_nav::geometry::Point;
use platformer_nav::graph::{
    PathfindingGraph, PathfindingGraphConnection, PathfindingGraphConnectionType, PathfindingGraphNode,
};
use platformer_nav::platformer_ai::{
    advance_path_index, agent_on_other_side_next_frame, choose_path_following_strategy, get_move_inputs,
    jump_launch_velocity, should_recalculate_path, PathFollowingStrategy, Physics, PlatformerAI,
};

fn p(x: i64, y: i64) -> Point {
    Point { x, y }
}

fn node(id: usize, position: Point) -> PathfindingGraphNode {
    PathfindingGraphNode {
        id,
        position,
        polygon_index: 0,
        line_indicies: vec![0],
        walkable_connections: Vec::new(),
        jumpable_connections: Vec::new(),
        droppable_connections: Vec::new(),
        normal: p(0, 1000),
        is_corner: false,
        is_external_corner: None,
    }
}

fn conn(to: usize, dist: u64, connection_type: PathfindingGraphConnectionType) -> PathfindingGraphConnection {
    PathfindingGraphConnection { node_id: to, dist, connection_type, effort: 0 }
}

/// Three floor nodes 20 units apart, walkable both ways.
fn floor() -> PathfindingGraph {
    let mut nodes = vec![node(0, p(0, 0)), node(1, p(20_000, 0)), node(2, p(40_000, 0))];
    for (a, b) in [(0, 1), (1, 2)] {
        nodes[a].walkable_connections.push(conn(b, 20_000, PathfindingGraphConnectionType::Walkable));
        nodes[b].walkable_connections.push(conn(a, 20_000, PathfindingGraphConnectionType::Walkable));
    }
    let mut graph = PathfindingGraph::new();
    graph.nodes = nodes;
    build_spatial_index(&mut graph);
    graph
}

fn grounded(velocity: Point) -> Physics {
    Physics {
        prev_position: p(0, 0),
        velocity,
        acceleration: p(0, 0),
        radius: 8000,
        normal: p(0, 1000),
        grounded: true,
        walled: 0,
        has_wall_jumped: false,
    }
}

fn following(path: Vec<PathNode>, goal: Point) -> PlatformerAI {
    let mut ai = PlatformerAI::new();
    ai.cached_path = Some(path);
    ai.last_goal_position = Some(goal);
    ai
}

fn floor_path() -> Vec<PathNode> {
    vec![PathNode::new(1, p(20_000, 0)), PathNode::new(2, p(40_000, 0))]
}

#[test]
fn small_moves_keep_the_cached_path() {
    let graph = floor();
    let ai = following(floor_path(), p(40_000, 0));
    assert!(!should_recalculate_path(&ai, p(10_000, 0), p(44_000, 0), &graph));
    assert!(!should_recalculate_path(&ai, p(12_000, 3_000), p(40_000, 3_000), &graph));
}

#[test]
fn goal_moving_past_the_threshold_forces_a_search() {
    let graph = floor();
    let ai = following(floor_path(), p(40_000, 0));
    assert!(should_recalculate_path(&ai, p(10_000, 0), p(45_001, 0), &graph));
    assert!(should_recalculate_path(&ai, p(10_000, 0), p(40_000, -5_001), &graph));
}

#[test]
fn agent_straying_past_the_threshold_forces_a_search() {
    let graph = floor();
    let ai = following(floor_path(), p(40_000, 0));
    assert!(should_recalculate_path(&ai, p(9_999, 0), p(40_000, 0), &graph));
    assert!(!should_recalculate_path(&ai, p(10_000, 0), p(40_000, 0), &graph));
}

#[test]
fn missing_or_used_up_paths_force_a_search() {
    let graph = floor();
    assert!(should_recalculate_path(&PlatformerAI::new(), p(0, 0), p(0, 0), &graph));
    let mut ai = following(floor_path(), p(40_000, 0));
    ai.current_path_index = 2;
    assert!(should_recalculate_path(&ai, p(40_000, 0), p(40_000, 0), &graph));
    let empty = following(Vec::new(), p(40_000, 0));
    assert!(should_recalculate_path(&empty, p(40_000, 0), p(40_000, 0), &graph));
}

#[test]
fn tick_without_replan_reuses_path_and_index() {
    let graph = floor();
    let mut ai = following(floor_path(), p(40_000, 0));
    let inputs = get_move_inputs(&graph, p(11_000, 0), &grounded(p(100, 0)), &mut ai, p(41_000, 0));
    assert_eq!(ai.cached_path, Some(floor_path()));
    assert_eq!(ai.last_goal_position, Some(p(40_000, 0)));
    assert_eq!(ai.current_path_index, 0);
    assert_eq!(inputs.move_dir, p(747, 664));
    assert_eq!(inputs.jump_velocity, p(0, 0));
    assert_eq!(inputs.jump_from_node, None);
}

#[test]
fn tick_after_goal_moves_searches_again() {
    let graph = floor();
    let mut ai = following(vec![PathNode::new(2, p(40_000, 0))], p(40_000, 0));
    get_move_inputs(&graph, p(0, 0), &grounded(p(0, 0)), &mut ai, p(20_000, 0));
    assert_eq!(ai.cached_path, Some(vec![PathNode::new(1, p(20_000, 0))]));
    assert_eq!(ai.last_goal_position, Some(p(20_000, 0)));
    assert_eq!(ai.current_path_index, 0);
}

#[test]
fn walking_aims_at_the_current_offset_point() {
    let graph = floor();
    let mut ai = following(floor_path(), p(40_000, 0));
    let inputs = get_move_inputs(&graph, p(1_000, 0), &grounded(p(0, 0)), &mut ai, p(40_000, 0));
    assert_eq!(inputs.move_dir, p(921, 388));
}

#[test]
fn jump_edge_launches_towards_the_next_node() {
    let mut graph = floor();
    graph.nodes[0].jumpable_connections.push(conn(1, 20_000, PathfindingGraphConnectionType::Jumpable));
    let path = vec![PathNode::new(0, p(0, 0)), PathNode::new(1, p(20_000, 0))];
    let mut ai = following(path, p(20_000, 0));
    let inputs = get_move_inputs(&graph, p(3_000, 0), &grounded(p(0, 0)), &mut ai, p(20_000, 0));
    assert_eq!(inputs.jump_velocity, p(2236, 2236));
    assert_eq!(inputs.jump_from_node, Some(p(0, 8000)));
    assert_eq!(inputs.jump_to_node, Some(p(20_000, 8000)));
    assert_eq!(ai.current_path_index, 1);
}

#[test]
fn reached_nodes_are_passed() {
    let graph = floor();
    let mut ai = following(floor_path(), p(40_000, 0));
    advance_path_index(&mut ai, p(20_000, 8_000), &graph);
    assert_eq!(ai.current_path_index, 1);
    advance_path_index(&mut ai, p(36_000, 0), &graph);
    assert_eq!(ai.current_path_index, 2);
    advance_path_index(&mut ai, p(0, 0), &graph);
    assert_eq!(ai.current_path_index, 2);
}

#[test]
fn launch_velocity_of_known_jumps() {
    assert_eq!(jump_launch_velocity(p(100_000, 0)), p(5000, 5000));
    assert_eq!(jump_launch_velocity(p(-100_000, 0)), p(-5000, 5000));
    assert_eq!(jump_launch_velocity(p(0, 20_000)), p(0, 4472));
    assert_eq!(jump_launch_velocity(p(0, 0)), p(0, 0));
}

#[test]
fn side_changes_are_seen() {
    assert!(agent_on_other_side_next_frame(p(-10, 0), p(20, 0), p(0, 0), false));
    assert!(!agent_on_other_side_next_frame(p(-10, 0), p(5, 0), p(0, 0), false));
    assert!(agent_on_other_side_next_frame(p(0, 0), p(-1, 0), p(0, 0), false));
    assert!(agent_on_other_side_next_frame(p(0, 5), p(0, -10), p(0, 0), true));
}

#[test]
fn aim_decisions() {
    assert_eq!(choose_path_following_strategy(true, false, false, true, false), PathFollowingStrategy::AgentToNextNodeOffset);
    assert_eq!(choose_path_following_strategy(false, true, false, true, true), PathFollowingStrategy::AgentToCurrentNodeOffset);
    assert_eq!(choose_path_following_strategy(false, true, true, false, false), PathFollowingStrategy::AgentToNextNodeOffset);
    assert_eq!(choose_path_following_strategy(false, false, true, true, false), PathFollowingStrategy::AgentToNextNode);
    assert_eq!(choose_path_following_strategy(false, false, false, false, true), PathFollowingStrategy::AgentToNextNodeOffset);
    assert_eq!(choose_path_following_strategy(false, false, false, false, false), PathFollowingStrategy::AgentToCurrentNodeOffset);
}
