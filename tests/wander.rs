use platformer_nav::builder::build_spatial_index;
use platformer_nav::geometry::Point;
use platformer_nav::graph::{PathfindingGraph, PathfindingGraphNode};
use platformer_nav::pursue_ai::{
    get_random_goal_node, pick_furthest_node, wander_movement, wander_update, PursueAI, PursueAIState,
};

fn p(x: i64, y: i64) -> Point {
    Point { x, y }
}

fn node(id: usize, position: Point) -> PathfindingGraphNode {
    PathfindingGraphNode {
        id,
        position,
        polygon_index: 0,
        line_indicies: vec![0],
        walkable_connections: Vec::new(),
        jumpable_connections: Vec::new(),
        droppable_connections: Vec::new(),
        normal: p(0, 1000),
        is_corner: false,
        is_external_corner: None,
    }
}

fn graph_of(positions: &[Point]) -> PathfindingGraph {
    let mut graph = PathfindingGraph::new();
    graph.nodes = positions.iter().enumerate().map(|(i, q)| node(i, *q)).collect();
    build_spatial_index(&mut graph);
    graph
}

#[test]
fn furthest_sample_wins_and_ties_keep_the_first() {
    let graph = graph_of(&[p(0, 0), p(10_000, 0), p(-10_000, 0), p(30_000, 0)]);
    assert_eq!(pick_furthest_node(p(0, 0), &graph, &vec![1, 3, 2]), Some(3));
    assert_eq!(pick_furthest_node(p(0, 0), &graph, &vec![2, 1]), Some(2));
    assert_eq!(pick_furthest_node(p(0, 0), &graph, &vec![0, 0]), None);
    assert_eq!(pick_furthest_node(p(0, 0), &graph, &vec![]), None);
}

#[test]
fn random_goal_is_a_node_away_from_the_agent() {
    let graph = graph_of(&[p(0, 0), p(50_000, 0)]);
    for _ in 0..20 {
        if let Some(goal) = get_random_goal_node(p(0, 0), &graph) {
            assert_eq!(goal.id, 1);
            assert_eq!(goal.position, p(50_000, 0));
        }
    }
    assert!(get_random_goal_node(p(0, 0), &graph_of(&[])).is_none());
}

#[test]
fn wander_keeps_a_far_goal_and_replaces_a_reached_one() {
    let graph = graph_of(&[p(0, 0), p(100_000, 0)]);
    let mut ai = PursueAI { state: PursueAIState::Wander, current_wander_goal: Some(1) };
    wander_movement(p(0, 0), &mut ai, &graph);
    assert_eq!(ai.current_wander_goal, Some(1));
    let mut ai = PursueAI { state: PursueAIState::Wander, current_wander_goal: Some(1) };
    wander_movement(p(100_000, 0), &mut ai, &graph);
    assert!(ai.current_wander_goal.is_none() || ai.current_wander_goal == Some(0));
    let mut ai = PursueAI { state: PursueAIState::Wander, current_wander_goal: Some(7) };
    assert_eq!(wander_update(p(0, 0), &mut ai, &graph), None);
    assert!(ai.current_wander_goal.is_none() || ai.current_wander_goal == Some(1));
    assert_eq!(ai.state, PursueAIState::Wander);
}
