//! Wandering: an agent picks a far node of the graph as its next goal.
use vstd::prelude::*;
use rand::Rng;
use crate::geometry::{Point, in_bounds, sq_dist, squared_distance};
use crate::graph::{PathfindingGraph, PathfindingGraphNode, node_ok};
use crate::builder::copy_connections;

verus! {

/// Number of random nodes drawn when picking a wander goal.
pub const WANDER_SAMPLE_COUNT: usize = 3;

/// Squared distance at which a wander goal counts as reached.
pub const WANDER_GOAL_REACHED_THRESHOLD_SQ: u128 = 900_000_000;

/// What a pursuing agent is doing.
#[derive(Clone, Copy, Debug, PartialEq, Eq, Structural)]
pub enum PursueAIState {
    Wander,
    Pursue,
    Search,
    Attack,
}

/// The state of a pursuing agent.
#[derive(Clone, Copy, Debug, PartialEq, Eq, Structural)]
pub struct PursueAI {
    pub state: PursueAIState,
    pub current_wander_goal: Option<usize>,
}

/// Relies on `rand::rng().random_range(0..n)`: a uniformly drawn value of `0..n`
/// (it panics only on an empty range, which `requires` leaves out).
#[verifier::external_body]
fn random_index(n: usize) -> (r: usize)
    requires
        n > 0,
    ensures
        r < n,
{
    rand::rng().random_range(0..n)
}

/// Every node of the graph lies away from `agent`.
pub open spec fn all_away(graph: &PathfindingGraph, agent: Point) -> bool {
    forall|i: int| 0 <= i < graph.nodes@.len() ==> sq_dist(#[trigger] graph.nodes@[i].position, agent) > 0
}

/// Squared distance from node `id` to `agent`.
pub open spec fn sample_dist(graph: &PathfindingGraph, agent: Point, id: usize) -> int {
    sq_dist(graph.nodes@[id as int].position, agent)
}

/// Sample `k` is the first of the farthest samples, and lies farther than zero.
pub open spec fn is_furthest_pick(
    graph: &PathfindingGraph,
    agent: Point,
    samples: Seq<usize>,
    k: int,
) -> bool {
    &&& 0 <= k < samples.len()
    &&& sample_dist(graph, agent, samples[k]) > 0
    &&& forall|j: int|
        0 <= j < samples.len() ==> sample_dist(graph, agent, #[trigger] samples[j]) <= sample_dist(
            graph,
            agent,
            samples[k],
        )
    &&& forall|j: int|
        0 <= j < k ==> sample_dist(graph, agent, #[trigger] samples[j]) < sample_dist(
            graph,
            agent,
            samples[k],
        )
}

/// The first of the sampled nodes farthest from `agent`, if any lies farther
/// than zero.
pub fn pick_furthest_node(agent: Point, graph: &PathfindingGraph, samples: &Vec<usize>) -> (r: Option<
    usize,
>)
    requires
        graph.well_formed(),
        in_bounds(agent),
        forall|k: int| 0 <= k < samples@.len() ==> samples@[k] < graph.nodes@.len(),
    ensures
        r is None <==> forall|k: int|
            0 <= k < samples@.len() ==> sample_dist(graph, agent, #[trigger] samples@[k]) <= 0,
        r matches Some(id) ==> exists|k: int| is_furthest_pick(graph, agent, samples@, k) && samples@[k] == id,
{
    let mut best: Option<usize> = None;
    let mut best_dist: u128 = 0;
    let ghost mut best_k: int = 0;
    let mut i: usize = 0;
    while i < samples.len()
        invariant
            graph.well_formed(),
            in_bounds(agent),
            forall|k: int| 0 <= k < samples@.len() ==> samples@[k] < graph.nodes@.len(),
            i <= samples@.len(),
            forall|j: int| 0 <= j < i ==> sample_dist(graph, agent, #[trigger] samples@[j]) <= best_dist,
            best is None ==> best_dist == 0,
            best matches Some(b) ==> 0 <= best_k < i && samples@[best_k] == b && best_dist
                == sample_dist(graph, agent, b) && best_dist > 0 && forall|j: int|
                0 <= j < best_k ==> sample_dist(graph, agent, #[trigger] samples@[j]) < best_dist,
        decreases samples@.len() - i,
    {
        let id = samples[i];
        proof {
            assert(node_ok(graph.nodes@[id as int], id as int, graph.nodes@.len() as int));
        }
        let d = squared_distance(graph.nodes[id].position, agent);
        if d > best_dist {
            best = Some(id);
            best_dist = d;
            proof {
                best_k = i as int;
            }
        }
        i = i + 1;
    }
    proof {
        if best is Some {
            assert(is_furthest_pick(graph, agent, samples@, best_k));
        }
    }
    best
}

/// A copy of `node`.
pub fn clone_node(node: &PathfindingGraphNode) -> (r: PathfindingGraphNode)
    ensures
        r.id == node.id,
        r.position == node.position,
        r.polygon_index == node.polygon_index,
        r.line_indicies@ == node.line_indicies@,
        r.walkable_connections@ == node.walkable_connections@,
        r.jumpable_connections@ == node.jumpable_connections@,
        r.droppable_connections@ == node.droppable_connections@,
        r.normal == node.normal,
        r.is_corner == node.is_corner,
        r.is_external_corner == node.is_external_corner,
{
    let mut lines: Vec<usize> = Vec::new();
    let mut k: usize = 0;
    while k < node.line_indicies.len()
        invariant
            k <= node.line_indicies@.len(),
            lines@ == node.line_indicies@.subrange(0, k as int),
        decreases node.line_indicies@.len() - k,
    {
        lines.push(node.line_indicies[k]);
        k = k + 1;
        assert(lines@ =~= node.line_indicies@.subrange(0, k as int));
    }
    assert(lines@ =~= node.line_indicies@);
    PathfindingGraphNode {
        id: node.id,
        position: node.position,
        polygon_index: node.polygon_index,
        line_indicies: lines,
        walkable_connections: copy_connections(&node.walkable_connections),
        jumpable_connections: copy_connections(&node.jumpable_connections),
        droppable_connections: copy_connections(&node.droppable_connections),
        normal: node.normal,
        is_corner: node.is_corner,
        is_external_corner: node.is_external_corner,
    }
}

/// The farthest of a few randomly drawn nodes, if the graph has nodes and one of
/// those drawn lies away from the agent.
pub fn get_random_goal_node(agent_position: Point, pathfinding: &PathfindingGraph) -> (r: Option<
    PathfindingGraphNode,
>)
    requires
        pathfinding.well_formed(),
        in_bounds(agent_position),
    ensures
        pathfinding.nodes@.len() == 0 ==> r is None,
        pathfinding.nodes@.len() > 0 && all_away(pathfinding, agent_position) ==> r is Some,
        r matches Some(node) ==> node.id < pathfinding.nodes@.len() && node.position
            == pathfinding.nodes@[node.id as int].position && sq_dist(node.position, agent_position)
            > 0,
{
    let n = pathfinding.nodes.len();
    if n == 0 {
        return None;
    }
    let mut samples: Vec<usize> = Vec::new();
    let mut i: usize = 0;
    while i < WANDER_SAMPLE_COUNT
        invariant
            n == pathfinding.nodes@.len(),
            n > 0,
            samples@.len() == i,
            i <= WANDER_SAMPLE_COUNT,
            forall|k: int| 0 <= k < samples@.len() ==> samples@[k] < n,
        decreases WANDER_SAMPLE_COUNT - i,
    {
        samples.push(random_index(n));
        i = i + 1;
    }
    proof {
        if all_away(pathfinding, agent_position) {
            assert(sample_dist(pathfinding, agent_position, samples@[0]) > 0);
        }
    }
    match pick_furthest_node(agent_position, pathfinding, &samples) {
        Some(id) => {
            proof {
                assert(node_ok(pathfinding.nodes@[id as int], id as int, n as int));
            }
            Some(clone_node(&pathfinding.nodes[id]))
        },
        None => None,
    }
}

/// Keeps or replaces the wander goal: a goal that is not a node, or that the
/// agent has reached, is dropped, and a missing goal is drawn anew.
pub fn wander_movement(agent_position: Point, pursue_ai: &mut PursueAI, pathfinding: &PathfindingGraph)
    requires
        pathfinding.well_formed(),
        in_bounds(agent_position),
    ensures
        final(pursue_ai).state == old(pursue_ai).state,
        (old(pursue_ai).current_wander_goal matches Some(g) && g < pathfinding.nodes@.len() && sq_dist(
            pathfinding.nodes@[g as int].position,
            agent_position,
        ) > WANDER_GOAL_REACHED_THRESHOLD_SQ) ==> final(pursue_ai).current_wander_goal == old(
            pursue_ai,
        ).current_wander_goal,
        final(pursue_ai).current_wander_goal matches Some(g) ==> g < pathfinding.nodes@.len(),
        pathfinding.nodes@.len() > 0 && all_away(pathfinding, agent_position)
            ==> final(pursue_ai).current_wander_goal is Some,
        final(pursue_ai).current_wander_goal != old(pursue_ai).current_wander_goal ==> (
        final(pursue_ai).current_wander_goal matches Some(g) ==> sq_dist(
            pathfinding.nodes@[g as int].position,
            agent_position,
        ) > 0),
{
    if let Some(goal_node_id) = pursue_ai.current_wander_goal {
        if goal_node_id < pathfinding.nodes.len() {
            proof {
                assert(node_ok(pathfinding.nodes@[goal_node_id as int], goal_node_id as int, pathfinding.nodes@.len() as int));
            }
            let distance_sq = squared_distance(pathfinding.nodes[goal_node_id].position, agent_position);
            if distance_sq <= WANDER_GOAL_REACHED_THRESHOLD_SQ {
                pursue_ai.current_wander_goal = None;
            }
        } else {
            pursue_ai.current_wander_goal = None;
        }
    }
    if pursue_ai.current_wander_goal.is_none() {
        match get_random_goal_node(agent_position, pathfinding) {
            Some(goal_node) => {
                pursue_ai.current_wander_goal = Some(goal_node.id);
            },
            None => {},
        }
    }
}

/// One tick of wandering; wandering never hands over to another state.
pub fn wander_update(agent_position: Point, pursue_ai: &mut PursueAI, pathfinding: &PathfindingGraph) -> (r:
    Option<PursueAIState>)
    requires
        pathfinding.well_formed(),
        in_bounds(agent_position),
    ensures
        r is None,
        final(pursue_ai).state == old(pursue_ai).state,
        final(pursue_ai).current_wander_goal matches Some(g) ==> g < pathfinding.nodes@.len(),
{
    wander_movement(agent_position, pursue_ai, pathfinding);
    None
}

} // verus!
