//! The path-following controller: when to search for a new path, where to
//! steer each tick, and when to launch a jump.
use vstd::prelude::*;
use crate::geometry::{
    Point, in_bounds, sq_dist, sq_len, sqrt_floor, unit_scaled, isqrt, squared_distance,
    normalize_or_zero, div_floor, UNIT, COORD_LIMIT,
};
use crate::graph::{PathfindingGraph, PathfindingGraphConnection, node_ok};
use crate::a_star::{PathNode, find_path, path_search_result, conn_to};
use crate::trajectory::GRAVITY_STRENGTH;

verus! {

/// Squared distance the goal may move before the path is searched again.
pub const GOAL_CHANGE_THRESHOLD_SQ: u128 = 25_000_000;

/// Squared distance the agent may stray from its current path node before the
/// path is searched again.
pub const PATH_DEVIATION_THRESHOLD_SQ: u128 = 100_000_000;

/// Squared distance at which the agent has reached a path node.
pub const NODE_REACHED_THRESHOLD_SQ: u128 = 64_000_000;

/// Squared speed below which the agent counts as standing still.
pub const VELOCITY_MAGNITUDE_THRESHOLD: u128 = 100_000;

/// The `y` of a contact normal above which the agent counts as on a wall
/// rather than under a ceiling.
pub const WALL_NORMAL_Y_THRESHOLD: i64 = -10;

/// Where the agent aims this tick.
#[derive(Clone, Copy, Debug, PartialEq, Eq, Structural)]
pub enum PathFollowingStrategy {
    CurrentNodeToNextNode,
    CurrentNodeOffsetToNextNodeOffset,
    AgentToCurrentNode,
    AgentToCurrentNodeOffset,
    AgentToNextNode,
    AgentToNextNodeOffset,
    AgentToGoal,
    Idle,
}

/// The physical state of an agent, as the physics step leaves it.
#[derive(Clone, Copy, Debug, PartialEq, Eq, Structural)]
pub struct Physics {
    pub prev_position: Point,
    pub velocity: Point,
    pub acceleration: Point,
    pub radius: i64,
    /// Contact normal, `UNIT` long; zero while airborne.
    pub normal: Point,
    pub grounded: bool,
    /// Side of the wall the agent touches; 0 when none.
    pub walled: i8,
    pub has_wall_jumped: bool,
}

/// The per-agent state of the controller.
pub struct PlatformerAI {
    pub current_target_node: Option<usize>,
    pub jump_from_pos: Option<Point>,
    pub jump_to_pos: Option<Point>,
    pub cached_path: Option<Vec<PathNode>>,
    pub last_goal_position: Option<Point>,
    pub current_path_index: usize,
}

/// What the controller decides in one tick.
#[derive(Clone, Copy, Debug, PartialEq, Eq, Structural)]
pub struct MoveInputs {
    /// Steering direction, `UNIT` long, or zero.
    pub move_dir: Point,
    /// Launch velocity of a jump to make now; zero when none.
    pub jump_velocity: Point,
    pub jump_from_node: Option<Point>,
    pub jump_to_node: Option<Point>,
}

/// The agent state lies within the bounds the controller computes with.
pub open spec fn physics_ok(physics: Physics) -> bool {
    &&& -COORD_LIMIT <= physics.velocity.x <= COORD_LIMIT
    &&& -COORD_LIMIT <= physics.velocity.y <= COORD_LIMIT
    &&& -UNIT <= physics.normal.x <= UNIT
    &&& -UNIT <= physics.normal.y <= UNIT
    &&& 0 <= physics.radius <= COORD_LIMIT
}

/// Every entry of the path names a node of the graph and carries its position.
pub open spec fn path_ok(graph: &PathfindingGraph, p: Seq<PathNode>) -> bool {
    forall|k: int|
        0 <= k < p.len() ==> (#[trigger] p[k]).id < graph.nodes@.len() && p[k].position
            == graph.nodes@[p[k].id as int].position
}

impl PlatformerAI {
    /// The cached path names nodes of `graph`, and the last goal lies in bounds.
    pub open spec fn well_formed(&self, graph: &PathfindingGraph) -> bool {
        &&& (self.cached_path matches Some(p) ==> path_ok(graph, p@))
        &&& (self.last_goal_position matches Some(g) ==> in_bounds(g))
    }

    /// A controller with no path yet.
    pub fn new() -> (r: PlatformerAI)
        ensures
            r.cached_path is None,
            r.last_goal_position is None,
            r.current_path_index == 0,
            r.jump_from_pos is None,
            r.jump_to_pos is None,
            r.current_target_node is None,
    {
        PlatformerAI {
            current_target_node: None,
            jump_from_pos: None,
            jump_to_pos: None,
            cached_path: None,
            last_goal_position: None,
            current_path_index: 0,
        }
    }
}

/// The path must be searched again: there is none, it is used up, the goal has
/// moved too far, or the agent has strayed too far from its current node.
pub open spec fn needs_replan(ai: &PlatformerAI, agent: Point, goal: Point) -> bool {
    match ai.cached_path {
        Option::None => true,
        Option::Some(p) => {
            ||| p@.len() == 0
            ||| ai.current_path_index >= p@.len()
            ||| match ai.last_goal_position {
                Option::None => true,
                Option::Some(last) => sq_dist(last, goal) > GOAL_CHANGE_THRESHOLD_SQ || sq_dist(
                    p@[ai.current_path_index as int].position,
                    agent,
                ) > PATH_DEVIATION_THRESHOLD_SQ,
            }
        },
    }
}

/// Whether the cached path has to be searched again (see `needs_replan`).
pub fn should_recalculate_path(
    platformer_ai: &PlatformerAI,
    agent_position: Point,
    goal_position: Point,
    pathfinding: &PathfindingGraph,
) -> (r: bool)
    requires
        platformer_ai.well_formed(pathfinding),
        pathfinding.well_formed(),
        in_bounds(agent_position),
        in_bounds(goal_position),
    ensures
        r == needs_replan(platformer_ai, agent_position, goal_position),
{
    let cached_path = match &platformer_ai.cached_path {
        Some(p) => p,
        None => {
            return true;
        },
    };
    if cached_path.len() == 0 || platformer_ai.current_path_index >= cached_path.len() {
        return true;
    }
    let last_goal = match platformer_ai.last_goal_position {
        Some(g) => g,
        None => {
            return true;
        },
    };
    if squared_distance(last_goal, goal_position) > GOAL_CHANGE_THRESHOLD_SQ {
        return true;
    }
    let current_node = cached_path[platformer_ai.current_path_index];
    proof {
        let k = platformer_ai.current_path_index as int;
        assert(cached_path@[k].id < pathfinding.nodes@.len());
        assert(node_ok(pathfinding.nodes@[cached_path@[k].id as int], cached_path@[k].id as int, pathfinding.nodes@.len() as int));
    }
    squared_distance(current_node.position, agent_position) > PATH_DEVIATION_THRESHOLD_SQ
}

/// The first index from `i` on whose node the agent has not reached.
pub open spec fn advanced_index(p: Seq<PathNode>, agent: Point, i: int) -> int
    decreases p.len() - i,
{
    if 0 <= i < p.len() && sq_dist(p[i].position, agent) <= NODE_REACHED_THRESHOLD_SQ {
        advanced_index(p, agent, i + 1)
    } else {
        i
    }
}

/// Moves the path index past every node the agent has reached.
pub fn advance_path_index(
    platformer_ai: &mut PlatformerAI,
    agent_position: Point,
    pathfinding: &PathfindingGraph,
)
    requires
        old(platformer_ai).well_formed(pathfinding),
        pathfinding.well_formed(),
        in_bounds(agent_position),
    ensures
        final(platformer_ai).cached_path == old(platformer_ai).cached_path,
        final(platformer_ai).last_goal_position == old(platformer_ai).last_goal_position,
        final(platformer_ai).jump_from_pos == old(platformer_ai).jump_from_pos,
        final(platformer_ai).jump_to_pos == old(platformer_ai).jump_to_pos,
        final(platformer_ai).current_target_node == old(platformer_ai).current_target_node,
        final(platformer_ai).current_path_index == match old(platformer_ai).cached_path {
            Option::Some(p) => advanced_index(p@, agent_position, old(platformer_ai).current_path_index as int),
            Option::None => old(platformer_ai).current_path_index as int,
        },
{
    match &platformer_ai.cached_path {
        Some(path) => {
            let ghost start = platformer_ai.current_path_index as int;
            let ghost before = *platformer_ai;
            while platformer_ai.current_path_index < path.len()
                invariant
                    path_ok(pathfinding, path@),
                    pathfinding.well_formed(),
                    in_bounds(agent_position),
                    before.cached_path == Some(*path),
                    platformer_ai.cached_path == before.cached_path,
                    platformer_ai.last_goal_position == before.last_goal_position,
                    platformer_ai.jump_from_pos == before.jump_from_pos,
                    platformer_ai.jump_to_pos == before.jump_to_pos,
                    platformer_ai.current_target_node == before.current_target_node,
                    advanced_index(path@, agent_position, platformer_ai.current_path_index as int)
                        == advanced_index(path@, agent_position, start),
                ensures
                    platformer_ai.cached_path == before.cached_path,
                    platformer_ai.last_goal_position == before.last_goal_position,
                    platformer_ai.jump_from_pos == before.jump_from_pos,
                    platformer_ai.jump_to_pos == before.jump_to_pos,
                    platformer_ai.current_target_node == before.current_target_node,
                    platformer_ai.current_path_index as int == advanced_index(path@, agent_position, start),
                decreases path@.len() - platformer_ai.current_path_index,
            {
                let current_node = path[platformer_ai.current_path_index];
                proof {
                    let k = platformer_ai.current_path_index as int;
                    assert(path@[k].id < pathfinding.nodes@.len());
                    assert(node_ok(pathfinding.nodes@[path@[k].id as int], path@[k].id as int, pathfinding.nodes@.len() as int));
                }
                let distance_sq = squared_distance(current_node.position, agent_position);
                if distance_sq <= NODE_REACHED_THRESHOLD_SQ {
                    platformer_ai.current_path_index = platformer_ai.current_path_index + 1;
                } else {
                    break;
                }
            }
        },
        None => {},
    }
}

/// `v` is on the side `>= 0` of zero.
pub open spec fn side(v: int) -> bool {
    v >= 0
}

/// The agent crosses the node's vertical line (or its horizontal line, when
/// `vertical`) between this tick and the next.
pub open spec fn other_side_next_frame(agent: Point, velocity: Point, node: Point, vertical: bool) -> bool {
    if vertical {
        side(agent.y - node.y) != side(agent.y + velocity.y - node.y)
    } else {
        side(agent.x - node.x) != side(agent.x + velocity.x - node.x)
    }
}

/// Whether the agent will be on the other side of the node next tick.
pub fn agent_on_other_side_next_frame(
    agent_position: Point,
    agent_velocity: Point,
    node_position: Point,
    vertical: bool,
) -> (r: bool)
    requires
        in_bounds(agent_position),
        in_bounds(node_position),
        -COORD_LIMIT <= agent_velocity.x <= COORD_LIMIT,
        -COORD_LIMIT <= agent_velocity.y <= COORD_LIMIT,
    ensures
        r == other_side_next_frame(agent_position, agent_velocity, node_position, vertical),
{
    let (a, v, n) = if vertical {
        (agent_position.y, agent_velocity.y, node_position.y)
    } else {
        (agent_position.x, agent_velocity.x, node_position.x)
    };
    let current = a - n;
    let next = a + v - n;
    (current >= 0) != (next >= 0)
}

/// Which aim the agent takes, from whether it is airborne, whether the next
/// step is a jump, whether it is about to pass the take-off point or stands
/// still, whether the current node is a corner, and whether the next node's
/// offset point lies ahead.
pub open spec fn strategy_for(
    falling: bool,
    is_jump: bool,
    passing_or_still: bool,
    is_corner: bool,
    next_ahead: bool,
) -> PathFollowingStrategy {
    if falling {
        PathFollowingStrategy::AgentToNextNodeOffset
    } else if is_jump {
        if passing_or_still {
            PathFollowingStrategy::AgentToNextNodeOffset
        } else {
            PathFollowingStrategy::AgentToCurrentNodeOffset
        }
    } else if is_corner {
        PathFollowingStrategy::AgentToNextNode
    } else if next_ahead {
        PathFollowingStrategy::AgentToNextNodeOffset
    } else {
        PathFollowingStrategy::AgentToCurrentNodeOffset
    }
}

/// The aim decision (see `strategy_for`).
pub fn choose_path_following_strategy(
    falling: bool,
    is_jump: bool,
    passing_or_still: bool,
    is_corner: bool,
    next_ahead: bool,
) -> (r: PathFollowingStrategy)
    ensures
        r == strategy_for(falling, is_jump, passing_or_still, is_corner, next_ahead),
{
    if falling {
        PathFollowingStrategy::AgentToNextNodeOffset
    } else if is_jump {
        if passing_or_still {
            PathFollowingStrategy::AgentToNextNodeOffset
        } else {
            PathFollowingStrategy::AgentToCurrentNodeOffset
        }
    } else if is_corner {
        PathFollowingStrategy::AgentToNextNode
    } else if next_ahead {
        PathFollowingStrategy::AgentToNextNodeOffset
    } else {
        PathFollowingStrategy::AgentToCurrentNodeOffset
    }
}

pub open spec fn diff(a: Point, b: Point) -> (int, int) {
    (a.x - b.x, a.y - b.y)
}

/// The displacement the strategy aims along.
pub open spec fn strategy_vector(
    s: PathFollowingStrategy,
    agent: Point,
    current: Point,
    next: Point,
    current_offset: Point,
    next_offset: Point,
) -> (int, int) {
    match s {
        PathFollowingStrategy::CurrentNodeToNextNode => diff(next, current),
        PathFollowingStrategy::CurrentNodeOffsetToNextNodeOffset => diff(next_offset, current_offset),
        PathFollowingStrategy::AgentToCurrentNode => diff(current, agent),
        PathFollowingStrategy::AgentToCurrentNodeOffset => diff(current_offset, agent),
        PathFollowingStrategy::AgentToNextNode => diff(next, agent),
        PathFollowingStrategy::AgentToNextNodeOffset => diff(next_offset, agent),
        _ => (0, 0),
    }
}

pub open spec fn offset_ok(p: Point) -> bool {
    -2 * COORD_LIMIT <= p.x <= 2 * COORD_LIMIT && -2 * COORD_LIMIT <= p.y <= 2 * COORD_LIMIT
}

/// The displacement for a strategy (see `strategy_vector`).
pub fn strategy_displacement(
    s: PathFollowingStrategy,
    agent: Point,
    current: Point,
    next: Point,
    current_offset: Point,
    next_offset: Point,
) -> (r: Point)
    requires
        offset_ok(agent),
        offset_ok(current),
        offset_ok(next),
        offset_ok(current_offset),
        offset_ok(next_offset),
    ensures
        r.x as int == strategy_vector(s, agent, current, next, current_offset, next_offset).0,
        r.y as int == strategy_vector(s, agent, current, next, current_offset, next_offset).1,
        -4 * COORD_LIMIT <= r.x <= 4 * COORD_LIMIT,
        -4 * COORD_LIMIT <= r.y <= 4 * COORD_LIMIT,
{
    let (to, from) = match s {
        PathFollowingStrategy::CurrentNodeToNextNode => (next, current),
        PathFollowingStrategy::CurrentNodeOffsetToNextNodeOffset => (next_offset, current_offset),
        PathFollowingStrategy::AgentToCurrentNode => (current, agent),
        PathFollowingStrategy::AgentToCurrentNodeOffset => (current_offset, agent),
        PathFollowingStrategy::AgentToNextNode => (next, agent),
        PathFollowingStrategy::AgentToNextNodeOffset => (next_offset, agent),
        _ => (agent, agent),
    };
    Point { x: to.x - from.x, y: to.y - from.y }
}

/// `pos` moved out along `normal` (which is `UNIT` long) by `radius`.
pub open spec fn offset_point(pos: Point, normal: Point, radius: int) -> Point {
    Point {
        x: (pos.x + (normal.x * radius) / UNIT as int) as i64,
        y: (pos.y + (normal.y * radius) / UNIT as int) as i64,
    }
}

fn offset_point_of(pos: Point, normal: Point, radius: i64) -> (r: Point)
    requires
        in_bounds(pos),
        -UNIT <= normal.x <= UNIT,
        -UNIT <= normal.y <= UNIT,
        0 <= radius <= COORD_LIMIT,
    ensures
        r == offset_point(pos, normal, radius as int),
        offset_ok(r),
{
    let ox = scaled_by_unit(normal.x, radius);
    let oy = scaled_by_unit(normal.y, radius);
    Point { x: (pos.x as i128 + ox) as i64, y: (pos.y as i128 + oy) as i64 }
}

/// `n * radius / UNIT` rounded down, for `|n| <= UNIT`: at most `radius` in size.
fn scaled_by_unit(n: i64, radius: i64) -> (r: i128)
    requires
        -UNIT <= n <= UNIT,
        0 <= radius <= COORD_LIMIT,
    ensures
        r as int == (n * radius) as int / UNIT as int,
        -radius <= r <= radius,
{
    assert(-1000 * radius <= n * radius <= 1000 * radius) by (nonlinear_arith)
        requires
            -1000 <= n <= 1000,
            0 <= radius,
    ;
    assert(-1_000_000_000_000 <= n * radius <= 1_000_000_000_000);
    let r = div_floor(n as i128 * radius as i128, UNIT as i128);
    proof {
        let num = (n * radius) as int;
        vstd::arithmetic::div_mod::lemma_fundamental_div_mod(num, UNIT as int);
        let q = num / (UNIT as int);
        let m = num % (UNIT as int);
        assert(-radius <= q <= radius) by (nonlinear_arith)
            requires
                num == UNIT * q + m,
                0 <= m < UNIT,
                -1000 * radius <= num <= 1000 * radius,
                UNIT == 1000,
        ;
    }
    r
}

/// Launch velocity of the minimum-energy jump over `(dx, dy)`: horizontally
/// `dx / t`, vertically `(dy + |d|) / t`, where the flight time `t` satisfies
/// `t^2 = 2 |d| / g`; zero for a zero displacement.
pub open spec fn launch_velocity(dx: int, dy: int) -> (int, int) {
    let l = sqrt_floor(dx * dx + dy * dy);
    let g = GRAVITY_STRENGTH as int;
    if l == 0 {
        (0, 0)
    } else {
        let vx = sqrt_floor((dx * dx * g) / (2 * l));
        let vy = sqrt_floor(((dy + l) * (dy + l) * g) / (2 * l));
        (if dx < 0 {
            -vx
        } else {
            vx
        }, vy)
    }
}

/// The launch velocity of the minimum-energy jump over `delta`.
pub fn jump_launch_velocity(delta: Point) -> (r: Point)
    requires
        -2 * COORD_LIMIT <= delta.x <= 2 * COORD_LIMIT,
        -2 * COORD_LIMIT <= delta.y <= 2 * COORD_LIMIT,
    ensures
        r.x as int == launch_velocity(delta.x as int, delta.y as int).0,
        r.y as int == launch_velocity(delta.x as int, delta.y as int).1,
{
    let dx = delta.x as i128;
    let dy = delta.y as i128;
    assert(0 <= dx * dx <= 0x4000_0000_0000_0000 && 0 <= dy * dy <= 0x4000_0000_0000_0000) by (nonlinear_arith)
        requires
            -0x8000_0000 <= dx <= 0x8000_0000,
            -0x8000_0000 <= dy <= 0x8000_0000,
    ;
    let l = isqrt((dx * dx + dy * dy) as u128) as i128;
    if l == 0 {
        return Point { x: 0, y: 0 };
    }
    proof {
        assert(l <= 0x1_0000_0000) by {
            if l > 0x1_0000_0000 {
                assert(l * l > 0x1_0000_0000 * 0x1_0000_0000) by (nonlinear_arith)
                    requires
                        l > 0x1_0000_0000,
                ;
            }
        }
        crate::geometry::lemma_abs_le_sqrt(dy as int, dx as int, l as int);
        assert(0 <= (dy + l) * (dy + l) <= 0x4_0000_0000_0000_0000) by (nonlinear_arith)
            requires
                0 <= dy + l <= 0x2_0000_0000,
        ;
    }
    let g = GRAVITY_STRENGTH as i128;
    let hx = (dx * dx * g) / (2 * l);
    let hy = ((dy + l) * (dy + l) * g) / (2 * l);
    proof {
        assert(0 <= hx <= dx * dx * g) by {
            vstd::arithmetic::div_mod::lemma_div_is_ordered_by_denominator(dx * dx * g, 1, 2 * l);
        }
        assert(0 <= hy <= (dy + l) * (dy + l) * g) by {
            vstd::arithmetic::div_mod::lemma_div_is_ordered_by_denominator((dy + l) * (dy + l) * g, 1, 2 * l);
        }
    }
    let vx = isqrt(hx as u128) as i64;
    let vy = isqrt(hy as u128) as i64;
    Point { x: if dx < 0 { -vx } else { vx }, y: vy }
}

/// The node `path[idx]` has a jump connection to `path[idx + 1]`.
fn has_jump_to(node_conns: &Vec<PathfindingGraphConnection>, target: usize) -> (r: bool)
    ensures
        r == conn_to(node_conns@, target as int),
{
    let mut k: usize = 0;
    while k < node_conns.len()
        invariant
            k <= node_conns@.len(),
            forall|q: int| 0 <= q < k ==> node_conns@[q].node_id != target,
        decreases node_conns@.len() - k,
    {
        if node_conns[k].node_id == target {
            return true;
        }
        k = k + 1;
    }
    false
}

pub open spec fn no_move() -> MoveInputs {
    MoveInputs {
        move_dir: Point { x: 0, y: 0 },
        jump_velocity: Point { x: 0, y: 0 },
        jump_from_node: Option::None,
        jump_to_node: Option::None,
    }
}

/// What the controller decides for an agent at `agent` following `path` from
/// index `idx`: nothing unless a current and a next node exist; else the aim of
/// `strategy_for`, and a jump when that aim is the next node across a jump
/// connection.
pub open spec fn steering(
    graph: &PathfindingGraph,
    agent: Point,
    physics: Physics,
    path: Seq<PathNode>,
    idx: int,
) -> MoveInputs {
    if 0 <= idx && idx + 1 < path.len() {
        let cur = path[idx];
        let next = path[idx + 1];
        let cn = graph.nodes@[cur.id as int];
        let nn = graph.nodes@[next.id as int];
        let cur_off = offset_point(cur.position, cn.normal, physics.radius as int);
        let next_off = offset_point(next.position, nn.normal, physics.radius as int);
        let falling = physics.normal == Point { x: 0, y: 0 };
        let is_jump = conn_to(cn.jumpable_connections@, next.id as int);
        let on_wall = physics.normal.y > WALL_NORMAL_Y_THRESHOLD;
        let passing = other_side_next_frame(agent, physics.velocity, cur.position, on_wall);
        let still = sq_len(physics.velocity.x as int, physics.velocity.y as int)
            < VELOCITY_MAGNITUDE_THRESHOLD;
        let is_corner = cn.is_external_corner is Some;
        let ahead = sq_dist(agent, next_off) <= sq_dist(cur_off, next_off);
        let s = strategy_for(falling, is_jump, passing || still, is_corner, ahead);
        let v = strategy_vector(s, agent, cur.position, next.position, cur_off, next_off);
        let dir = unit_scaled(v.0, v.1);
        let jumping = (s == PathFollowingStrategy::AgentToNextNodeOffset || s
            == PathFollowingStrategy::AgentToNextNode) && is_jump;
        let jv = launch_velocity(next.position.x - cur.position.x, next.position.y - cur.position.y);
        MoveInputs {
            move_dir: Point { x: dir.0 as i64, y: dir.1 as i64 },
            jump_velocity: if jumping {
                Point { x: jv.0 as i64, y: jv.1 as i64 }
            } else {
                Point { x: 0, y: 0 }
            },
            jump_from_node: if jumping {
                Option::Some(cur_off)
            } else {
                Option::None
            },
            jump_to_node: if jumping {
                Option::Some(next_off)
            } else {
                Option::None
            },
        }
    } else {
        no_move()
    }
}

fn steer(
    graph: &PathfindingGraph,
    agent_position: Point,
    agent_physics: &Physics,
    path: &Vec<PathNode>,
    current_idx: usize,
) -> (r: MoveInputs)
    requires
        graph.well_formed(),
        path_ok(graph, path@),
        in_bounds(agent_position),
        physics_ok(*agent_physics),
    ensures
        r == steering(graph, agent_position, *agent_physics, path@, current_idx as int),
{
    if !(current_idx < path.len() && path.len() - 1 > current_idx) {
        return MoveInputs {
            move_dir: Point { x: 0, y: 0 },
            jump_velocity: Point { x: 0, y: 0 },
            jump_from_node: None,
            jump_to_node: None,
        };
    }
    let cur = path[current_idx];
    let next = path[current_idx + 1];
    proof {
        assert(path@[current_idx as int].id < graph.nodes@.len());
        assert(path@[current_idx + 1].id < graph.nodes@.len());
        assert(node_ok(graph.nodes@[cur.id as int], cur.id as int, graph.nodes@.len() as int));
        assert(node_ok(graph.nodes@[next.id as int], next.id as int, graph.nodes@.len() as int));
    }
    let cur_node = &graph.nodes[cur.id];
    let next_node = &graph.nodes[next.id];
    let offset_current_node = offset_point_of(cur.position, cur_node.normal, agent_physics.radius);
    let offset_next_node = offset_point_of(next.position, next_node.normal, agent_physics.radius);
    let agent_on_wall = agent_physics.normal.y > WALL_NORMAL_Y_THRESHOLD;
    let is_jumpable_connection = has_jump_to(&cur_node.jumpable_connections, next.id);
    let falling = agent_physics.normal.x == 0 && agent_physics.normal.y == 0;
    let passing = agent_on_other_side_next_frame(agent_position, agent_physics.velocity, cur.position, agent_on_wall);
    let vx = agent_physics.velocity.x as i128;
    let vy = agent_physics.velocity.y as i128;
    assert(0 <= vx * vx <= 0x1_0000_0000_0000_0000 && 0 <= vy * vy <= 0x1_0000_0000_0000_0000) by (nonlinear_arith)
        requires
            -0x1_0000_0000 <= vx <= 0x1_0000_0000,
            -0x1_0000_0000 <= vy <= 0x1_0000_0000,
    ;
    let still = ((vx * vx + vy * vy) as u128) < VELOCITY_MAGNITUDE_THRESHOLD;
    let is_corner = cur_node.is_external_corner.is_some();
    let ahead = squared_distance(agent_position, offset_next_node) <= squared_distance(offset_current_node, offset_next_node);
    let strategy = choose_path_following_strategy(falling, is_jumpable_connection, passing || still, is_corner, ahead);
    let v = strategy_displacement(strategy, agent_position, cur.position, next.position, offset_current_node, offset_next_node);
    let move_dir = normalize_or_zero(v);
    let jumping = (strategy == PathFollowingStrategy::AgentToNextNodeOffset || strategy
        == PathFollowingStrategy::AgentToNextNode) && is_jumpable_connection;
    if jumping {
        let jump_velocity = jump_launch_velocity(Point { x: next.position.x - cur.position.x, y: next.position.y - cur.position.y });
        MoveInputs {
            move_dir,
            jump_velocity,
            jump_from_node: Some(offset_current_node),
            jump_to_node: Some(offset_next_node),
        }
    } else {
        MoveInputs {
            move_dir,
            jump_velocity: Point { x: 0, y: 0 },
            jump_from_node: None,
            jump_to_node: None,
        }
    }
}

/// One tick of the controller: searches a new path when `needs_replan` says
/// so (and then starts it from its first node), steers along the path (see
/// `steering`), and moves the path index past the nodes the agent has reached.
pub fn get_move_inputs(
    pathfinding: &PathfindingGraph,
    agent_position: Point,
    agent_physics: &Physics,
    platformer_ai: &mut PlatformerAI,
    goal_position: Point,
) -> (r: MoveInputs)
    requires
        pathfinding.well_formed(),
        old(platformer_ai).well_formed(pathfinding),
        in_bounds(agent_position),
        in_bounds(goal_position),
        physics_ok(*agent_physics),
    ensures
        final(platformer_ai).well_formed(pathfinding),
        needs_replan(old(platformer_ai), agent_position, goal_position) ==> {
            &&& path_search_result(pathfinding, agent_position, goal_position, final(platformer_ai).cached_path)
            &&& final(platformer_ai).last_goal_position == Some(goal_position)
            &&& r == match final(platformer_ai).cached_path {
                Option::Some(p) => steering(pathfinding, agent_position, *agent_physics, p@, 0),
                Option::None => no_move(),
            }
            &&& final(platformer_ai).current_path_index == match final(platformer_ai).cached_path {
                Option::Some(p) => advanced_index(p@, agent_position, 0),
                Option::None => 0,
            }
        },
        !needs_replan(old(platformer_ai), agent_position, goal_position) ==> {
            &&& final(platformer_ai).cached_path == old(platformer_ai).cached_path
            &&& final(platformer_ai).last_goal_position == old(platformer_ai).last_goal_position
            &&& r == match old(platformer_ai).cached_path {
                Option::Some(p) => steering(
                    pathfinding,
                    agent_position,
                    *agent_physics,
                    p@,
                    old(platformer_ai).current_path_index as int,
                ),
                Option::None => no_move(),
            }
            &&& final(platformer_ai).current_path_index == match old(platformer_ai).cached_path {
                Option::Some(p) => advanced_index(
                    p@,
                    agent_position,
                    old(platformer_ai).current_path_index as int,
                ),
                Option::None => old(platformer_ai).current_path_index as int,
            }
        },
{
    let replan = should_recalculate_path(platformer_ai, agent_position, goal_position, pathfinding);
    if replan {
        let new_path = find_path(pathfinding, agent_position, goal_position);
        proof {
            if new_path is Some {
                let p = new_path.unwrap();
                assert forall|k: int| 0 <= k < p@.len() implies (#[trigger] p@[k]).id
                    < pathfinding.nodes@.len() && p@[k].position == pathfinding.nodes@[p@[k].id as int].position by {
                    crate::a_star::lemma_search_result_path_ok(pathfinding, agent_position, goal_position, new_path, k);
                }
            }
        }
        platformer_ai.cached_path = new_path;
        platformer_ai.last_goal_position = Some(goal_position);
        platformer_ai.current_path_index = 0;
    }
    let r = match &platformer_ai.cached_path {
        Some(path) => steer(pathfinding, agent_position, agent_physics, path, platformer_ai.current_path_index),
        None => MoveInputs {
            move_dir: Point { x: 0, y: 0 },
            jump_velocity: Point { x: 0, y: 0 },
            jump_from_node: None,
            jump_to_node: None,
        },
    };
    advance_path_index(platformer_ai, agent_position, pathfinding);
    r
}

/// The replanning rule, stated for an agent with a cached path and a recorded
/// goal: the path is searched again exactly when the goal has moved by more
/// than the goal threshold or the agent has strayed from its current path node
/// by more than the deviation threshold.
pub proof fn lemma_replan_triggers(ai: &PlatformerAI, agent: Point, goal: Point)
    requires
        ai.cached_path is Some,
        ai.current_path_index < ai.cached_path.unwrap()@.len(),
        ai.last_goal_position is Some,
    ensures
        needs_replan(ai, agent, goal) <==> (sq_dist(ai.last_goal_position.unwrap(), goal)
            > GOAL_CHANGE_THRESHOLD_SQ || sq_dist(
            ai.cached_path.unwrap()@[ai.current_path_index as int].position,
            agent,
        ) > PATH_DEVIATION_THRESHOLD_SQ),
{
}

} // verus!
