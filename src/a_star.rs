//! A* search over the navigation graph with a platformer-aware cost model.
use vstd::prelude::*;
use vstd::set_lib::{lemma_int_range, lemma_len_subset, set_int_range};
use crate::geometry::{Point, in_bounds, is_sqrt_floor, isqrt, sq_dist, squared_distance};
use crate::graph::{
    PathfindingGraph, PathfindingGraphConnection, PathfindingGraphNode, MAX_WEIGHT, conns_ok,
    nodes_ok, node_ok,
};

verus! {

/// Largest cost one connection adds: its distance plus its effort.
pub const STEP_COST: u128 = 0x800_0000_0000;

/// A node of a path: its id and where it stands.
#[derive(Clone, Copy, Debug, PartialEq, Eq, Structural)]
pub struct PathNode {
    pub id: usize,
    pub position: Point,
}

impl PathNode {
    /// The path entry for node `id` at `position`.
    pub fn new(id: usize, position: Point) -> (r: PathNode)
        ensures
            r.id == id,
            r.position == position,
    {
        PathNode { id, position }
    }
}

/// An entry of the open list: a node reached with cost `g_cost` through `parent`.
#[derive(Clone, Copy, Debug)]
pub struct AStarNode {
    pub position: Point,
    pub id: usize,
    pub g_cost: u128,
    pub h_cost: u128,
    pub parent: Option<usize>,
}

impl AStarNode {
    /// A fresh entry for `graph_node`, with zero costs and no parent.
    pub fn new(graph_node: &PathfindingGraphNode) -> (r: AStarNode)
        ensures
            r.position == graph_node.position,
            r.id == graph_node.id,
            r.g_cost == 0,
            r.h_cost == 0,
            r.parent is None,
    {
        AStarNode { position: graph_node.position, id: graph_node.id, g_cost: 0, h_cost: 0, parent: None }
    }

    /// The priority of the entry: cost so far plus estimate.
    pub fn get_f_cost(&self) -> (r: u128)
        requires
            self.g_cost + self.h_cost <= u128::MAX,
        ensures
            r == self.g_cost + self.h_cost,
    {
        self.g_cost + self.h_cost
    }
}

/// Whether `a` is popped no later than `b`: lower `f`, then lower `h`, then lower `g`.
pub open spec fn popped_before(a: AStarNode, b: AStarNode) -> bool {
    let fa = a.g_cost + a.h_cost;
    let fb = b.g_cost + b.h_cost;
    fa < fb || (fa == fb && (a.h_cost < b.h_cost || (a.h_cost == b.h_cost && a.g_cost
        <= b.g_cost)))
}

/// The squared estimate: four times `dx^2 + v^2`, where `v` is the rise weighted
/// by one and a half, or the drop unweighted.
pub open spec fn heuristic_sq(from: Point, to: Point) -> int {
    let dx = to.x - from.x;
    let dy = to.y - from.y;
    if dy > 0 {
        4 * dx * dx + 9 * dy * dy
    } else {
        4 * dx * dx + 4 * dy * dy
    }
}

/// `h` is the estimate from `from` to `to`: `sqrt(heuristic_sq) / 2`, rounded down.
pub open spec fn is_heuristic(from: Point, to: Point, h: int) -> bool {
    is_sqrt_floor(heuristic_sq(from, to), 2 * h) || is_sqrt_floor(heuristic_sq(from, to), 2 * h + 1)
}

/// Estimated cost from `from` to `to`; climbing counts half as much again as walking.
pub fn calculate_heuristic(from: Point, to: Point) -> (r: u128)
    requires
        in_bounds(from),
        in_bounds(to),
    ensures
        is_heuristic(from, to, r as int),
        r < 0x4_0000_0000_0000,
{
    let dx: i128 = to.x as i128 - from.x as i128;
    let dy: i128 = to.y as i128 - from.y as i128;
    assert(0 <= dx * dx <= 0x100_0000_0000_0000_0000) by (nonlinear_arith)
        requires
            -0x1_0000_0000 <= dx <= 0x1_0000_0000,
    ;
    assert(0 <= dy * dy <= 0x100_0000_0000_0000_0000) by (nonlinear_arith)
        requires
            -0x1_0000_0000 <= dy <= 0x1_0000_0000,
    ;
    let sq: i128 = if dy > 0 {
        4 * (dx * dx) + 9 * (dy * dy)
    } else {
        4 * (dx * dx) + 4 * (dy * dy)
    };
    assert(sq == heuristic_sq(from, to)) by (nonlinear_arith)
        requires
            dx == to.x - from.x,
            dy == to.y - from.y,
            sq == if dy > 0 {
                4 * (dx * dx) + 9 * (dy * dy)
            } else {
                4 * (dx * dx) + 4 * (dy * dy)
            },
    ;
    let s = isqrt(sq as u128);
    (s / 2) as u128
}

/// There is a connection of any kind from node `u` to node `v`.
pub open spec fn has_edge(nodes: Seq<PathfindingGraphNode>, u: int, v: int) -> bool {
    0 <= u < nodes.len() && (conn_to(nodes[u].walkable_connections@, v) || conn_to(
        nodes[u].jumpable_connections@,
        v,
    ) || conn_to(nodes[u].droppable_connections@, v))
}

/// Some connection of `cs` leads to `v`.
pub open spec fn conn_to(cs: Seq<PathfindingGraphConnection>, v: int) -> bool {
    exists|k: int| 0 <= k < cs.len() && cs[k].node_id == v
}

/// `w` is a sequence of nodes, each connected to the next.
pub open spec fn is_walk(nodes: Seq<PathfindingGraphNode>, w: Seq<int>) -> bool {
    &&& w.len() >= 1
    &&& forall|i: int| 0 <= i < w.len() ==> 0 <= #[trigger] w[i] < nodes.len()
    &&& forall|i: int| 0 <= i < w.len() - 1 ==> #[trigger] has_edge(nodes, w[i], w[i + 1])
}

/// Node `v` can be reached from node `u` along connections.
pub open spec fn reachable(nodes: Seq<PathfindingGraphNode>, u: int, v: int) -> bool {
    exists|w: Seq<int>| is_walk(nodes, w) && w[0] == u && w.last() == v
}

/// `p` leads from node `start` (left out of `p`) along connections, and each of
/// its entries carries its node's position.
pub open spec fn path_follows(
    nodes: Seq<PathfindingGraphNode>,
    start: int,
    p: Seq<PathNode>,
) -> bool {
    &&& p.len() >= 1
    &&& has_edge(nodes, start, p[0].id as int)
    &&& forall|i: int| 0 <= i < p.len() - 1 ==> #[trigger] has_edge(nodes, p[i].id as int, p[i + 1].id as int)
    &&& forall|i: int|
        0 <= i < p.len() ==> (#[trigger] p[i]).id < nodes.len() && p[i].position
            == nodes[p[i].id as int].position
}

/// No node appears twice in `p`, and `start` not at all.
pub open spec fn path_simple(start: int, p: Seq<PathNode>) -> bool {
    &&& forall|i: int, j: int| 0 <= i < j < p.len() ==> (#[trigger] p[i]).id != (#[trigger] p[j]).id
    &&& forall|i: int| 0 <= i < p.len() ==> (#[trigger] p[i]).id != start
}

/// A path that follows the graph shows that its last node is reachable.
pub proof fn lemma_path_reaches(nodes: Seq<PathfindingGraphNode>, start: int, p: Seq<PathNode>)
    requires
        path_follows(nodes, start, p),
    ensures
        reachable(nodes, start, p.last().id as int),
{
    let w = seq![start] + p.map_values(|n: PathNode| n.id as int);
    assert(w.len() == p.len() + 1);
    assert forall|i: int| 0 <= i < w.len() implies 0 <= #[trigger] w[i] < nodes.len() by {
        if i > 0 {
            assert(w[i] == p[i - 1].id);
        }
    }
    assert forall|i: int| 0 <= i < w.len() - 1 implies #[trigger] has_edge(nodes, w[i], w[i + 1]) by {
        if i > 0 {
            let j = i - 1;
            assert(w[i] == p[j].id);
            assert(w[i + 1] == p[j + 1].id);
            assert(has_edge(nodes, p[j].id as int, p[j + 1].id as int));
        } else {
            assert(w[1] == p[0].id);
        }
    }
    assert(w.last() == p.last().id);
}

/// A set of nodes that holds `start` and every successor of its members holds
/// every node reachable from `start`.
proof fn lemma_closed_under_successors(
    nodes: Seq<PathfindingGraphNode>,
    closed: Seq<bool>,
    start: int,
    v: int,
)
    requires
        closed.len() == nodes.len(),
        0 <= start < nodes.len(),
        closed[start],
        forall|u: int, x: int|
            0 <= u < nodes.len() && closed[u] && #[trigger] has_edge(nodes, u, x) ==> 0 <= x
                < nodes.len() && closed[x],
        reachable(nodes, start, v),
    ensures
        closed[v],
{
    let w = choose|w: Seq<int>| is_walk(nodes, w) && w[0] == start && w.last() == v;
    lemma_walk_stays_closed(nodes, closed, w, w.len() - 1);
}

proof fn lemma_walk_stays_closed(
    nodes: Seq<PathfindingGraphNode>,
    closed: Seq<bool>,
    w: Seq<int>,
    i: int,
)
    requires
        is_walk(nodes, w),
        closed.len() == nodes.len(),
        closed[w[0]],
        0 <= i < w.len(),
        forall|u: int, x: int|
            0 <= u < nodes.len() && closed[u] && #[trigger] has_edge(nodes, u, x) ==> 0 <= x
                < nodes.len() && closed[x],
    ensures
        closed[w[i]],
    decreases i,
{
    if i > 0 {
        lemma_walk_stays_closed(nodes, closed, w, i - 1);
        let j = i - 1;
        assert(has_edge(nodes, w[j], w[j + 1]));
    }
}

/// Some entry of the open list is for node `v`.
pub open spec fn open_has(open: Seq<AStarNode>, v: int) -> bool {
    exists|j: int| 0 <= j < open.len() && open[j].id == v
}

proof fn lemma_open_has_grows(a: Seq<AStarNode>, b: Seq<AStarNode>, x: int)
    requires
        a.len() <= b.len(),
        forall|j: int| 0 <= j < a.len() ==> b[j] == a[j],
        open_has(a, x),
    ensures
        open_has(b, x),
{
    let j = choose|j: int| 0 <= j < a.len() && a[j].id == x;
    assert(b[j] == a[j]);
}

/// Index of the entry of `open` to expand next: the first of the best.
fn best_index(open: &Vec<AStarNode>) -> (r: usize)
    requires
        open@.len() > 0,
        forall|j: int|
            0 <= j < open@.len() ==> (#[trigger] open@[j]).g_cost < 0x1_0000_0000_0000_0000_0000_0000_0000
                && open@[j].h_cost < 0x1_0000_0000_0000_0000_0000_0000_0000,
    ensures
        r < open@.len(),
        forall|j: int| 0 <= j < open@.len() ==> popped_before(open@[r as int], #[trigger] open@[j]),
        forall|j: int| 0 <= j < r ==> !popped_before(#[trigger] open@[j], open@[r as int]),
{
    let mut best: usize = 0;
    let mut i: usize = 1;
    while i < open.len()
        invariant
            0 <= best < i <= open@.len(),
            forall|j: int|
                0 <= j < open@.len() ==> (#[trigger] open@[j]).g_cost
                    < 0x1_0000_0000_0000_0000_0000_0000_0000 && open@[j].h_cost
                    < 0x1_0000_0000_0000_0000_0000_0000_0000,
            forall|j: int| 0 <= j < i ==> popped_before(open@[best as int], #[trigger] open@[j]),
            forall|j: int| 0 <= j < best ==> !popped_before(#[trigger] open@[j], open@[best as int]),
        decreases open@.len() - i,
    {
        let b = open[best];
        let c = open[i];
        let fb = b.g_cost + b.h_cost;
        let fc = c.g_cost + c.h_cost;
        if fc < fb || (fc == fb && (c.h_cost < b.h_cost || (c.h_cost == b.h_cost && c.g_cost
            < b.g_cost))) {
            best = i;
        }
        i = i + 1;
    }
    best
}

/// Pushes an entry for every connection of `conns` that leads to an open node.
fn push_successors(
    graph: &PathfindingGraph,
    closed: &Vec<bool>,
    current: AStarNode,
    conns: &Vec<PathfindingGraphConnection>,
    goal_position: Point,
    open: &mut Vec<AStarNode>,
    bound: Ghost<int>,
)
    requires
        graph.well_formed(),
        closed@.len() == graph.nodes@.len(),
        conns_ok(conns@, graph.nodes@.len() as int),
        current.id < graph.nodes@.len(),
        current.g_cost + STEP_COST <= bound@,
        bound@ < 0x1_0000_0000_0000_0000_0000_0000_0000,
        in_bounds(goal_position),
        forall|j: int|
            0 <= j < old(open)@.len() ==> (#[trigger] old(open)@[j]).g_cost <= bound@,
    ensures
        final(open)@.len() >= old(open)@.len(),
        forall|j: int| 0 <= j < old(open)@.len() ==> final(open)@[j] == old(open)@[j],
        forall|j: int|
            old(open)@.len() <= j < final(open)@.len() ==> {
                let e = #[trigger] final(open)@[j];
                &&& e.id < graph.nodes@.len()
                &&& !closed@[e.id as int]
                &&& e.parent == Some(current.id)
                &&& conn_to(conns@, e.id as int)
                &&& e.position == graph.nodes@[e.id as int].position
                &&& e.h_cost < 0x4_0000_0000_0000
            },
        forall|j: int| 0 <= j < final(open)@.len() ==> (#[trigger] final(open)@[j]).g_cost <= bound@,
        forall|k: int|
            0 <= k < conns@.len() ==> closed@[(#[trigger] conns@[k]).node_id as int] || open_has(
                final(open)@,
                conns@[k].node_id as int,
            ),
{
    let ghost start_len = open@.len();
    let mut k: usize = 0;
    while k < conns.len()
        invariant
            graph.well_formed(),
            closed@.len() == graph.nodes@.len(),
            conns_ok(conns@, graph.nodes@.len() as int),
            current.g_cost + STEP_COST <= bound@,
            bound@ < 0x1_0000_0000_0000_0000_0000_0000_0000,
            in_bounds(goal_position),
            k <= conns@.len(),
            open@.len() >= start_len,
            start_len == old(open)@.len(),
            forall|j: int| 0 <= j < start_len ==> open@[j] == old(open)@[j],
            forall|j: int|
                start_len <= j < open@.len() ==> {
                    let e = #[trigger] open@[j];
                    &&& e.id < graph.nodes@.len()
                    &&& !closed@[e.id as int]
                    &&& e.parent == Some(current.id)
                    &&& conn_to(conns@, e.id as int)
                    &&& e.position == graph.nodes@[e.id as int].position
                    &&& e.h_cost < 0x4_0000_0000_0000
                },
            forall|j: int| 0 <= j < open@.len() ==> (#[trigger] open@[j]).g_cost <= bound@,
            forall|q: int|
                0 <= q < k ==> closed@[(#[trigger] conns@[q]).node_id as int] || open_has(
                    open@,
                    conns@[q].node_id as int,
                ),
        decreases conns@.len() - k,
    {
        let connection = conns[k];
        let target = connection.node_id;
        assert(conns@[k as int] == connection);
        if !closed[target] {
            proof {
                assert(node_ok(graph.nodes@[target as int], target as int, graph.nodes@.len() as int));
            }
            let target_node = &graph.nodes[target];
            let mut new_node = AStarNode::new(target_node);
            new_node.g_cost = current.g_cost + connection.dist as u128 + connection.effort as u128;
            new_node.h_cost = calculate_heuristic(new_node.position, goal_position);
            new_node.parent = Some(current.id);
            let ghost before = open@;
            open.push(new_node);
            proof {
                assert(open@[open@.len() - 1] == new_node);
                assert(open_has(open@, target as int));
                assert forall|q: int|
                    0 <= q < k implies closed@[(#[trigger] conns@[q]).node_id as int] || open_has(
                        open@,
                        conns@[q].node_id as int,
                    ) by {
                    if !closed@[conns@[q].node_id as int] {
                        let j = choose|j: int|
                            0 <= j < before.len() && before[j].id == conns@[q].node_id as int;
                        assert(open@[j] == before[j]);
                    }
                }
            }
        }
        k = k + 1;
    }
}

/// A lowest-cost search from node `start` to node `goal`. The path leaves out
/// `start` and ends at `goal`; there is none exactly when `goal` cannot be reached.
pub fn search_path(graph: &PathfindingGraph, start: usize, goal: usize, goal_position: Point) -> (r:
    Option<Vec<PathNode>>)
    requires
        graph.well_formed(),
        start < graph.nodes@.len(),
        goal < graph.nodes@.len(),
        start != goal,
        in_bounds(goal_position),
    ensures
        r is None <==> !reachable(graph.nodes@, start as int, goal as int),
        r matches Some(p) ==> path_follows(graph.nodes@, start as int, p@) && p@.last().id == goal
            && path_simple(start as int, p@),
{
    let n = graph.nodes.len();
    let ghost nodes = graph.nodes@;
    let mut closed: Vec<bool> = Vec::new();
    let mut came_from: Vec<Option<usize>> = Vec::new();
    let mut i: usize = 0;
    while i < n
        invariant
            i <= n,
            n == graph.nodes@.len(),
            closed@.len() == i,
            came_from@.len() == i,
            forall|j: int| 0 <= j < i ==> !closed@[j],
            forall|j: int| 0 <= j < i ==> came_from@[j] is None,
        decreases n - i,
    {
        closed.push(false);
        came_from.push(None);
        i = i + 1;
    }
    let ghost mut cset: Set<int> = Set::empty();
    let ghost mut order: Seq<int> = Seq::new(n as nat, |j: int| 0);
    let ghost mut clock: int = 0;
    proof {
        assert(node_ok(nodes[start as int], start as int, n as int));
        assert(node_ok(nodes[goal as int], goal as int, n as int));
    }
    let mut start_node = AStarNode::new(&graph.nodes[start]);
    start_node.h_cost = calculate_heuristic(start_node.position, goal_position);
    let mut open: Vec<AStarNode> = Vec::new();
    open.push(start_node);
    loop
        invariant
            graph.well_formed(),
            nodes == graph.nodes@,
            n == nodes.len(),
            start < n,
            goal < n,
            start != goal,
            in_bounds(goal_position),
            closed@.len() == n,
            came_from@.len() == n,
            order.len() == n,
            0 <= clock,
            forall|v: int| 0 <= v < n ==> 0 <= #[trigger] order[v] <= clock,
            forall|v: int| 0 <= v < n ==> (closed@[v] <==> #[trigger] cset.contains(v)),
            cset.subset_of(set_int_range(0, n as int)),
            cset.finite(),
            cset.len() <= n,
            !closed@[goal as int],
            came_from@[start as int] is None,
            !closed@[start as int] ==> open@.len() == 1 && open@[0].id == start
                && open@[0].parent is None && open@[0].g_cost == 0,
            forall|j: int|
                0 <= j < open@.len() ==> {
                    let e = #[trigger] open@[j];
                    &&& e.id < n
                    &&& e.g_cost <= cset.len() * STEP_COST
                    &&& e.h_cost < 0x4_0000_0000_0000
                    &&& e.position == nodes[e.id as int].position
                    &&& (e.parent is None ==> e.id == start)
                    &&& (e.parent matches Some(p) ==> p < n && closed@[p as int] && e.id != start
                        && has_edge(nodes, p as int, e.id as int))
                },
            forall|v: int|
                0 <= v < n && closed@[v] && v != start ==> {
                    &&& (#[trigger] came_from@[v]) matches Some(p)
                    &&& p < n
                    &&& closed@[p as int]
                    &&& has_edge(nodes, p as int, v)
                    &&& 0 <= order[p as int] < order[v]
                },
            forall|u: int, x: int|
                0 <= u < n && closed@[u] && #[trigger] has_edge(nodes, u, x) ==> closed@[x]
                    || open_has(open@, x),
        decreases n - cset.len(), open@.len(),
    {
        if open.len() == 0 {
            proof {
                if reachable(nodes, start as int, goal as int) {
                    lemma_closed_under_successors(nodes, closed@, start as int, goal as int);
                }
            }
            return None;
        }
        proof {
            assert forall|j: int| 0 <= j < open@.len() implies (#[trigger] open@[j]).g_cost
                < 0x1_0000_0000_0000_0000_0000_0000_0000 && open@[j].h_cost
                < 0x1_0000_0000_0000_0000_0000_0000_0000 by {
                assert(cset.len() * STEP_COST <= 0x1_0000_0000_0000_0000 * STEP_COST);
            }
        }
        let best = best_index(&open);
        let ghost before = open@;
        let current = open.remove(best);
        assert(current == before[best as int]);
        if closed[current.id] {
            proof {
                assert forall|u: int, x: int|
                    0 <= u < n && closed@[u] && #[trigger] has_edge(nodes, u, x) implies closed@[x]
                    || open_has(open@, x) by {
                    if !closed@[x] {
                        let j = choose|j: int| 0 <= j < before.len() && before[j].id == x;
                        if j < best {
                            assert(open@[j] == before[j]);
                        } else {
                            assert(j != best);
                            assert(open@[j - 1] == before[j]);
                        }
                    }
                }
            }
            continue;
        }
        if let Some(p) = current.parent {
            came_from.set(current.id, Some(p));
        }
        if current.id == goal {
            let p = match current.parent {
                Some(p) => p,
                None => {
                    assert(false);
                    0
                },
            };
            let mut path: Vec<PathNode> = Vec::new();
            path.push(PathNode::new(goal, current.position));
            let mut cur: usize = p;
            while cur != start
                invariant
                    graph.well_formed(),
                    nodes == graph.nodes@,
                    n == nodes.len(),
                    start < n,
                    goal < n,
                    cur < n,
                    closed@.len() == n,
                    came_from@.len() == n,
                    order.len() == n,
                    closed@[cur as int],
                    0 <= order[cur as int],
                    forall|v: int|
                        0 <= v < n && closed@[v] && v != start ==> {
                            &&& (#[trigger] came_from@[v]) matches Some(p)
                            &&& p < n
                            &&& closed@[p as int]
                            &&& has_edge(nodes, p as int, v)
                            &&& 0 <= order[p as int] < order[v]
                        },
                    path_follows(nodes, cur as int, path@),
                    path@.last().id == goal,
                    start != goal,
                    !closed@[goal as int],
                    forall|i: int|
                        0 <= i < path@.len() - 1 ==> closed@[(#[trigger] path@[i]).id as int]
                            && order[path@[i].id as int] > order[cur as int],
                    path_simple(start as int, path@),
                decreases order[cur as int],
            {
                assert(closed@[cur as int]);
                let prev = match came_from[cur] {
                    Some(q) => q,
                    None => {
                        assert(false);
                        0
                    },
                };
                let ghost old_path = path@;
                proof {
                    assert(node_ok(nodes[cur as int], cur as int, n as int));
                }
                path.insert(0, PathNode::new(cur, graph.nodes[cur].position));
                proof {
                    assert(path@ == old_path.insert(0, PathNode { id: cur, position: nodes[cur as int].position }));
                    assert forall|i: int| 0 <= i < path@.len() - 1 implies #[trigger] has_edge(
                        nodes,
                        path@[i].id as int,
                        path@[i + 1].id as int,
                    ) by {
                        if i > 0 {
                            let j = i - 1;
                            assert(path@[i] == old_path[j]);
                            assert(path@[i + 1] == old_path[j + 1]);
                            assert(has_edge(nodes, old_path[j].id as int, old_path[j + 1].id as int));
                        } else {
                            assert(path@[1] == old_path[0]);
                            assert(path@[0].id == cur);
                        }
                    }
                    assert forall|i: int| 0 <= i < path@.len() implies (#[trigger] path@[i]).id
                        < nodes.len() && path@[i].position == nodes[path@[i].id as int].position by {
                        if i > 0 {
                            assert(path@[i] == old_path[i - 1]);
                        }
                    }
                    assert forall|i: int| 0 <= i < path@.len() - 1 implies closed@[(#[trigger] path@[i]).id as int]
                        && order[path@[i].id as int] > order[prev as int] by {
                        if i > 0 {
                            assert(path@[i] == old_path[i - 1]);
                        }
                    }
                    assert forall|i: int, j: int| 0 <= i < j < path@.len() implies (#[trigger] path@[i]).id
                        != (#[trigger] path@[j]).id by {
                        if i == 0 {
                            assert(path@[j] == old_path[j - 1]);
                            if j - 1 < old_path.len() - 1 {
                                assert(order[old_path[j - 1].id as int] > order[cur as int]);
                            } else {
                                assert(old_path[j - 1].id == goal);
                            }
                        } else {
                            assert(path@[i] == old_path[i - 1]);
                            assert(path@[j] == old_path[j - 1]);
                        }
                    }
                    assert forall|i: int| 0 <= i < path@.len() implies (#[trigger] path@[i]).id != start by {
                        if i > 0 {
                            assert(path@[i] == old_path[i - 1]);
                        }
                    }
                }
                cur = prev;
            }
            proof {
                lemma_path_reaches(nodes, start as int, path@);
            }
            return Some(path);
        }
        closed.set(current.id, true);
        proof {
            lemma_int_range(0, n as int);
            cset = cset.insert(current.id as int);
            lemma_len_subset(cset, set_int_range(0, n as int));
            let old_order = order;
            order = order.update(current.id as int, clock + 1);
            clock = clock + 1;
            assert forall|v: int| 0 <= v < n implies 0 <= #[trigger] order[v] <= clock by {
                if v != current.id as int {
                    assert(order[v] == old_order[v]);
                }
            }
        }
        let current_graph_node = &graph.nodes[current.id];
        let ghost open1 = open@;
        let ghost bound = cset.len() * STEP_COST;
        proof {
            assert(cset.len() * STEP_COST <= 0x1_0000_0000_0000_0000 * STEP_COST);
            assert(node_ok(nodes[current.id as int], current.id as int, n as int));
        }
        push_successors(graph, &closed, current, &current_graph_node.walkable_connections, goal_position, &mut open, Ghost(bound));
        let ghost open2 = open@;
        push_successors(graph, &closed, current, &current_graph_node.jumpable_connections, goal_position, &mut open, Ghost(bound));
        let ghost open3 = open@;
        push_successors(graph, &closed, current, &current_graph_node.droppable_connections, goal_position, &mut open, Ghost(bound));
        proof {
            let v = current.id as int;
            let node = nodes[v];
            assert forall|u: int, x: int|
                0 <= u < n && closed@[u] && #[trigger] has_edge(nodes, u, x) implies closed@[x]
                || open_has(open@, x) by {
                if !closed@[x] {
                    if u == v {
                        if conn_to(node.walkable_connections@, x) {
                            let k = choose|k: int| 0 <= k < node.walkable_connections@.len() && node.walkable_connections@[k].node_id == x;
                            assert(open_has(open2, node.walkable_connections@[k].node_id as int));
                            lemma_open_has_grows(open2, open3, x);
                            lemma_open_has_grows(open3, open@, x);
                        } else if conn_to(node.jumpable_connections@, x) {
                            let k = choose|k: int| 0 <= k < node.jumpable_connections@.len() && node.jumpable_connections@[k].node_id == x;
                            assert(open_has(open3, node.jumpable_connections@[k].node_id as int));
                            lemma_open_has_grows(open3, open@, x);
                        } else {
                            let k = choose|k: int| 0 <= k < node.droppable_connections@.len() && node.droppable_connections@[k].node_id == x;
                            assert(open_has(open@, node.droppable_connections@[k].node_id as int));
                        }
                    } else {
                        assert(closed@[u]);
                        let j = choose|j: int| 0 <= j < before.len() && before[j].id == x;
                        if j < best {
                            assert(open1[j] == before[j]);
                            assert(open_has(open1, x));
                        } else {
                            assert(j != best);
                            assert(open1[j - 1] == before[j]);
                            assert(open_has(open1, x));
                        }
                        lemma_open_has_grows(open1, open2, x);
                        lemma_open_has_grows(open2, open3, x);
                        lemma_open_has_grows(open3, open@, x);
                    }
                }
            }
        }
    }
}

/// The nodes considered when snapping `pos`: those in the cells around it, or
/// every node when those cells are empty.
pub open spec fn snap_candidates(graph: &PathfindingGraph, pos: Point) -> Seq<usize> {
    if graph.nearby_spec(pos).len() > 0 {
        graph.nearby_spec(pos)
    } else {
        Seq::new(graph.nodes@.len(), |i: int| i as usize)
    }
}

pub open spec fn node_sq_dist(graph: &PathfindingGraph, id: usize, pos: Point) -> int {
    sq_dist(graph.nodes@[id as int].position, pos)
}

/// Candidate `k` is the first of those nearest to `pos`.
pub open spec fn is_goal_pick(graph: &PathfindingGraph, pos: Point, k: int) -> bool {
    let c = snap_candidates(graph, pos);
    &&& 0 <= k < c.len()
    &&& forall|j: int|
        0 <= j < c.len() ==> node_sq_dist(graph, #[trigger] c[j], pos) >= node_sq_dist(graph, c[k], pos)
    &&& forall|j: int|
        0 <= j < k ==> node_sq_dist(graph, #[trigger] c[j], pos) > node_sq_dist(graph, c[k], pos)
}

/// Node `a` is at least as good a start as node `b`: nearer to `start`, or as near
/// and no farther from `goal`.
pub open spec fn start_key_le(
    graph: &PathfindingGraph,
    a: usize,
    b: usize,
    start: Point,
    goal: Point,
) -> bool {
    node_sq_dist(graph, a, start) < node_sq_dist(graph, b, start) || (node_sq_dist(graph, a, start)
        == node_sq_dist(graph, b, start) && node_sq_dist(graph, a, goal) <= node_sq_dist(
        graph,
        b,
        goal,
    ))
}

/// Candidate `k` is the last of the best starts.
pub open spec fn is_start_pick(graph: &PathfindingGraph, start: Point, goal: Point, k: int) -> bool {
    let c = snap_candidates(graph, start);
    &&& 0 <= k < c.len()
    &&& forall|j: int| 0 <= j < c.len() ==> start_key_le(graph, c[k], #[trigger] c[j], start, goal)
    &&& forall|j: int| k < j < c.len() ==> !start_key_le(graph, #[trigger] c[j], c[k], start, goal)
}

/// `id` is the node that the goal position `pos` snaps to.
pub open spec fn goal_node_for(graph: &PathfindingGraph, pos: Point, id: usize) -> bool {
    exists|k: int| is_goal_pick(graph, pos, k) && snap_candidates(graph, pos)[k] == id
}

/// `id` is the node that the start position snaps to, given the goal.
pub open spec fn start_node_for(graph: &PathfindingGraph, start: Point, goal: Point, id: usize) -> bool {
    exists|k: int| is_start_pick(graph, start, goal, k) && snap_candidates(graph, start)[k] == id
}

/// The snapped goal node is determined by the graph and the position.
pub proof fn lemma_goal_pick_unique(graph: &PathfindingGraph, pos: Point, k1: int, k2: int)
    requires
        is_goal_pick(graph, pos, k1),
        is_goal_pick(graph, pos, k2),
    ensures
        k1 == k2,
{
    let c = snap_candidates(graph, pos);
    if k1 < k2 {
        assert(node_sq_dist(graph, c[k1], pos) > node_sq_dist(graph, c[k2], pos));
    } else if k2 < k1 {
        assert(node_sq_dist(graph, c[k2], pos) > node_sq_dist(graph, c[k1], pos));
    }
}

/// The snapped start node is determined by the graph and the two positions.
pub proof fn lemma_start_pick_unique(
    graph: &PathfindingGraph,
    start: Point,
    goal: Point,
    k1: int,
    k2: int,
)
    requires
        is_start_pick(graph, start, goal, k1),
        is_start_pick(graph, start, goal, k2),
    ensures
        k1 == k2,
{
    let c = snap_candidates(graph, start);
    if k1 < k2 {
        assert(!start_key_le(graph, c[k2], c[k1], start, goal));
        assert(start_key_le(graph, c[k2], c[k1], start, goal));
    } else if k2 < k1 {
        assert(!start_key_le(graph, c[k1], c[k2], start, goal));
        assert(start_key_le(graph, c[k1], c[k2], start, goal));
    }
}

fn snap_candidate_list(graph: &PathfindingGraph, pos: Point) -> (r: Vec<usize>)
    requires
        graph.well_formed(),
        in_bounds(pos),
    ensures
        r@ == snap_candidates(graph, pos),
        forall|k: int| 0 <= k < r@.len() ==> r@[k] < graph.nodes@.len(),
        graph.nodes@.len() > 0 ==> r@.len() > 0,
{
    let nearby = graph.get_nearby_node_indices(pos);
    if nearby.len() > 0 {
        nearby
    } else {
        let mut all: Vec<usize> = Vec::new();
        let mut i: usize = 0;
        while i < graph.nodes.len()
            invariant
                i <= graph.nodes@.len(),
                all@ == Seq::new(i as nat, |j: int| j as usize),
            decreases graph.nodes@.len() - i,
        {
            all.push(i);
            i = i + 1;
            assert(all@ =~= Seq::new(i as nat, |j: int| j as usize));
        }
        all
    }
}

/// The node nearest to `goal_position`; the first such candidate on ties.
pub fn get_goal_node_id(graph: &PathfindingGraph, goal_position: Point) -> (r: Option<usize>)
    requires
        graph.well_formed(),
        in_bounds(goal_position),
    ensures
        r is None <==> graph.nodes@.len() == 0,
        r matches Some(id) ==> id < graph.nodes@.len() && goal_node_for(graph, goal_position, id),
{
    let candidates = snap_candidate_list(graph, goal_position);
    let ghost c = candidates@;
    let mut best: Option<usize> = None;
    let mut best_dist: u128 = 0;
    let mut i: usize = 0;
    while i < candidates.len()
        invariant
            graph.well_formed(),
            in_bounds(goal_position),
            c == candidates@,
            c == snap_candidates(graph, goal_position),
            forall|k: int| 0 <= k < c.len() ==> c[k] < graph.nodes@.len(),
            i <= c.len(),
            i == 0 <==> best is None,
            best matches Some(b) ==> exists|k: int|
                0 <= k < i && c[k] == b && best_dist == node_sq_dist(graph, b, goal_position)
                    && (forall|j: int|
                    0 <= j < i ==> node_sq_dist(graph, #[trigger] c[j], goal_position) >= best_dist)
                    && (forall|j: int|
                    0 <= j < k ==> node_sq_dist(graph, #[trigger] c[j], goal_position) > best_dist),
        decreases c.len() - i,
    {
        let node_index = candidates[i];
        proof {
            assert(node_ok(graph.nodes@[node_index as int], node_index as int, graph.nodes@.len() as int));
        }
        let d = squared_distance(graph.nodes[node_index].position, goal_position);
        proof {
            assert(d == node_sq_dist(graph, node_index, goal_position)) by {
                assert(sq_dist(graph.nodes@[node_index as int].position, goal_position) == sq_dist(
                    goal_position,
                    graph.nodes@[node_index as int].position,
                )) by (nonlinear_arith);
            }
        }
        if best.is_none() || d < best_dist {
            best = Some(node_index);
            best_dist = d;
            proof {
                assert(c[i as int] == node_index);
            }
        }
        i = i + 1;
    }
    proof {
        if let Some(b) = best {
            let k = choose|k: int|
                0 <= k < i && c[k] == b && best_dist == node_sq_dist(graph, b, goal_position)
                    && (forall|j: int|
                    0 <= j < i ==> node_sq_dist(graph, #[trigger] c[j], goal_position) >= best_dist)
                    && (forall|j: int|
                    0 <= j < k ==> node_sq_dist(graph, #[trigger] c[j], goal_position) > best_dist);
            assert(is_goal_pick(graph, goal_position, k));
        }
    }
    best
}

/// The node nearest to `start_position`; on ties the one nearer to
/// `goal_position`, and the last such candidate after that.
pub fn get_start_node_id(graph: &PathfindingGraph, start_position: Point, goal_position: Point) -> (r:
    Option<usize>)
    requires
        graph.well_formed(),
        in_bounds(start_position),
        in_bounds(goal_position),
    ensures
        r is None <==> graph.nodes@.len() == 0,
        r matches Some(id) ==> id < graph.nodes@.len() && start_node_for(
            graph,
            start_position,
            goal_position,
            id,
        ),
{
    let candidates = snap_candidate_list(graph, start_position);
    let ghost c = candidates@;
    let mut best: Option<usize> = None;
    let mut best_dist: u128 = 0;
    let mut best_goal_dist: u128 = 0;
    let mut i: usize = 0;
    while i < candidates.len()
        invariant
            graph.well_formed(),
            in_bounds(start_position),
            in_bounds(goal_position),
            c == candidates@,
            c == snap_candidates(graph, start_position),
            forall|k: int| 0 <= k < c.len() ==> c[k] < graph.nodes@.len(),
            i <= c.len(),
            i == 0 <==> best is None,
            best matches Some(b) ==> exists|k: int|
                0 <= k < i && c[k] == b && best_dist == node_sq_dist(graph, b, start_position)
                    && best_goal_dist == node_sq_dist(graph, b, goal_position) && (forall|j: int|
                    0 <= j < i ==> start_key_le(
                        graph,
                        b,
                        #[trigger] c[j],
                        start_position,
                        goal_position,
                    )) && (forall|j: int|
                    k < j < i ==> !start_key_le(
                        graph,
                        #[trigger] c[j],
                        b,
                        start_position,
                        goal_position,
                    )),
        decreases c.len() - i,
    {
        let node_index = candidates[i];
        proof {
            assert(node_ok(graph.nodes@[node_index as int], node_index as int, graph.nodes@.len() as int));
        }
        let d = squared_distance(graph.nodes[node_index].position, start_position);
        let dg = squared_distance(graph.nodes[node_index].position, goal_position);
        proof {
            let p = graph.nodes@[node_index as int].position;
            assert(sq_dist(p, start_position) == sq_dist(start_position, p)) by (nonlinear_arith);
            assert(sq_dist(p, goal_position) == sq_dist(goal_position, p)) by (nonlinear_arith);
            assert(c[i as int] == node_index);
        }
        if best.is_none() || d < best_dist || (d == best_dist && dg <= best_goal_dist) {
            best = Some(node_index);
            best_dist = d;
            best_goal_dist = dg;
        }
        i = i + 1;
    }
    best
}

/// What a search between the snapped nodes `s` and `t` gives: no steps when they
/// are the same node, else a path exactly when `t` can be reached from `s`.
pub open spec fn path_outcome(
    nodes: Seq<PathfindingGraphNode>,
    s: usize,
    t: usize,
    r: Option<Vec<PathNode>>,
) -> bool {
    if s == t {
        r matches Some(p) && p@.len() == 0
    } else {
        &&& (r is None <==> !reachable(nodes, s as int, t as int))
        &&& (r matches Some(p) ==> path_follows(nodes, s as int, p@) && p@.last().id == t
            && path_simple(s as int, p@))
    }
}

/// What `find_path` gives: nothing on an empty graph; else, for the snapped
/// start node `s` and goal node `t`, the outcome of `path_outcome`.
pub open spec fn path_search_result(
    graph: &PathfindingGraph,
    start: Point,
    goal: Point,
    r: Option<Vec<PathNode>>,
) -> bool {
    &&& graph.nodes@.len() == 0 ==> r is None
    &&& graph.nodes@.len() > 0 ==> exists|s: usize, t: usize|
        start_node_for(graph, start, goal, s) && goal_node_for(graph, goal, t) && path_outcome(
            graph.nodes@,
            s,
            t,
            r,
        )
}

/// Every entry of a found path names a node and carries its position.
pub proof fn lemma_search_result_path_ok(
    graph: &PathfindingGraph,
    start: Point,
    goal: Point,
    r: Option<Vec<PathNode>>,
    k: int,
)
    requires
        path_search_result(graph, start, goal, r),
        r is Some,
        0 <= k < r.unwrap()@.len(),
    ensures
        r.unwrap()@[k].id < graph.nodes@.len(),
        r.unwrap()@[k].position == graph.nodes@[r.unwrap()@[k].id as int].position,
{
    let (s, t) = choose|s: usize, t: usize|
        start_node_for(graph, start, goal, s) && goal_node_for(graph, goal, t) && path_outcome(
            graph.nodes@,
            s,
            t,
            r,
        );
    let p = r.unwrap()@;
    assert(p[k] == p[k]);
}

/// A lowest-cost path from the node nearest `start_position` to the node
/// nearest `goal_position`.
pub fn find_path(pathfinding: &PathfindingGraph, start_position: Point, goal_position: Point) -> (r:
    Option<Vec<PathNode>>)
    requires
        pathfinding.well_formed(),
        in_bounds(start_position),
        in_bounds(goal_position),
    ensures
        path_search_result(pathfinding, start_position, goal_position, r),
{
    let goal_node_id = match get_goal_node_id(pathfinding, goal_position) {
        Some(t) => t,
        None => {
            return None;
        },
    };
    let start_node_id = match get_start_node_id(pathfinding, start_position, goal_position) {
        Some(s) => s,
        None => {
            return None;
        },
    };
    if start_node_id == goal_node_id {
        let empty: Vec<PathNode> = Vec::new();
        proof {
            assert(path_outcome(pathfinding.nodes@, start_node_id, goal_node_id, Some(empty)));
        }
        return Some(empty);
    }
    let r = search_path(pathfinding, start_node_id, goal_node_id, goal_position);
    proof {
        assert(path_outcome(pathfinding.nodes@, start_node_id, goal_node_id, r));
    }
    r
}

} // verus!
