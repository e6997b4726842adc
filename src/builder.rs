//! Construction of the navigation graph from level geometry.
use vstd::prelude::*;
use crate::geometry::{
    Point, in_bounds, sq_dist, sqrt_floor, isqrt, distance, div_floor, squared_distance,
};
use crate::graph::{
    PathfindingGraph, PathfindingGraphConnection, PathfindingGraphConnectionType,
    PathfindingGraphNode, MAX_WEIGHT, NodeView, nodes_view,
};
use crate::level::Level;
use crate::geometry::{UNIT, unit_scaled, scale_to_unit};
use crate::graph::{grid_key, conns_ok, conns_of_kind, cell_coord, cell_in_range, cell_key, cell_members, grid_ok, pack_cell_key, nodes_ok, node_ok, SPATIAL_CELL_SIZE};
use std::collections::HashMap;
use crate::trajectory::{
    jump_discriminant, jump_arc_blocked, drop_arc_blocked, jump_speed, segment_blocked_spec,
    valid_radius, jumpability_check, droppability_check, segment_blocked, owns_edge,
    capsule_blocked,
};

verus! {

broadcast use vstd::std_specs::hash::group_hash_axioms;

/// Nominal distance between neighbouring nodes on an edge.
pub const PATHFINDING_NODE_SPACING: i64 = 20_000;

/// Nodes closer than this (squared) are merged.
pub const MERGE_TOLERANCE_SQ: u128 = 1_000_000;

/// Number of equal segments an edge of squared length `l2` is cut into: the
/// least `n` with `n * spacing >= length`.
pub open spec fn is_segment_count(l2: int, n: int) -> bool {
    let s = PATHFINDING_NODE_SPACING as int;
    &&& n >= 0
    &&& (n * s) * (n * s) >= l2
    &&& (n == 0 || ((n - 1) * s) * ((n - 1) * s) < l2)
}

/// An edge carries nodes when it is not degenerate and its direction is not
/// more than slightly leftward (a unit direction with x above -0.1).
pub open spec fn edge_walkable(dx: int, dy: int) -> bool {
    let l2 = dx * dx + dy * dy;
    l2 > 0 && (dx >= 0 || 100 * dx * dx < l2)
}

/// Point `j` of `n` equally spaced points from `s` towards `e`, rounded down.
pub open spec fn edge_point(s: Point, e: Point, j: int, n: int) -> Point {
    Point { x: (s.x + ((e.x - s.x) * j) / n) as i64, y: (s.y + ((e.y - s.y) * j) / n) as i64 }
}

/// A walkable connection to `target` of length `dist`.
pub open spec fn walk_conn(target: int, dist: int) -> PathfindingGraphConnection {
    PathfindingGraphConnection {
        node_id: target as usize,
        dist: dist as u64,
        connection_type: PathfindingGraphConnectionType::Walkable,
        effort: 0,
    }
}

/// Node `i` as node placement leaves it: on one edge of its polygon, joined by
/// walkable connections to earlier nodes only, with no other connection yet.
pub open spec fn placed_node_ok(level: &Level, node: PathfindingGraphNode, i: int) -> bool {
    &&& node.id == i
    &&& in_bounds(node.position)
    &&& node.line_indicies@.len() == 1
    &&& level.has_edge(node.polygon_index as int, node.line_indicies@[0] as int)
    &&& forall|k: int|
        0 <= k < node.walkable_connections@.len() ==> {
            let c = #[trigger] node.walkable_connections@[k];
            &&& c.node_id < i
            &&& c == walk_conn(c.node_id as int, c.dist as int)
            &&& c.dist <= MAX_WEIGHT
        }
    &&& node.jumpable_connections@.len() == 0
    &&& node.droppable_connections@.len() == 0
    &&& node.normal == Point { x: 0, y: 0 }
    &&& !node.is_corner
    &&& node.is_external_corner is None
}

pub open spec fn placed_ok(level: &Level, nodes: Seq<PathfindingGraphNode>) -> bool {
    forall|i: int| 0 <= i < nodes.len() ==> placed_node_ok(level, #[trigger] nodes[i], i)
}

/// The least number of segments of length `PATHFINDING_NODE_SPACING` that cover
/// an edge of squared length `l2`.
fn segment_count(l2: u128) -> (n: u64)
    requires
        l2 < 0x1_0000_0000_0000_0000,
    ensures
        is_segment_count(l2 as int, n as int),
        n <= 0x1_0000_0000,
{
    let s: u64 = PATHFINDING_NODE_SPACING as u64;
    let r = isqrt(l2);
    let mut n: u64 = r / s;
    let ghost ri = r as int;
    let ghost si = s as int;
    let ghost q = ri / si;
    let ghost rem = ri % si;
    proof {
        assert(r <= 0x1_0000_0000) by {
            if r > 0x1_0000_0000 {
                assert(r * r > 0x1_0000_0000 * 0x1_0000_0000) by (nonlinear_arith)
                    requires
                        r > 0x1_0000_0000,
                ;
            }
        }
        vstd::arithmetic::div_mod::lemma_fundamental_div_mod(ri, si);
        assert(n as int == q);
        assert(0 <= q * si <= ri) by (nonlinear_arith)
            requires
                ri == si * q + rem,
                0 <= rem < si,
                q >= 0,
                si > 0,
        ;
        assert((q * si) * (q * si) <= ri * ri) by (nonlinear_arith)
            requires
                0 <= q * si <= ri,
        ;
        if q > 0 {
            assert(((q - 1) * si) * ((q - 1) * si) < (q * si) * (q * si)) by (nonlinear_arith)
                requires
                    q >= 1,
                    si > 0,
            ;
        }
        assert(q <= 0x1_0000_0000) by (nonlinear_arith)
            requires
                ri == si * q + rem,
                0 <= rem,
                si >= 1,
                q >= 0,
                ri <= 0x1_0000_0000,
        ;
    }
    loop
        invariant
            s == PATHFINDING_NODE_SPACING,
            si == s,
            ri == r,
            q <= n <= q + 2,
            q <= 0x1_0000_0000,
            ri == si * q + rem,
            0 <= rem < si,
            0 <= ri,
            ri * ri <= l2,
            l2 < (ri + 1) * (ri + 1),
            n == 0 || ((n - 1) * si) * ((n - 1) * si) < l2,
        ensures
            is_segment_count(l2 as int, n as int),
            n <= 0x1_0000_0002,
        decreases q + 2 - n,
    {
        proof {
            assert((n as int) * si * ((n as int) * si) < 0x1_0000_0000_0000_0000_0000_0000_0000)
                by (nonlinear_arith)
                requires
                    0 <= n <= 0x1_0000_0002,
                    si == 20_000,
            ;
        }
        let sq = ((n as u128) * (s as u128)) * ((n as u128) * (s as u128));
        if sq >= l2 {
            break;
        }
        proof {
            if n == q + 2 {
                let nn = n as int;
                assert((nn * si) * (nn * si) >= l2) by (nonlinear_arith)
                    requires
                        nn == q + 2,
                        ri == si * q + rem,
                        0 <= rem < si,
                        l2 < (ri + 1) * (ri + 1),
                        si > 0,
                        q >= 0,
                        ri >= 0,
                ;
            }
        }
        n = n + 1;
    }
    proof {
        if n > 0x1_0000_0000 {
            let nn = n as int;
            assert(((nn - 1) * si) * ((nn - 1) * si) >= 0x1_0000_0000_0000_0000) by (nonlinear_arith)
                requires
                    nn >= 0x1_0000_0001,
                    si == 20_000,
            ;
        }
    }
    n
}

/// `d * j / n` rounded down, where `0 <= j <= n`: between 0 and `d`.
fn edge_fraction(d: i128, j: i128, n: i128) -> (r: i128)
    requires
        -0x1_0000_0000 <= d <= 0x1_0000_0000,
        0 <= j <= n,
        0 < n <= 0x1_0000_0000,
    ensures
        r as int == (d * j) as int / n as int,
        d >= 0 ==> 0 <= r <= d,
        d < 0 ==> d <= r <= 0,
{
    assert(-0x1_0000_0000_0000_0000 <= d * j <= 0x1_0000_0000_0000_0000) by (nonlinear_arith)
        requires
            -0x1_0000_0000 <= d <= 0x1_0000_0000,
            0 <= j <= n,
            n <= 0x1_0000_0000,
    ;
    let r = div_floor(d * j, n);
    proof {
        let num = (d * j) as int;
        vstd::arithmetic::div_mod::lemma_fundamental_div_mod(num, n as int);
        let q = num / (n as int);
        let m = num % (n as int);
        if d >= 0 {
            assert(0 <= d * j <= d * n) by (nonlinear_arith)
                requires
                    d >= 0,
                    0 <= j <= n,
            ;
            assert(0 <= q <= d) by (nonlinear_arith)
                requires
                    num == n * q + m,
                    0 <= m < n,
                    0 <= num <= d * n,
                    n > 0,
            ;
        } else {
            assert(d * n <= d * j <= 0) by (nonlinear_arith)
                requires
                    d < 0,
                    0 <= j <= n,
            ;
            assert(d <= q <= 0) by (nonlinear_arith)
                requires
                    num == n * q + m,
                    0 <= m < n,
                    d * n <= num <= 0,
                    n > 0,
            ;
        }
    }
    r
}

fn edge_point_at(s: Point, e: Point, j: u64, n: u64) -> (r: Point)
    requires
        in_bounds(s),
        in_bounds(e),
        0 <= j <= n,
        0 < n <= 0x1_0000_0000,
    ensures
        r == edge_point(s, e, j as int, n as int),
        in_bounds(r),
{
    let dx: i128 = e.x as i128 - s.x as i128;
    let dy: i128 = e.y as i128 - s.y as i128;
    let x = s.x as i128 + edge_fraction(dx, j as i128, n as i128);
    let y = s.y as i128 + edge_fraction(dy, j as i128, n as i128);
    Point { x: x as i64, y: y as i64 }
}

fn new_placed_node(
    id: usize,
    position: Point,
    polygon_index: usize,
    line_index: usize,
) -> (r: PathfindingGraphNode)
    ensures
        r.id == id,
        r.position == position,
        r.polygon_index == polygon_index,
        r.line_indicies@ == seq![line_index],
        r.walkable_connections@.len() == 0,
        r.jumpable_connections@.len() == 0,
        r.droppable_connections@.len() == 0,
        r.normal == (Point { x: 0, y: 0 }),
        !r.is_corner,
        r.is_external_corner is None,
{
    let mut lines: Vec<usize> = Vec::new();
    lines.push(line_index);
    PathfindingGraphNode {
        id,
        position,
        polygon_index,
        line_indicies: lines,
        walkable_connections: Vec::new(),
        jumpable_connections: Vec::new(),
        droppable_connections: Vec::new(),
        normal: Point { x: 0, y: 0 },
        is_corner: false,
        is_external_corner: None,
    }
}

/// Number of containers among polygons `0..=pi`.
pub open spec fn containers_through(level: &Level, pi: int) -> int
    decreases pi + 1,
{
    if pi < 0 {
        0
    } else {
        containers_through(level, pi - 1) + if level.polygons@[pi].is_container {
            1int
        } else {
            0int
        }
    }
}

/// Polygon `pi` carries nodes: containers alternate between skipped and kept,
/// the first one skipped.
pub open spec fn polygon_kept(level: &Level, pi: int) -> bool {
    !(level.polygons@[pi].is_container && containers_through(level, pi) % 2 == 1)
}

/// The number of segments an edge of squared length `l2` is cut into.
pub open spec fn segment_count_of(l2: int) -> int {
    choose|n: int| is_segment_count(l2, n)
}

pub proof fn lemma_segment_count_unique(l2: int, n1: int, n2: int)
    requires
        is_segment_count(l2, n1),
        is_segment_count(l2, n2),
    ensures
        n1 == n2,
{
    let s = PATHFINDING_NODE_SPACING as int;
    if n1 < n2 {
        assert((n1 * s) * (n1 * s) <= ((n2 - 1) * s) * ((n2 - 1) * s)) by (nonlinear_arith)
            requires
                0 <= n1 <= n2 - 1,
                s > 0,
        ;
    } else if n2 < n1 {
        assert((n2 * s) * (n2 * s) <= ((n1 - 1) * s) * ((n1 - 1) * s)) by (nonlinear_arith)
            requires
                0 <= n2 <= n1 - 1,
                s > 0,
        ;
    }
}

/// Node `j` of an edge from `s` to `e` cut into `n` segments.
pub open spec fn edge_node_position(s: Point, e: Point, j: int, n: int) -> Point {
    if j == n {
        e
    } else {
        edge_point(s, e, j, n)
    }
}

/// A node as placement makes it.
pub open spec fn placed_view(
    id: int,
    position: Point,
    pi: int,
    e: int,
    walk: Seq<PathfindingGraphConnection>,
) -> NodeView {
    NodeView {
        id: id as usize,
        position,
        polygon_index: pi as usize,
        lines: seq![e as usize],
        walk,
        jump: seq![],
        drop: seq![],
        normal: Point { x: 0, y: 0 },
        is_corner: false,
        is_external_corner: Option::None,
    }
}

/// The nodes that edge `e` of polygon `pi` carries, numbered from `base`.
pub open spec fn edge_views(level: &Level, pi: int, e: int, base: int) -> Seq<NodeView> {
    let s = level.edge_start(pi, e);
    let t = level.edge_end(pi, e);
    let dx = t.x - s.x;
    let dy = t.y - s.y;
    if polygon_kept(level, pi) && edge_walkable(dx, dy) {
        let n = segment_count_of(dx * dx + dy * dy);
        Seq::new(
            (n + 1) as nat,
            |j: int|
                placed_view(
                    base + j,
                    edge_node_position(s, t, j, n),
                    pi,
                    e,
                    if j > 0 {
                        seq![
                            walk_conn(
                                base + j - 1,
                                sqrt_floor(
                                    sq_dist(
                                        edge_node_position(s, t, j - 1, n),
                                        edge_node_position(s, t, j, n),
                                    ),
                                ),
                            ),
                        ]
                    } else {
                        seq![]
                    },
                ),
        )
    } else {
        seq![]
    }
}

/// Number of edges of polygon `pi`.
pub open spec fn edge_count(level: &Level, pi: int) -> int {
    if level.polygons@[pi].points@.len() > 0 {
        level.polygons@[pi].points@.len() - 1
    } else {
        0
    }
}

/// The nodes of all polygons before `pi` and of the first `e` edges of `pi`,
/// numbered from `base`.
pub open spec fn placed_upto(level: &Level, pi: int, e: int, base: int) -> Seq<NodeView>
    decreases pi, e,
{
    if e > 0 {
        let prev = placed_upto(level, pi, e - 1, base);
        prev + edge_views(level, pi, e - 1, base + prev.len())
    } else if pi > 0 {
        placed_upto(level, pi - 1, edge_count(level, pi - 1), base)
    } else {
        seq![]
    }
}

/// The nodes that placement makes for the whole level, numbered from `base`.
pub open spec fn placed_from(level: &Level, base: int) -> Seq<NodeView> {
    placed_upto(level, level.polygons@.len() as int, 0, base)
}

/// The nodes that placement makes for the whole level, into an empty list.
pub open spec fn placed_spec(level: &Level) -> Seq<NodeView> {
    placed_from(level, 0)
}

/// The nodes from `start` on are as node placement leaves them.
pub open spec fn placed_ok_from(level: &Level, nodes: Seq<PathfindingGraphNode>, start: int) -> bool {
    forall|i: int| start <= i < nodes.len() ==> placed_node_ok(level, #[trigger] nodes[i], i)
}

/// Places nodes along every walkable edge of the level: each such edge is cut
/// into equal segments and gets a node at each segment end, joined to the
/// previous node of the edge. Container polygons alternate between skipped and
/// kept, starting with skipped.
pub fn place_nodes(pathfinding: &mut PathfindingGraph, level: &Level)
    requires
        level.well_formed(),
    ensures
        nodes_view(final(pathfinding).nodes@) == nodes_view(old(pathfinding).nodes@) + placed_from(
            level,
            old(pathfinding).nodes@.len() as int,
        ),
        forall|i: int|
            0 <= i < old(pathfinding).nodes@.len() ==> #[trigger] final(pathfinding).nodes@[i]
                == old(pathfinding).nodes@[i],
        placed_ok_from(level, final(pathfinding).nodes@, old(pathfinding).nodes@.len() as int),
        placed_ok(level, old(pathfinding).nodes@) ==> placed_ok(level, final(pathfinding).nodes@),
        final(pathfinding).spatial_grid@ == old(pathfinding).spatial_grid@,
        final(pathfinding).grid_bounds == old(pathfinding).grid_bounds,
{
    let ghost view0 = nodes_view(pathfinding.nodes@);
    let ghost old_nodes = pathfinding.nodes@;
    let ghost base0 = pathfinding.nodes@.len() as int;
    let mut outer_container_seen = false;
    let mut polygon_index: usize = 0;
    proof {
        assert(nodes_view(pathfinding.nodes@) =~= view0 + placed_upto(level, 0, 0, base0));
    }
    while polygon_index < level.polygons.len()
        invariant
            level.well_formed(),
            polygon_index <= level.polygons@.len(),
            view0 == nodes_view(old_nodes),
            base0 == old_nodes.len(),
            old_nodes == old(pathfinding).nodes@,
            pathfinding.nodes@.len() >= base0,
            forall|i: int| 0 <= i < base0 ==> #[trigger] pathfinding.nodes@[i] == old_nodes[i],
            placed_ok_from(level, pathfinding.nodes@, base0),
            nodes_view(pathfinding.nodes@) == view0 + placed_upto(level, polygon_index as int, 0, base0),
            outer_container_seen == (containers_through(level, polygon_index - 1) % 2 == 1),
            pathfinding.spatial_grid@ == old(pathfinding).spatial_grid@,
            pathfinding.grid_bounds == old(pathfinding).grid_bounds,
        decreases level.polygons@.len() - polygon_index,
    {
        let polygon = &level.polygons[polygon_index];
        if polygon.is_container {
            outer_container_seen = !outer_container_seen;
        }
        let kept = !(outer_container_seen && polygon.is_container);
        assert(kept == polygon_kept(level, polygon_index as int));
        let mut line_index: usize = 1;
        while line_index < polygon.points.len()
            invariant
                level.well_formed(),
                polygon_index < level.polygons@.len(),
                *polygon == level.polygons@[polygon_index as int],
                kept == polygon_kept(level, polygon_index as int),
                outer_container_seen == (containers_through(level, polygon_index as int) % 2 == 1),
                1 <= line_index,
                line_index <= polygon.points@.len() || polygon.points@.len() == 0,
                polygon.points@.len() == 0 ==> line_index == 1,
                view0 == nodes_view(old_nodes),
                base0 == old_nodes.len(),
                old_nodes == old(pathfinding).nodes@,
                pathfinding.nodes@.len() >= base0,
                forall|i: int| 0 <= i < base0 ==> #[trigger] pathfinding.nodes@[i] == old_nodes[i],
                placed_ok_from(level, pathfinding.nodes@, base0),
                nodes_view(pathfinding.nodes@) == view0 + placed_upto(level, polygon_index as int, line_index - 1, base0),
                pathfinding.spatial_grid@ == old(pathfinding).spatial_grid@,
                pathfinding.grid_bounds == old(pathfinding).grid_bounds,
            decreases polygon.points@.len() - line_index,
        {
            let start = polygon.points[line_index - 1];
            let end = polygon.points[line_index];
            let ghost pi = polygon_index as int;
            let ghost e = line_index - 1;
            proof {
                assert(in_bounds(level.polygons@[polygon_index as int].points@[line_index - 1]));
                assert(in_bounds(level.polygons@[polygon_index as int].points@[line_index as int]));
                assert(level.edge_start(pi, e) == start);
                assert(level.edge_end(pi, e) == end);
            }
            let ghost prefix = nodes_view(pathfinding.nodes@);
            let ghost base = prefix.len() as int;
            let dx: i128 = end.x as i128 - start.x as i128;
            let dy: i128 = end.y as i128 - start.y as i128;
            let l2 = squared_distance(start, end);
            proof {
                assert(dx * dx <= 0x4000_0000_0000_0000 && dy * dy <= 0x4000_0000_0000_0000) by (nonlinear_arith)
                    requires
                        -0x8000_0000 <= dx <= 0x8000_0000,
                        -0x8000_0000 <= dy <= 0x8000_0000,
                ;
            }
            let walkable = l2 > 0 && (dx >= 0 || 100 * (dx * dx) < l2 as i128);
            proof {
                assert(l2 as int == dx * dx + dy * dy);
                assert(100 * (dx * dx) == 100 * dx * dx) by (nonlinear_arith);
                assert(walkable == edge_walkable(dx as int, dy as int));
            }
            if kept && walkable {
                let count = segment_count(l2);
                proof {
                    lemma_segment_count_unique(l2 as int, count as int, segment_count_of(l2 as int));
                    assert(count > 0) by {
                        if count == 0 {
                            assert((count * PATHFINDING_NODE_SPACING) * (count
                                * PATHFINDING_NODE_SPACING) == 0) by (nonlinear_arith)
                                requires
                                    count == 0,
                            ;
                        }
                    }
                }
                let ghost views = edge_views(level, pi, e, base);
                assert(views.len() == count + 1);
                let mut prev_position = start;
                let mut j: u64 = 0;
                while j <= count
                    invariant
                        level.well_formed(),
                        polygon_index < level.polygons@.len(),
                        *polygon == level.polygons@[polygon_index as int],
                        1 <= line_index < polygon.points@.len(),
                        pi == polygon_index,
                        e == line_index - 1,
                        level.has_edge(pi, e),
                        level.edge_start(pi, e) == start,
                        level.edge_end(pi, e) == end,
                        kept == polygon_kept(level, pi),
                        kept,
                        edge_walkable(end.x - start.x, end.y - start.y),
                        count == segment_count_of(sq_dist(start, end)),
                        in_bounds(start),
                        in_bounds(end),
                        in_bounds(prev_position),
                        0 < count <= 0x1_0000_0000,
                        j <= count + 1,
                        j > 0 ==> prev_position == edge_node_position(start, end, j - 1, count as int),
                        views == edge_views(level, pi, e, base),
                        views.len() == count + 1,
                        base == prefix.len(),
                        view0 == nodes_view(old_nodes),
                        base0 == old_nodes.len(),
                        old_nodes == old(pathfinding).nodes@,
                        pathfinding.nodes@.len() >= base0,
                        forall|i: int| 0 <= i < base0 ==> #[trigger] pathfinding.nodes@[i] == old_nodes[i],
                        placed_ok_from(level, pathfinding.nodes@, base0),
                        nodes_view(pathfinding.nodes@) == prefix + views.subrange(0, j as int),
                        pathfinding.spatial_grid@ == old(pathfinding).spatial_grid@,
                        pathfinding.grid_bounds == old(pathfinding).grid_bounds,
                    decreases count + 1 - j,
                {
                    let position = if j == count {
                        end
                    } else {
                        edge_point_at(start, end, j, count)
                    };
                    let id = pathfinding.nodes.len();
                    assert(id == base + j) by {
                        assert(nodes_view(pathfinding.nodes@).len() == pathfinding.nodes@.len());
                    }
                    let mut node = new_placed_node(id, position, polygon_index, line_index - 1);
                    if j > 0 {
                        let d = distance(prev_position, position);
                        node.walkable_connections.push(
                            PathfindingGraphConnection {
                                node_id: id - 1,
                                dist: d,
                                connection_type: PathfindingGraphConnectionType::Walkable,
                                effort: 0,
                            },
                        );
                    }
                    let ghost before = pathfinding.nodes@;
                    pathfinding.nodes.push(node);
                    proof {
                        assert(node@ == views[j as int]) by {
                            assert(node@.lines =~= views[j as int].lines);
                            assert(node@.walk =~= views[j as int].walk);
                            assert(node@.jump =~= views[j as int].jump);
                            assert(node@.drop =~= views[j as int].drop);
                        }
                        assert forall|i: int| 0 <= i < pathfinding.nodes@.len() implies #[trigger] nodes_view(pathfinding.nodes@)[i]
                            == (prefix + views.subrange(0, j + 1))[i] by {
                            if i < before.len() {
                                assert(pathfinding.nodes@[i] == before[i]);
                                assert(nodes_view(before)[i] == before[i]@);
                            } else {
                                assert(pathfinding.nodes@[i] == node);
                            }
                        }
                        assert(nodes_view(pathfinding.nodes@) =~= prefix + views.subrange(0, j + 1));
                        assert forall|i: int| 0 <= i < base0 implies #[trigger] pathfinding.nodes@[i] == old_nodes[i] by {
                            assert(pathfinding.nodes@[i] == before[i]);
                        }
                        assert forall|i: int|
                            base0 <= i < pathfinding.nodes@.len() implies placed_node_ok(
                            level,
                            #[trigger] pathfinding.nodes@[i],
                            i,
                        ) by {
                            if i < before.len() {
                                assert(pathfinding.nodes@[i] == before[i]);
                            } else {
                                assert(pathfinding.nodes@[i] == node);
                            }
                        }
                    }
                    prev_position = position;
                    j = j + 1;
                }
                proof {
                    assert(views.subrange(0, views.len() as int) =~= views);
                    let prev = placed_upto(level, pi, e, base0);
                    assert(prefix == view0 + prev);
                    assert(base == base0 + prev.len());
                    assert(prefix + views =~= view0 + (prev + views));
                }
            } else {
                proof {
                    assert(edge_views(level, pi, e, base) =~= seq![]);
                    assert(prefix + edge_views(level, pi, e, base) =~= prefix);
                    let prev = placed_upto(level, pi, e, base0);
                    assert(base == base0 + prev.len());
                    assert(prev + edge_views(level, pi, e, base) =~= prev);
                }
            }
            line_index = line_index + 1;
        }
        proof {
            assert(edge_count(level, polygon_index as int) == line_index - 1);
            assert(containers_through(level, polygon_index as int) == containers_through(level, polygon_index - 1) + if polygon.is_container { 1int } else { 0int });
        }
        polygon_index = polygon_index + 1;
    }
    proof {
        if placed_ok(level, old_nodes) {
            assert forall|i: int| 0 <= i < pathfinding.nodes@.len() implies placed_node_ok(
                level,
                #[trigger] pathfinding.nodes@[i],
                i,
            ) by {
                if i < base0 {
                    assert(pathfinding.nodes@[i] == old_nodes[i]);
                }
            }
        }
    }
}

/// Node `b`'s walkable list holds a connection back to `a` of length `d`.
pub open spec fn has_mirror(cs: Seq<PathfindingGraphConnection>, a: int, d: u64) -> bool {
    exists|k: int| 0 <= k < cs.len() && cs[k] == walk_conn(a, d as int)
}

/// Every walkable connection from `a` to `b` of length `d` is matched by one
/// from `b` to `a` of the same length.
pub open spec fn walkable_symmetric(nodes: Seq<PathfindingGraphNode>) -> bool {
    forall|a: int, k: int|
        0 <= a < nodes.len() && 0 <= k < nodes[a].walkable_connections@.len() ==> {
            let c = #[trigger] nodes[a].walkable_connections@[k];
            &&& c.node_id < nodes.len()
            &&& has_mirror(nodes[c.node_id as int].walkable_connections@, a, c.dist)
        }
}

/// Each walkable connection leads to one of the first `n` nodes and is a plain
/// walkable connection of bounded length.
pub open spec fn walkable_ok(nodes: Seq<PathfindingGraphNode>) -> bool {
    forall|a: int, k: int|
        0 <= a < nodes.len() && 0 <= k < nodes[a].walkable_connections@.len() ==> {
            let c = #[trigger] nodes[a].walkable_connections@[k];
            &&& c.node_id < nodes.len()
            &&& c == walk_conn(c.node_id as int, c.dist as int)
            &&& c.dist <= MAX_WEIGHT
        }
}

/// The two nodes agree on everything but their walkable connections.
pub open spec fn same_but_walkable(a: PathfindingGraphNode, b: PathfindingGraphNode) -> bool {
    &&& a.id == b.id
    &&& a.position == b.position
    &&& a.polygon_index == b.polygon_index
    &&& a.line_indicies@ == b.line_indicies@
    &&& a.jumpable_connections@ == b.jumpable_connections@
    &&& a.droppable_connections@ == b.droppable_connections@
    &&& a.normal == b.normal
    &&& a.is_corner == b.is_corner
    &&& a.is_external_corner == b.is_external_corner
}

/// A copy of a connection list.
pub fn copy_connections(cs: &Vec<PathfindingGraphConnection>) -> (r: Vec<PathfindingGraphConnection>)
    ensures
        r@ == cs@,
{
    let mut r: Vec<PathfindingGraphConnection> = Vec::new();
    let mut k: usize = 0;
    while k < cs.len()
        invariant
            k <= cs@.len(),
            r@ == cs@.subrange(0, k as int),
        decreases cs@.len() - k,
    {
        r.push(cs[k]);
        k = k + 1;
        assert(r@ =~= cs@.subrange(0, k as int));
    }
    assert(r@ =~= cs@);
    r
}

/// The connections into node `x` that mirror the walkable connections of the
/// nodes before `a` and of the first `k` connections of node `a`, in that order.
pub open spec fn mirrors(ns: Seq<NodeView>, x: int, a: int, k: int) -> Seq<PathfindingGraphConnection>
    decreases a, k,
{
    if k > 0 {
        let c = ns[a].walk[k - 1];
        mirrors(ns, x, a, k - 1) + if c.node_id == x {
            seq![walk_conn(a, c.dist as int)]
        } else {
            seq![]
        }
    } else if a > 0 {
        mirrors(ns, x, a - 1, ns[a - 1].walk.len() as int)
    } else {
        seq![]
    }
}

/// Every node's walkable list followed by the mirrors of the connections into it.
pub open spec fn symmetrized(ns: Seq<NodeView>) -> Seq<NodeView> {
    Seq::new(
        ns.len(),
        |x: int| NodeView { walk: ns[x].walk + mirrors(ns, x, ns.len() as int, 0), ..ns[x] },
    )
}

/// Adds, for every walkable connection, the connection in the other direction.
pub fn make_walkable_connections_2_way(pathfinding: &mut PathfindingGraph)
    requires
        walkable_ok(old(pathfinding).nodes@),
    ensures
        final(pathfinding).nodes@.len() == old(pathfinding).nodes@.len(),
        nodes_view(final(pathfinding).nodes@) == symmetrized(nodes_view(old(pathfinding).nodes@)),
        walkable_ok(final(pathfinding).nodes@),
        walkable_symmetric(final(pathfinding).nodes@),
        forall|i: int|
            0 <= i < old(pathfinding).nodes@.len() ==> same_but_walkable(
                #[trigger] final(pathfinding).nodes@[i],
                old(pathfinding).nodes@[i],
            ),
        final(pathfinding).spatial_grid@ == old(pathfinding).spatial_grid@,
        final(pathfinding).grid_bounds == old(pathfinding).grid_bounds,
{
    let n = pathfinding.nodes.len();
    let ghost orig = pathfinding.nodes@;
    let mut snapshot: Vec<Vec<PathfindingGraphConnection>> = Vec::new();
    let mut i: usize = 0;
    while i < n
        invariant
            n == orig.len(),
            pathfinding.nodes@ == orig,
            i <= n,
            snapshot@.len() == i,
            forall|j: int| 0 <= j < i ==> (#[trigger] snapshot@[j])@ == orig[j].walkable_connections@,
        decreases n - i,
    {
        let copy = copy_connections(&pathfinding.nodes[i].walkable_connections);
        snapshot.push(copy);
        i = i + 1;
    }
    let mut a: usize = 0;
    while a < n
        invariant
            n == orig.len(),
            a <= n,
            walkable_ok(orig),
            snapshot@.len() == n,
            forall|j: int| 0 <= j < n ==> (#[trigger] snapshot@[j])@ == orig[j].walkable_connections@,
            pathfinding.nodes@.len() == n,
            forall|x: int|
                0 <= x < n ==> same_but_walkable(#[trigger] pathfinding.nodes@[x], orig[x]),
            forall|x: int|
                0 <= x < n ==> (#[trigger] pathfinding.nodes@[x]).walkable_connections@
                    == orig[x].walkable_connections@ + mirrors(nodes_view(orig), x, a as int, 0),
            forall|x: int, k: int|
                0 <= x < n && 0 <= k < orig[x].walkable_connections@.len() ==> k
                    < pathfinding.nodes@[x].walkable_connections@.len()
                    && #[trigger] pathfinding.nodes@[x].walkable_connections@[k]
                    == orig[x].walkable_connections@[k],
            forall|x: int| 0 <= x < n ==> orig[x].walkable_connections@.len() <= (
            #[trigger] pathfinding.nodes@[x]).walkable_connections@.len(),
            forall|x: int, k: int|
                0 <= x < n && orig[x].walkable_connections@.len() <= k
                    < pathfinding.nodes@[x].walkable_connections@.len() ==> {
                    let c = #[trigger] pathfinding.nodes@[x].walkable_connections@[k];
                    &&& c.node_id < n
                    &&& c == walk_conn(c.node_id as int, c.dist as int)
                    &&& has_mirror(orig[c.node_id as int].walkable_connections@, x, c.dist)
                },
            forall|b: int, k: int|
                0 <= b < a && 0 <= k < orig[b].walkable_connections@.len() ==> {
                    let c = #[trigger] orig[b].walkable_connections@[k];
                    has_mirror(pathfinding.nodes@[c.node_id as int].walkable_connections@, b, c.dist)
                },
            pathfinding.spatial_grid@ == old(pathfinding).spatial_grid@,
            pathfinding.grid_bounds == old(pathfinding).grid_bounds,
        decreases n - a,
    {
        let conns = &snapshot[a];
        let mut k: usize = 0;
        while k < conns.len()
            invariant
                n == orig.len(),
                a < n,
                walkable_ok(orig),
                snapshot@.len() == n,
                forall|j: int|
                    0 <= j < n ==> (#[trigger] snapshot@[j])@ == orig[j].walkable_connections@,
                *conns == snapshot@[a as int],
                k <= conns@.len(),
                pathfinding.nodes@.len() == n,
                forall|x: int|
                    0 <= x < n ==> same_but_walkable(#[trigger] pathfinding.nodes@[x], orig[x]),
                forall|x: int|
                    0 <= x < n ==> (#[trigger] pathfinding.nodes@[x]).walkable_connections@
                        == orig[x].walkable_connections@ + mirrors(nodes_view(orig), x, a as int, k as int),
                forall|x: int, j: int|
                    0 <= x < n && 0 <= j < orig[x].walkable_connections@.len() ==> j
                        < pathfinding.nodes@[x].walkable_connections@.len()
                        && #[trigger] pathfinding.nodes@[x].walkable_connections@[j]
                        == orig[x].walkable_connections@[j],
                forall|x: int| 0 <= x < n ==> orig[x].walkable_connections@.len() <= (
                #[trigger] pathfinding.nodes@[x]).walkable_connections@.len(),
                forall|x: int, j: int|
                    0 <= x < n && orig[x].walkable_connections@.len() <= j
                        < pathfinding.nodes@[x].walkable_connections@.len() ==> {
                        let c = #[trigger] pathfinding.nodes@[x].walkable_connections@[j];
                        &&& c.node_id < n
                        &&& c == walk_conn(c.node_id as int, c.dist as int)
                        &&& has_mirror(orig[c.node_id as int].walkable_connections@, x, c.dist)
                    },
                forall|b: int, j: int|
                    (0 <= b < a && 0 <= j < orig[b].walkable_connections@.len()) || (b == a && 0
                        <= j < k) ==> {
                        let c = #[trigger] orig[b].walkable_connections@[j];
                        has_mirror(
                            pathfinding.nodes@[c.node_id as int].walkable_connections@,
                            b,
                            c.dist,
                        )
                    },
                pathfinding.spatial_grid@ == old(pathfinding).spatial_grid@,
                pathfinding.grid_bounds == old(pathfinding).grid_bounds,
            decreases conns@.len() - k,
        {
            let c = conns[k];
            assert(c == orig[a as int].walkable_connections@[k as int]);
            let t = c.node_id;
            let mirror = PathfindingGraphConnection {
                node_id: a,
                dist: c.dist,
                connection_type: PathfindingGraphConnectionType::Walkable,
                effort: 0,
            };
            let ghost before = pathfinding.nodes@;
            pathfinding.nodes[t].walkable_connections.push(mirror);
            proof {
                let after = pathfinding.nodes@;
                assert(after[t as int].walkable_connections@ == before[t as int].walkable_connections@.push(mirror));
                assert forall|x: int| 0 <= x < n && x != t implies #[trigger] after[x] == before[x] by {}
                assert(nodes_view(orig)[a as int].walk == orig[a as int].walkable_connections@);
                assert forall|x: int| 0 <= x < n implies (#[trigger] after[x]).walkable_connections@
                    == orig[x].walkable_connections@ + mirrors(nodes_view(orig), x, a as int, k + 1) by {
                    assert(mirrors(nodes_view(orig), x, a as int, k + 1) == mirrors(nodes_view(orig), x, a as int, k as int)
                        + if c.node_id == x { seq![walk_conn(a as int, c.dist as int)] } else { seq![] });
                    if x == t {
                        assert(mirror == walk_conn(a as int, c.dist as int));
                        assert(after[x].walkable_connections@ =~= orig[x].walkable_connections@ + mirrors(nodes_view(orig), x, a as int, k + 1));
                    } else {
                        assert(after[x].walkable_connections@ =~= orig[x].walkable_connections@ + mirrors(nodes_view(orig), x, a as int, k + 1));
                    }
                }
                assert(has_mirror(after[t as int].walkable_connections@, a as int, c.dist)) by {
                    let last = before[t as int].walkable_connections@.len() as int;
                    assert(after[t as int].walkable_connections@[last] == mirror);
                }
                assert forall|b: int, j: int|
                    (0 <= b < a && 0 <= j < orig[b].walkable_connections@.len()) || (b == a && 0
                        <= j < k + 1) implies {
                        let cc = #[trigger] orig[b].walkable_connections@[j];
                        has_mirror(after[cc.node_id as int].walkable_connections@, b, cc.dist)
                    } by {
                    let cc = orig[b].walkable_connections@[j];
                    if !(b == a && j == k) {
                        let w = before[cc.node_id as int].walkable_connections@;
                        let kk = choose|kk: int| 0 <= kk < w.len() && w[kk] == walk_conn(b, cc.dist as int);
                        assert(after[cc.node_id as int].walkable_connections@[kk] == w[kk]);
                    }
                }
                assert forall|x: int, j: int|
                    0 <= x < n && orig[x].walkable_connections@.len() <= j
                        < after[x].walkable_connections@.len() implies {
                        let cc = #[trigger] after[x].walkable_connections@[j];
                        &&& cc.node_id < n
                        &&& cc == walk_conn(cc.node_id as int, cc.dist as int)
                        &&& has_mirror(orig[cc.node_id as int].walkable_connections@, x, cc.dist)
                    } by {
                    if x == t && j == before[t as int].walkable_connections@.len() {
                        assert(after[x].walkable_connections@[j] == mirror);
                        assert(orig[a as int].walkable_connections@[k as int] == walk_conn(t as int, c.dist as int));
                    } else {
                        assert(after[x].walkable_connections@[j] == before[x].walkable_connections@[j]);
                    }
                }
                assert forall|x: int, j: int|
                    0 <= x < n && 0 <= j < orig[x].walkable_connections@.len() implies j
                        < after[x].walkable_connections@.len()
                        && #[trigger] after[x].walkable_connections@[j]
                        == orig[x].walkable_connections@[j] by {
                    assert(after[x].walkable_connections@[j] == before[x].walkable_connections@[j]);
                }
            }
            k = k + 1;
        }
        proof {
            assert forall|x: int| 0 <= x < n implies mirrors(nodes_view(orig), x, a + 1, 0)
                == mirrors(nodes_view(orig), x, a as int, k as int) by {
                assert(nodes_view(orig)[a as int].walk == orig[a as int].walkable_connections@);
            }
        }
        a = a + 1;
    }
    proof {
        let fin = pathfinding.nodes@;
        let sv = symmetrized(nodes_view(orig));
        assert forall|x: int| 0 <= x < n implies #[trigger] nodes_view(fin)[x] == sv[x] by {
            assert(same_but_walkable(fin[x], orig[x]));
            assert(nodes_view(orig)[x] == orig[x]@);
            assert(mirrors(nodes_view(orig), x, n as int, 0) == mirrors(nodes_view(orig), x, nodes_view(orig).len() as int, 0));
        }
        assert(nodes_view(fin) =~= sv);
        assert forall|x: int, k: int|
            0 <= x < n && 0 <= k < fin[x].walkable_connections@.len() implies {
                let c = #[trigger] fin[x].walkable_connections@[k];
                &&& c.node_id < n
                &&& has_mirror(fin[c.node_id as int].walkable_connections@, x, c.dist)
            } by {
            let c = fin[x].walkable_connections@[k];
            if k < orig[x].walkable_connections@.len() {
                assert(c == orig[x].walkable_connections@[k]);
            } else {
                let b = c.node_id as int;
                let w = orig[b].walkable_connections@;
                let kk = choose|kk: int| 0 <= kk < w.len() && w[kk] == walk_conn(x, c.dist as int);
                assert(fin[b].walkable_connections@[kk] == w[kk]);
            }
        }
        assert forall|x: int, k: int|
            0 <= x < n && 0 <= k < fin[x].walkable_connections@.len() implies {
                let c = #[trigger] fin[x].walkable_connections@[k];
                &&& c.node_id < n
                &&& c == walk_conn(c.node_id as int, c.dist as int)
                &&& c.dist <= MAX_WEIGHT
            } by {
            let c = fin[x].walkable_connections@[k];
            if k < orig[x].walkable_connections@.len() {
                assert(c == orig[x].walkable_connections@[k]);
            } else {
                let b = c.node_id as int;
                let w = orig[b].walkable_connections@;
                let kk = choose|kk: int| 0 <= kk < w.len() && w[kk] == walk_conn(x, c.dist as int);
                assert(w[kk].dist <= MAX_WEIGHT);
            }
        }
    }
}

pub open spec fn conn_retarget(
    c: PathfindingGraphConnection,
    from: usize,
    to: usize,
) -> PathfindingGraphConnection {
    if c.node_id == from {
        PathfindingGraphConnection { node_id: to, ..c }
    } else {
        c
    }
}

/// `cs` with every connection to `from` turned towards `to`.
pub open spec fn retarget(
    cs: Seq<PathfindingGraphConnection>,
    from: usize,
    to: usize,
) -> Seq<PathfindingGraphConnection> {
    cs.map_values(|c: PathfindingGraphConnection| conn_retarget(c, from, to))
}

/// No two nodes share an id.
pub open spec fn ids_distinct(nodes: Seq<PathfindingGraphNode>) -> bool {
    forall|a: int, b: int|
        0 <= a < nodes.len() && 0 <= b < nodes.len() && a != b ==> #[trigger] nodes[a].id
            != #[trigger] nodes[b].id
}

/// Walkable symmetry with connections naming nodes by id: each connection leads
/// to a node that has the connection back.
pub open spec fn symmetric_by_id(nodes: Seq<PathfindingGraphNode>) -> bool {
    forall|a: int, k: int|
        0 <= a < nodes.len() && 0 <= k < nodes[a].walkable_connections@.len() ==> {
            let c = #[trigger] nodes[a].walkable_connections@[k];
            exists|b: int|
                0 <= b < nodes.len() && nodes[b].id == c.node_id && has_mirror(
                    nodes[b].walkable_connections@,
                    nodes[a].id as int,
                    c.dist,
                )
        }
}

/// Every walkable connection names the id of some node.
pub open spec fn targets_exist(nodes: Seq<PathfindingGraphNode>) -> bool {
    forall|a: int, k: int|
        0 <= a < nodes.len() && 0 <= k < nodes[a].walkable_connections@.len() ==> exists|b: int|
            0 <= b < nodes.len() && nodes[b].id == (
            #[trigger] nodes[a].walkable_connections@[k]).node_id
}

/// Every walkable connection is a plain walkable connection of bounded length.
pub open spec fn walkable_typed(nodes: Seq<PathfindingGraphNode>) -> bool {
    forall|a: int, k: int|
        0 <= a < nodes.len() && 0 <= k < nodes[a].walkable_connections@.len() ==> {
            let c = #[trigger] nodes[a].walkable_connections@[k];
            &&& c == walk_conn(c.node_id as int, c.dist as int)
            &&& c.dist <= MAX_WEIGHT
        }
}

/// No two nodes lie closer than the merge tolerance.
pub open spec fn no_close_pair(nodes: Seq<PathfindingGraphNode>) -> bool {
    forall|a: int, b: int|
        0 <= a < b < nodes.len() ==> sq_dist(#[trigger] nodes[a].position, #[trigger] nodes[b].position)
            >= MERGE_TOLERANCE_SQ
}

/// Index of `x` once the node at `j` has been removed.
pub open spec fn source_index(x: int, j: int) -> int {
    if x < j {
        x
    } else {
        x + 1
    }
}

/// `new` is `old` after node `j` has been merged into node `i`.
pub open spec fn merged(
    old: Seq<PathfindingGraphNode>,
    new: Seq<PathfindingGraphNode>,
    i: int,
    j: int,
) -> bool {
    &&& new.len() == old.len() - 1
    &&& forall|x: int|
        0 <= x < new.len() ==> {
            let o = old[source_index(x, j)];
            let n = #[trigger] new[x];
            &&& n.id == o.id
            &&& n.position == o.position
            &&& n.polygon_index == o.polygon_index
            &&& n.jumpable_connections@ == o.jumpable_connections@
            &&& n.droppable_connections@ == o.droppable_connections@
            &&& n.normal == o.normal
            &&& n.is_corner == o.is_corner
            &&& n.is_external_corner == o.is_external_corner
            &&& n.walkable_connections@ == retarget(
                if x == i {
                    o.walkable_connections@ + old[j].walkable_connections@
                } else {
                    o.walkable_connections@
                },
                old[j].id,
                old[i].id,
            )
            &&& n.line_indicies@ == if x == i {
                o.line_indicies@ + old[j].line_indicies@
            } else {
                o.line_indicies@
            }
        }
}

proof fn lemma_merge_keeps_symmetry(
    old: Seq<PathfindingGraphNode>,
    new: Seq<PathfindingGraphNode>,
    i: int,
    j: int,
)
    requires
        0 <= i < j < old.len(),
        merged(old, new, i, j),
        ids_distinct(old),
        walkable_typed(old),
    ensures
        ids_distinct(new),
        symmetric_by_id(old) ==> symmetric_by_id(new),
        targets_exist(old) ==> targets_exist(new),
        walkable_typed(new),
{
    let big_i = old[i].id;
    let big_j = old[j].id;
    assert forall|a: int, b: int|
        0 <= a < new.len() && 0 <= b < new.len() && a != b implies #[trigger] new[a].id
        != #[trigger] new[b].id by {
        assert(old[source_index(a, j)].id != old[source_index(b, j)].id);
    }
    assert forall|x: int, k: int|
        0 <= x < new.len() && 0 <= k < new[x].walkable_connections@.len() implies {
            let c = #[trigger] new[x].walkable_connections@[k];
            &&& c == walk_conn(c.node_id as int, c.dist as int)
            &&& c.dist <= MAX_WEIGHT
        } by {
        let ox = source_index(x, j);
        let li = old[i].walkable_connections@.len();
        if x == i && k >= li {
            assert(old[j].walkable_connections@[k - li] == (old[i].walkable_connections@
                + old[j].walkable_connections@)[k]);
        } else if x == i {
            assert(old[i].walkable_connections@[k] == (old[i].walkable_connections@
                + old[j].walkable_connections@)[k]);
        } else {
            assert(old[ox].walkable_connections@[k] == old[ox].walkable_connections@[k]);
        }
    }
    if symmetric_by_id(old) {
        assert forall|x: int, k: int|
            0 <= x < new.len() && 0 <= k < new[x].walkable_connections@.len() implies {
                let c = #[trigger] new[x].walkable_connections@[k];
                exists|b: int|
                    0 <= b < new.len() && new[b].id == c.node_id && has_mirror(
                        new[b].walkable_connections@,
                        new[x].id as int,
                        c.dist,
                    )
            } by {
            let ox = source_index(x, j);
            let li = old[i].walkable_connections@.len();
            let a = if x == i && k >= li {
                j
            } else {
                ox
            };
            let kk = if x == i && k >= li {
                k - li
            } else {
                k
            };
            let c = old[a].walkable_connections@[kk];
            assert(new[x].walkable_connections@[k] == conn_retarget(c, big_j, big_i)) by {
                if x == i {
                    assert((old[i].walkable_connections@ + old[j].walkable_connections@)[k] == c);
                }
            }
            assert(new[x].id as int == (if old[a].id == big_j { big_i } else { old[a].id }) as int) by {
                if a == j {
                } else {
                    assert(old[a].id != big_j);
                }
            }
            let b = choose|b: int|
                0 <= b < old.len() && old[b].id == c.node_id && has_mirror(
                    old[b].walkable_connections@,
                    old[a].id as int,
                    c.dist,
                );
            let wb = old[b].walkable_connections@;
            let k2 = choose|k2: int| 0 <= k2 < wb.len() && wb[k2] == walk_conn(old[a].id as int, c.dist as int);
            let m = wb[k2];
            let mm = conn_retarget(m, big_j, big_i);
            assert(mm == walk_conn(new[x].id as int, c.dist as int));
            if b == j {
                let nb = i;
                assert(new[nb].walkable_connections@[li + k2] == mm) by {
                    assert((old[i].walkable_connections@ + old[j].walkable_connections@)[li + k2] == m);
                }
                assert(new[nb].id == conn_retarget(c, big_j, big_i).node_id);
                assert(has_mirror(new[nb].walkable_connections@, new[x].id as int, c.dist));
            } else {
                let nb = if b < j {
                    b
                } else {
                    b - 1
                };
                assert(source_index(nb, j) == b);
                assert(c.node_id != big_j);
                assert(new[nb].walkable_connections@[k2] == mm) by {
                    if nb == i {
                        assert((old[i].walkable_connections@ + old[j].walkable_connections@)[k2] == m);
                    }
                }
                assert(new[nb].id == conn_retarget(c, big_j, big_i).node_id);
                assert(has_mirror(new[nb].walkable_connections@, new[x].id as int, c.dist));
            }
        }
    }
    if targets_exist(old) {
        assert forall|x: int, k: int|
            0 <= x < new.len() && 0 <= k < new[x].walkable_connections@.len() implies exists|b: int|
                0 <= b < new.len() && new[b].id == (
                #[trigger] new[x].walkable_connections@[k]).node_id by {
            let ox = source_index(x, j);
            let li = old[i].walkable_connections@.len();
            let a = if x == i && k >= li {
                j
            } else {
                ox
            };
            let kk = if x == i && k >= li {
                k - li
            } else {
                k
            };
            let c = old[a].walkable_connections@[kk];
            assert(new[x].walkable_connections@[k] == conn_retarget(c, big_j, big_i)) by {
                if x == i {
                    assert((old[i].walkable_connections@ + old[j].walkable_connections@)[k] == c);
                }
            }
            let b = choose|b: int| 0 <= b < old.len() && old[b].id == c.node_id;
            if b == j {
                assert(new[i].id == conn_retarget(c, big_j, big_i).node_id);
            } else {
                let nb = if b < j {
                    b
                } else {
                    b - 1
                };
                assert(source_index(nb, j) == b);
                assert(c.node_id != big_j);
                assert(new[nb].id == conn_retarget(c, big_j, big_i).node_id);
            }
        }
    }
}

/// Merges node `j` into node `i`: `i` takes over `j`'s walkable connections and
/// edges, `j` leaves, and connections to `j` now lead to `i`.
fn merge_nodes(nodes: &mut Vec<PathfindingGraphNode>, i: usize, j: usize)
    requires
        i < j < old(nodes)@.len(),
    ensures
        merged(old(nodes)@, final(nodes)@, i as int, j as int),
{
    let ghost old_nodes = nodes@;
    let first = nodes[i].id;
    let second = nodes[j].id;
    let removed = nodes.remove(j);
    let mut k: usize = 0;
    while k < removed.walkable_connections.len()
        invariant
            removed == old_nodes[j as int],
            i < j < old_nodes.len(),
            nodes@.len() == old_nodes.len() - 1,
            k <= removed.walkable_connections@.len(),
            forall|x: int| 0 <= x < nodes@.len() && x != i ==> #[trigger] nodes@[x] == old_nodes[source_index(x, j as int)],
            same_but_walkable(nodes@[i as int], old_nodes[i as int]),
            nodes@[i as int].walkable_connections@ == old_nodes[i as int].walkable_connections@
                + removed.walkable_connections@.subrange(0, k as int),
        decreases removed.walkable_connections@.len() - k,
    {
        nodes[i].walkable_connections.push(removed.walkable_connections[k]);
        k = k + 1;
        assert(nodes@[i as int].walkable_connections@ =~= old_nodes[i as int].walkable_connections@
            + removed.walkable_connections@.subrange(0, k as int));
    }
    let mut k: usize = 0;
    while k < removed.line_indicies.len()
        invariant
            removed == old_nodes[j as int],
            i < j < old_nodes.len(),
            nodes@.len() == old_nodes.len() - 1,
            k <= removed.line_indicies@.len(),
            forall|x: int| 0 <= x < nodes@.len() && x != i ==> #[trigger] nodes@[x] == old_nodes[source_index(x, j as int)],
            nodes@[i as int].walkable_connections@ == old_nodes[i as int].walkable_connections@
                + removed.walkable_connections@,
            nodes@[i as int].id == old_nodes[i as int].id,
            nodes@[i as int].position == old_nodes[i as int].position,
            nodes@[i as int].polygon_index == old_nodes[i as int].polygon_index,
            nodes@[i as int].jumpable_connections@ == old_nodes[i as int].jumpable_connections@,
            nodes@[i as int].droppable_connections@ == old_nodes[i as int].droppable_connections@,
            nodes@[i as int].normal == old_nodes[i as int].normal,
            nodes@[i as int].is_corner == old_nodes[i as int].is_corner,
            nodes@[i as int].is_external_corner == old_nodes[i as int].is_external_corner,
            nodes@[i as int].line_indicies@ == old_nodes[i as int].line_indicies@
                + removed.line_indicies@.subrange(0, k as int),
        decreases removed.line_indicies@.len() - k,
    {
        nodes[i].line_indicies.push(removed.line_indicies[k]);
        k = k + 1;
        assert(nodes@[i as int].line_indicies@ =~= old_nodes[i as int].line_indicies@
            + removed.line_indicies@.subrange(0, k as int));
    }
    assert(removed.walkable_connections@.subrange(0, removed.walkable_connections@.len() as int) =~= removed.walkable_connections@);
    assert(nodes@[i as int].line_indicies@ =~= old_nodes[i as int].line_indicies@ + removed.line_indicies@);
    let ghost joined = nodes@;
    let mut x: usize = 0;
    while x < nodes.len()
        invariant
            joined.len() == nodes@.len(),
            x <= nodes@.len(),
            forall|y: int|
                0 <= y < nodes@.len() ==> same_but_walkable(#[trigger] nodes@[y], joined[y])
                    && nodes@[y].walkable_connections@.len() == joined[y].walkable_connections@.len(),
            forall|y: int|
                0 <= y < x ==> (#[trigger] nodes@[y]).walkable_connections@ == retarget(
                    joined[y].walkable_connections@,
                    second,
                    first,
                ),
            forall|y: int|
                x <= y < nodes@.len() ==> (#[trigger] nodes@[y]).walkable_connections@
                    == joined[y].walkable_connections@,
        decreases nodes@.len() - x,
    {
        let mut k: usize = 0;
        while k < nodes[x].walkable_connections.len()
            invariant
                joined.len() == nodes@.len(),
                x < nodes@.len(),
                k <= nodes@[x as int].walkable_connections@.len(),
                forall|y: int|
                    0 <= y < nodes@.len() ==> same_but_walkable(#[trigger] nodes@[y], joined[y])
                        && nodes@[y].walkable_connections@.len()
                        == joined[y].walkable_connections@.len(),
                forall|y: int|
                    0 <= y < x ==> (#[trigger] nodes@[y]).walkable_connections@ == retarget(
                        joined[y].walkable_connections@,
                        second,
                        first,
                    ),
                forall|y: int|
                    x < y < nodes@.len() ==> (#[trigger] nodes@[y]).walkable_connections@
                        == joined[y].walkable_connections@,
                forall|q: int|
                    0 <= q < nodes@[x as int].walkable_connections@.len() ==> (
                    #[trigger] nodes@[x as int].walkable_connections@[q]) == if q < k {
                        conn_retarget(joined[x as int].walkable_connections@[q], second, first)
                    } else {
                        joined[x as int].walkable_connections@[q]
                    },
            decreases nodes@[x as int].walkable_connections@.len() - k,
        {
            let c = nodes[x].walkable_connections[k];
            if c.node_id == second {
                nodes[x].walkable_connections.set(k, PathfindingGraphConnection { node_id: first, ..c });
            }
            k = k + 1;
        }
        assert(nodes@[x as int].walkable_connections@ =~= retarget(
            joined[x as int].walkable_connections@,
            second,
            first,
        ));
        x = x + 1;
    }
}

/// The views of `ns` once node `j` has been merged into node `i` (see `merged`).
pub open spec fn merge_view(ns: Seq<NodeView>, i: int, j: int) -> Seq<NodeView> {
    Seq::new(
        (ns.len() - 1) as nat,
        |x: int|
            {
                let o = ns[source_index(x, j)];
                NodeView {
                    walk: retarget(
                        if x == i {
                            o.walk + ns[j].walk
                        } else {
                            o.walk
                        },
                        ns[j].id,
                        ns[i].id,
                    ),
                    lines: if x == i {
                        o.lines + ns[j].lines
                    } else {
                        o.lines
                    },
                    ..o
                }
            },
    )
}

/// Merging from the pair `(i, j)` on: each node, in order, absorbs every later
/// node closer to it than the merge tolerance.
pub open spec fn dedup_from(ns: Seq<NodeView>, i: int, j: int) -> Seq<NodeView>
    decreases ns.len() - i, ns.len() + 1 - j,
{
    if i < 0 || i >= ns.len() {
        ns
    } else if j >= ns.len() {
        dedup_from(ns, i + 1, i + 2)
    } else if i < j && 0 <= j && sq_dist(ns[i].position, ns[j].position) < MERGE_TOLERANCE_SQ {
        dedup_from(merge_view(ns, i, j), i, j)
    } else {
        dedup_from(ns, i, j + 1)
    }
}

proof fn lemma_merged_view(old: Seq<PathfindingGraphNode>, new: Seq<PathfindingGraphNode>, i: int, j: int)
    requires
        0 <= i < j < old.len(),
        merged(old, new, i, j),
    ensures
        nodes_view(new) == merge_view(nodes_view(old), i, j),
{
    let ov = nodes_view(old);
    let mv = merge_view(ov, i, j);
    assert forall|x: int| 0 <= x < new.len() implies #[trigger] nodes_view(new)[x] == mv[x] by {
        assert(ov[source_index(x, j)] == old[source_index(x, j)]@);
        assert(ov[j] == old[j]@);
        assert(ov[i] == old[i]@);
    }
    assert(nodes_view(new) =~= mv);
}

/// Merges nodes closer than the merge tolerance until no such pair is left.
/// Connections keep naming nodes by id, so ids are no longer indices.
pub fn remove_duplicate_nodes(pathfinding: &mut PathfindingGraph)
    requires
        ids_distinct(old(pathfinding).nodes@),
        walkable_typed(old(pathfinding).nodes@),
        forall|a: int| 0 <= a < old(pathfinding).nodes@.len() ==> in_bounds(#[trigger] old(pathfinding).nodes@[a].position),
    ensures
        nodes_view(final(pathfinding).nodes@) == dedup_from(nodes_view(old(pathfinding).nodes@), 0, 1),
        ids_distinct(final(pathfinding).nodes@),
        symmetric_by_id(old(pathfinding).nodes@) ==> symmetric_by_id(final(pathfinding).nodes@),
        targets_exist(old(pathfinding).nodes@) ==> targets_exist(final(pathfinding).nodes@),
        walkable_typed(final(pathfinding).nodes@),
        no_close_pair(final(pathfinding).nodes@),
        forall|a: int| 0 <= a < final(pathfinding).nodes@.len() ==> in_bounds(#[trigger] final(pathfinding).nodes@[a].position),
        final(pathfinding).spatial_grid@ == old(pathfinding).spatial_grid@,
        final(pathfinding).grid_bounds == old(pathfinding).grid_bounds,
{
    let ghost target = dedup_from(nodes_view(pathfinding.nodes@), 0, 1);
    let ghost sym0 = symmetric_by_id(pathfinding.nodes@);
    let ghost tex0 = targets_exist(pathfinding.nodes@);
    let mut i: usize = 0;
    while i < pathfinding.nodes.len()
        invariant
            dedup_from(nodes_view(pathfinding.nodes@), i as int, i + 1) == target,
            ids_distinct(pathfinding.nodes@),
            sym0 == symmetric_by_id(old(pathfinding).nodes@),
            tex0 == targets_exist(old(pathfinding).nodes@),
            sym0 ==> symmetric_by_id(pathfinding.nodes@),
            tex0 ==> targets_exist(pathfinding.nodes@),
            walkable_typed(pathfinding.nodes@),
            forall|a: int| 0 <= a < pathfinding.nodes@.len() ==> in_bounds(#[trigger] pathfinding.nodes@[a].position),
            forall|a: int, b: int|
                0 <= a < i && a < b < pathfinding.nodes@.len() ==> sq_dist(
                    #[trigger] pathfinding.nodes@[a].position,
                    #[trigger] pathfinding.nodes@[b].position,
                ) >= MERGE_TOLERANCE_SQ,
            pathfinding.spatial_grid@ == old(pathfinding).spatial_grid@,
            pathfinding.grid_bounds == old(pathfinding).grid_bounds,
        decreases pathfinding.nodes@.len() - i,
    {
        let mut j: usize = i + 1;
        let ghost outer_len = pathfinding.nodes@.len();
        while j < pathfinding.nodes.len()
            invariant
                i < pathfinding.nodes@.len() <= outer_len,
                i < j,
                dedup_from(nodes_view(pathfinding.nodes@), i as int, j as int) == target,
                ids_distinct(pathfinding.nodes@),
                sym0 == symmetric_by_id(old(pathfinding).nodes@),
                tex0 == targets_exist(old(pathfinding).nodes@),
                sym0 ==> symmetric_by_id(pathfinding.nodes@),
                tex0 ==> targets_exist(pathfinding.nodes@),
                walkable_typed(pathfinding.nodes@),
                forall|a: int| 0 <= a < pathfinding.nodes@.len() ==> in_bounds(#[trigger] pathfinding.nodes@[a].position),
                forall|a: int, b: int|
                    0 <= a < i && a < b < pathfinding.nodes@.len() ==> sq_dist(
                        #[trigger] pathfinding.nodes@[a].position,
                        #[trigger] pathfinding.nodes@[b].position,
                    ) >= MERGE_TOLERANCE_SQ,
                forall|b: int|
                    i < b < j && b < pathfinding.nodes@.len() ==> sq_dist(
                        pathfinding.nodes@[i as int].position,
                        #[trigger] pathfinding.nodes@[b].position,
                    ) >= MERGE_TOLERANCE_SQ,
                pathfinding.spatial_grid@ == old(pathfinding).spatial_grid@,
                pathfinding.grid_bounds == old(pathfinding).grid_bounds,
            decreases pathfinding.nodes@.len() - j,
        {
            proof {
                assert(in_bounds(pathfinding.nodes@[i as int].position));
                assert(in_bounds(pathfinding.nodes@[j as int].position));
            }
            let d = squared_distance(pathfinding.nodes[i].position, pathfinding.nodes[j].position);
            proof {
                assert(nodes_view(pathfinding.nodes@)[i as int] == pathfinding.nodes@[i as int]@);
                assert(nodes_view(pathfinding.nodes@)[j as int] == pathfinding.nodes@[j as int]@);
            }
            if d < MERGE_TOLERANCE_SQ {
                let ghost before = pathfinding.nodes@;
                merge_nodes(&mut pathfinding.nodes, i, j);
                proof {
                    let after = pathfinding.nodes@;
                    lemma_merged_view(before, after, i as int, j as int);
                    lemma_merge_keeps_symmetry(before, after, i as int, j as int);
                    assert forall|a: int| 0 <= a < after.len() implies in_bounds(#[trigger] after[a].position) by {
                        assert(after[a].position == before[source_index(a, j as int)].position);
                    }
                    assert forall|a: int, b: int|
                        0 <= a < i && a < b < after.len() implies sq_dist(
                            #[trigger] after[a].position,
                            #[trigger] after[b].position,
                        ) >= MERGE_TOLERANCE_SQ by {
                        assert(after[a].position == before[source_index(a, j as int)].position);
                        assert(after[b].position == before[source_index(b, j as int)].position);
                    }
                    assert forall|b: int|
                        i < b < j && b < after.len() implies sq_dist(
                            after[i as int].position,
                            #[trigger] after[b].position,
                        ) >= MERGE_TOLERANCE_SQ by {
                        assert(after[i as int].position == before[i as int].position);
                        assert(after[b].position == before[b].position);
                    }
                }
            } else {
                j = j + 1;
            }
        }
        i = i + 1;
    }
}

/// The two nodes agree on everything but their id and walkable connections.
pub open spec fn same_but_id_and_walkable(a: PathfindingGraphNode, b: PathfindingGraphNode) -> bool {
    &&& a.position == b.position
    &&& a.polygon_index == b.polygon_index
    &&& a.line_indicies@ == b.line_indicies@
    &&& a.jumpable_connections@ == b.jumpable_connections@
    &&& a.droppable_connections@ == b.droppable_connections@
    &&& a.normal == b.normal
    &&& a.is_corner == b.is_corner
    &&& a.is_external_corner == b.is_external_corner
}

fn find_id(ids: &Vec<usize>, t: usize) -> (b: usize)
    requires
        exists|b: int| 0 <= b < ids@.len() && ids@[b] == t,
    ensures
        b < ids@.len(),
        ids@[b as int] == t,
{
    let mut b: usize = 0;
    while b < ids.len()
        invariant
            b <= ids@.len(),
            forall|q: int| 0 <= q < b ==> ids@[q] != t,
            exists|q: int| 0 <= q < ids@.len() && ids@[q] == t,
        decreases ids@.len() - b,
    {
        if ids[b] == t {
            return b;
        }
        b = b + 1;
    }
    proof {
        let q = choose|q: int| 0 <= q < ids@.len() && ids@[q] == t;
        assert(ids@[q] != t);
    }
    0
}

/// The place of the node with id `id`.
pub open spec fn index_of_id(ns: Seq<NodeView>, id: usize) -> int {
    choose|b: int| 0 <= b < ns.len() && ns[b].id == id
}

/// The nodes numbered by their place, with walkable connections renamed to match.
pub open spec fn reindexed(ns: Seq<NodeView>) -> Seq<NodeView> {
    Seq::new(
        ns.len(),
        |x: int|
            NodeView {
                id: x as usize,
                walk: ns[x].walk.map_values(
                    |c: PathfindingGraphConnection|
                        PathfindingGraphConnection { node_id: index_of_id(ns, c.node_id) as usize, ..c },
                ),
                ..ns[x]
            },
    )
}

/// Renumbers the nodes by their place in the list, and every walkable
/// connection with them.
pub fn make_node_ids_indices(pathfinding: &mut PathfindingGraph)
    requires
        ids_distinct(old(pathfinding).nodes@),
        targets_exist(old(pathfinding).nodes@),
        walkable_typed(old(pathfinding).nodes@),
    ensures
        final(pathfinding).nodes@.len() == old(pathfinding).nodes@.len(),
        nodes_view(final(pathfinding).nodes@) == reindexed(nodes_view(old(pathfinding).nodes@)),
        forall|x: int|
            0 <= x < final(pathfinding).nodes@.len() ==> (#[trigger] final(pathfinding).nodes@[x]).id
                == x && same_but_id_and_walkable(final(pathfinding).nodes@[x], old(pathfinding).nodes@[x]),
        walkable_ok(final(pathfinding).nodes@),
        symmetric_by_id(old(pathfinding).nodes@) ==> walkable_symmetric(final(pathfinding).nodes@),
        final(pathfinding).spatial_grid@ == old(pathfinding).spatial_grid@,
        final(pathfinding).grid_bounds == old(pathfinding).grid_bounds,
{
    let n = pathfinding.nodes.len();
    let ghost orig = pathfinding.nodes@;
    let mut ids: Vec<usize> = Vec::new();
    let mut x: usize = 0;
    while x < n
        invariant
            n == orig.len(),
            pathfinding.nodes@ == orig,
            x <= n,
            ids@.len() == x,
            forall|q: int| 0 <= q < x ==> ids@[q] == orig[q].id,
        decreases n - x,
    {
        ids.push(pathfinding.nodes[x].id);
        x = x + 1;
    }
    let mut x: usize = 0;
    while x < n
        invariant
            n == orig.len(),
            ids@.len() == n,
            forall|q: int| 0 <= q < n ==> ids@[q] == orig[q].id,
            ids_distinct(orig),
            targets_exist(orig),
            walkable_typed(orig),
            x <= n,
            pathfinding.nodes@.len() == n,
            forall|y: int|
                0 <= y < n ==> same_but_walkable(#[trigger] pathfinding.nodes@[y], orig[y])
                    && pathfinding.nodes@[y].walkable_connections@.len()
                    == orig[y].walkable_connections@.len(),
            forall|y: int, k: int|
                0 <= y < n && 0 <= k < orig[y].walkable_connections@.len() ==> {
                    let c = orig[y].walkable_connections@[k];
                    let c2 = #[trigger] pathfinding.nodes@[y].walkable_connections@[k];
                    if y < x {
                        c2.node_id < n && orig[c2.node_id as int].id == c.node_id && c2 == (
                        PathfindingGraphConnection { node_id: c2.node_id, ..c })
                    } else {
                        c2 == c
                    }
                },
            pathfinding.spatial_grid@ == old(pathfinding).spatial_grid@,
            pathfinding.grid_bounds == old(pathfinding).grid_bounds,
        decreases n - x,
    {
        let mut k: usize = 0;
        while k < pathfinding.nodes[x].walkable_connections.len()
            invariant
                n == orig.len(),
                ids@.len() == n,
                forall|q: int| 0 <= q < n ==> ids@[q] == orig[q].id,
                ids_distinct(orig),
                targets_exist(orig),
                walkable_typed(orig),
                x < n,
                pathfinding.nodes@.len() == n,
                k <= pathfinding.nodes@[x as int].walkable_connections@.len(),
                forall|y: int|
                    0 <= y < n ==> same_but_walkable(#[trigger] pathfinding.nodes@[y], orig[y])
                        && pathfinding.nodes@[y].walkable_connections@.len()
                        == orig[y].walkable_connections@.len(),
                forall|y: int, q: int|
                    0 <= y < n && 0 <= q < orig[y].walkable_connections@.len() ==> {
                        let c = orig[y].walkable_connections@[q];
                        let c2 = #[trigger] pathfinding.nodes@[y].walkable_connections@[q];
                        if y < x || (y == x && q < k) {
                            c2.node_id < n && orig[c2.node_id as int].id == c.node_id && c2 == (
                            PathfindingGraphConnection { node_id: c2.node_id, ..c })
                        } else {
                            c2 == c
                        }
                    },
                pathfinding.spatial_grid@ == old(pathfinding).spatial_grid@,
                pathfinding.grid_bounds == old(pathfinding).grid_bounds,
            decreases pathfinding.nodes@[x as int].walkable_connections@.len() - k,
        {
            let c = pathfinding.nodes[x].walkable_connections[k];
            proof {
                assert(c == orig[x as int].walkable_connections@[k as int]);
                let b = choose|b: int| 0 <= b < orig.len() && orig[b].id == c.node_id;
                assert(ids@[b] == c.node_id);
            }
            let b = find_id(&ids, c.node_id);
            pathfinding.nodes[x].walkable_connections.set(k, PathfindingGraphConnection { node_id: b, ..c });
            k = k + 1;
        }
        x = x + 1;
    }
    let mut x: usize = 0;
    while x < n
        invariant
            n == orig.len(),
            x <= n,
            pathfinding.nodes@.len() == n,
            forall|y: int|
                0 <= y < n ==> same_but_id_and_walkable(#[trigger] pathfinding.nodes@[y], orig[y])
                    && pathfinding.nodes@[y].walkable_connections@.len()
                    == orig[y].walkable_connections@.len() && (y < x ==> pathfinding.nodes@[y].id == y),
            forall|y: int, k: int|
                0 <= y < n && 0 <= k < orig[y].walkable_connections@.len() ==> {
                    let c = orig[y].walkable_connections@[k];
                    let c2 = #[trigger] pathfinding.nodes@[y].walkable_connections@[k];
                    c2.node_id < n && orig[c2.node_id as int].id == c.node_id && c2 == (
                    PathfindingGraphConnection { node_id: c2.node_id, ..c })
                },
            pathfinding.spatial_grid@ == old(pathfinding).spatial_grid@,
            pathfinding.grid_bounds == old(pathfinding).grid_bounds,
        decreases n - x,
    {
        pathfinding.nodes[x].id = x;
        x = x + 1;
    }
    proof {
        let fin = pathfinding.nodes@;
        assert forall|a: int, k: int|
            0 <= a < n && 0 <= k < fin[a].walkable_connections@.len() implies {
                let c = #[trigger] fin[a].walkable_connections@[k];
                &&& c.node_id < n
                &&& c == walk_conn(c.node_id as int, c.dist as int)
                &&& c.dist <= MAX_WEIGHT
            } by {
            let c = orig[a].walkable_connections@[k];
            assert(c == walk_conn(c.node_id as int, c.dist as int));
        }
        if symmetric_by_id(orig) {
            assert forall|a: int, k: int|
                0 <= a < n && 0 <= k < fin[a].walkable_connections@.len() implies {
                    let c = #[trigger] fin[a].walkable_connections@[k];
                    &&& c.node_id < n
                    &&& has_mirror(fin[c.node_id as int].walkable_connections@, a, c.dist)
                } by {
                let c = orig[a].walkable_connections@[k];
                let c2 = fin[a].walkable_connections@[k];
                let b = c2.node_id as int;
                let b2 = choose|b2: int|
                    0 <= b2 < orig.len() && orig[b2].id == c.node_id && has_mirror(
                        orig[b2].walkable_connections@,
                        orig[a].id as int,
                        c.dist,
                    );
                assert(b2 == b);
                let wb = orig[b].walkable_connections@;
                let k2 = choose|k2: int| 0 <= k2 < wb.len() && wb[k2] == walk_conn(orig[a].id as int, c.dist as int);
                let m2 = fin[b].walkable_connections@[k2];
                assert(orig[m2.node_id as int].id == orig[a].id);
                assert(m2.node_id == a);
                assert(m2 == walk_conn(a, c.dist as int));
            }
        }
        let ov = nodes_view(orig);
        let rv = reindexed(ov);
        assert forall|x: int| 0 <= x < n implies #[trigger] nodes_view(fin)[x] == rv[x] by {
            assert(ov[x] == orig[x]@);
            assert forall|k: int| 0 <= k < fin[x].walkable_connections@.len() implies #[trigger] fin[x].walkable_connections@[k]
                == rv[x].walk[k] by {
                let c = orig[x].walkable_connections@[k];
                let c2 = fin[x].walkable_connections@[k];
                let b = index_of_id(ov, c.node_id);
                assert(ov[c2.node_id as int] == orig[c2.node_id as int]@);
                assert(0 <= b < ov.len() && ov[b].id == c.node_id);
                assert(ov[b] == orig[b]@);
                assert(b == c2.node_id);
            }
            assert(fin[x].walkable_connections@ =~= rv[x].walk);
        }
        assert(nodes_view(fin) =~= rv);
    }
}

/// Largest sideways offset of a drop.
pub const MAX_HORIZONTAL_DROP_OFFSET: i64 = 30_000;

/// The two nodes agree on everything but their jump connections.
pub open spec fn same_but_jumpable(a: PathfindingGraphNode, b: PathfindingGraphNode) -> bool {
    &&& a.id == b.id
    &&& a.position == b.position
    &&& a.polygon_index == b.polygon_index
    &&& a.line_indicies@ == b.line_indicies@
    &&& a.walkable_connections@ == b.walkable_connections@
    &&& a.droppable_connections@ == b.droppable_connections@
    &&& a.normal == b.normal
    &&& a.is_corner == b.is_corner
    &&& a.is_external_corner == b.is_external_corner
}

/// The two nodes agree on everything but their drop connections.
pub open spec fn same_but_droppable(a: PathfindingGraphNode, b: PathfindingGraphNode) -> bool {
    &&& a.id == b.id
    &&& a.position == b.position
    &&& a.polygon_index == b.polygon_index
    &&& a.line_indicies@ == b.line_indicies@
    &&& a.walkable_connections@ == b.walkable_connections@
    &&& a.jumpable_connections@ == b.jumpable_connections@
    &&& a.normal == b.normal
    &&& a.is_corner == b.is_corner
    &&& a.is_external_corner == b.is_external_corner
}

/// An agent can jump from node `i` to node `j`: they are on different polygons,
/// nothing blocks the straight line between them, and the jump check passes.
pub open spec fn jump_allowed(
    level: &Level,
    ns: Seq<NodeView>,
    i: int,
    j: int,
    radius: int,
) -> bool {
    let a = ns[i];
    let b = ns[j];
    &&& i != j
    &&& a.polygon_index != b.polygon_index
    &&& !segment_blocked_spec(level, a, b, a.position, b.position)
    &&& jump_discriminant(b.position.x - a.position.x, b.position.y - a.position.y) >= 0
    &&& !jump_arc_blocked(level, a, b, radius)
}

/// An agent can drop from node `i` to node `j`: they are on different polygons,
/// `j` lies strictly lower and at most `MAX_HORIZONTAL_DROP_OFFSET` to the side,
/// nothing blocks the straight line between them, and the drop check passes.
pub open spec fn drop_allowed(
    level: &Level,
    ns: Seq<NodeView>,
    i: int,
    j: int,
    radius: int,
) -> bool {
    let a = ns[i];
    let b = ns[j];
    &&& i != j
    &&& a.polygon_index != b.polygon_index
    &&& b.position.y < a.position.y
    &&& -MAX_HORIZONTAL_DROP_OFFSET <= b.position.x - a.position.x <= MAX_HORIZONTAL_DROP_OFFSET
    &&& !segment_blocked_spec(level, a, b, a.position, b.position)
    &&& !drop_arc_blocked(level, a, b, radius)
}

/// The jump connection from node `i` to node `j`: its effort is the launch speed.
pub open spec fn jump_conn(ns: Seq<NodeView>, i: int, j: int) -> PathfindingGraphConnection {
    let a = ns[i].position;
    let b = ns[j].position;
    PathfindingGraphConnection {
        node_id: j as usize,
        dist: sqrt_floor(sq_dist(a, b)) as u64,
        connection_type: PathfindingGraphConnectionType::Jumpable,
        effort: jump_speed(b.x - a.x, b.y - a.y) as u64,
    }
}

/// The drop connection from node `i` to node `j`: its effort is half its length.
pub open spec fn drop_conn(ns: Seq<NodeView>, i: int, j: int) -> PathfindingGraphConnection {
    let d = sqrt_floor(sq_dist(ns[i].position, ns[j].position));
    PathfindingGraphConnection {
        node_id: j as usize,
        dist: d as u64,
        connection_type: PathfindingGraphConnectionType::Droppable,
        effort: (d / 2) as u64,
    }
}

/// The connections `conn(j)` for the nodes `j < upto` that `allowed` admits, in
/// increasing order of `j`.
pub open spec fn filtered_conns(
    allowed: spec_fn(int) -> bool,
    conn: spec_fn(int) -> PathfindingGraphConnection,
    upto: int,
) -> Seq<PathfindingGraphConnection>
    decreases upto,
{
    if upto <= 0 {
        seq![]
    } else {
        filtered_conns(allowed, conn, upto - 1) + if allowed(upto - 1) {
            seq![conn(upto - 1)]
        } else {
            seq![]
        }
    }
}

/// The nodes with their jump connections.
pub open spec fn with_jumps(level: &Level, ns: Seq<NodeView>, radius: int) -> Seq<NodeView> {
    Seq::new(
        ns.len(),
        |i: int|
            NodeView {
                jump: filtered_conns(
                    |j: int| jump_allowed(level, ns, i, j, radius),
                    |j: int| jump_conn(ns, i, j),
                    ns.len() as int,
                ),
                ..ns[i]
            },
    )
}

/// The nodes with their drop connections.
pub open spec fn with_drops(level: &Level, ns: Seq<NodeView>, radius: int) -> Seq<NodeView> {
    Seq::new(
        ns.len(),
        |i: int|
            NodeView {
                drop: filtered_conns(
                    |j: int| drop_allowed(level, ns, i, j, radius),
                    |j: int| drop_conn(ns, i, j),
                    ns.len() as int,
                ),
                ..ns[i]
            },
    )
}

/// `cs` lists, in increasing order of target, the connections `conn(j)` for
/// exactly the nodes `j < upto` that `allowed` admits.
pub open spec fn lists_exactly(
    cs: Seq<PathfindingGraphConnection>,
    allowed: spec_fn(int) -> bool,
    conn: spec_fn(int) -> PathfindingGraphConnection,
    upto: int,
) -> bool {
    &&& forall|k: int| 0 <= k < cs.len() ==> (#[trigger] cs[k]).node_id < upto && allowed(cs[k].node_id as int)
        && cs[k] == conn(cs[k].node_id as int)
    &&& forall|k1: int, k2: int| 0 <= k1 < k2 < cs.len() ==> (#[trigger] cs[k1]).node_id < (#[trigger] cs[k2]).node_id
    &&& forall|j: int| 0 <= j < upto && #[trigger] allowed(j) ==> exists|k: int| 0 <= k < cs.len() && cs[k].node_id == j
}

/// Every node lies within the coordinate bounds.
pub open spec fn positions_in_bounds(nodes: Seq<PathfindingGraphNode>) -> bool {
    forall|a: int| 0 <= a < nodes.len() ==> in_bounds(#[trigger] nodes[a].position)
}

/// The edge tests depend on a node only through its place and its edges.
proof fn lemma_edge_tests_congruent(
    level: &Level,
    a: NodeView,
    a2: NodeView,
    b: NodeView,
    b2: NodeView,
    radius: int,
)
    requires
        a.position == a2.position,
        a.polygon_index == a2.polygon_index,
        a.lines == a2.lines,
        b.position == b2.position,
        b.polygon_index == b2.polygon_index,
        b.lines == b2.lines,
    ensures
        segment_blocked_spec(level, a, b, a.position, b.position) == segment_blocked_spec(
            level,
            a2,
            b2,
            a.position,
            b.position,
        ),
        jump_arc_blocked(level, a, b, radius) == jump_arc_blocked(level, a2, b2, radius),
        drop_arc_blocked(level, a, b, radius) == drop_arc_blocked(level, a2, b2, radius),
{
    assert forall|pi: int, li: int| owns_edge(a, pi, li) == owns_edge(a2, pi, li) && owns_edge(b, pi, li) == owns_edge(b2, pi, li) by {}
    assert forall|p: Point, q: Point|
        segment_blocked_spec(level, a, b, p, q) == segment_blocked_spec(level, a2, b2, p, q) by {
        if segment_blocked_spec(level, a, b, p, q) {
            let (pi, li) = choose|pi: int, li: int|
                #![trigger level.edge_start(pi, li)]
                level.has_edge(pi, li) && !owns_edge(a, pi, li) && !owns_edge(b, pi, li)
                    && crate::geometry::segments_cross(p, q, level.edge_start(pi, li), level.edge_end(pi, li));
            assert(owns_edge(a, pi, li) == owns_edge(a2, pi, li));
            assert(owns_edge(b, pi, li) == owns_edge(b2, pi, li));
        }
        if segment_blocked_spec(level, a2, b2, p, q) {
            let (pi, li) = choose|pi: int, li: int|
                #![trigger level.edge_start(pi, li)]
                level.has_edge(pi, li) && !owns_edge(a2, pi, li) && !owns_edge(b2, pi, li)
                    && crate::geometry::segments_cross(p, q, level.edge_start(pi, li), level.edge_end(pi, li));
            assert(owns_edge(a, pi, li) == owns_edge(a2, pi, li));
            assert(owns_edge(b, pi, li) == owns_edge(b2, pi, li));
        }
    }
    assert forall|p: Point, q: Point|
        #[trigger] capsule_blocked(level, a, b, p, q, radius) == capsule_blocked(level, a2, b2, p, q, radius) by {
    }
    if jump_arc_blocked(level, a, b, radius) {
        let k = choose|k: int| 1 <= k <= 11 && #[trigger] capsule_blocked(level, a, b,
            crate::trajectory::jump_sample(a.position, b.position, k - 1),
            crate::trajectory::jump_sample(a.position, b.position, k), radius);
        assert(capsule_blocked(level, a2, b2,
            crate::trajectory::jump_sample(a2.position, b2.position, k - 1),
            crate::trajectory::jump_sample(a2.position, b2.position, k), radius));
    }
    if jump_arc_blocked(level, a2, b2, radius) {
        let k = choose|k: int| 1 <= k <= 11 && #[trigger] capsule_blocked(level, a2, b2,
            crate::trajectory::jump_sample(a2.position, b2.position, k - 1),
            crate::trajectory::jump_sample(a2.position, b2.position, k), radius);
        assert(capsule_blocked(level, a, b,
            crate::trajectory::jump_sample(a.position, b.position, k - 1),
            crate::trajectory::jump_sample(a.position, b.position, k), radius));
    }
    if drop_arc_blocked(level, a, b, radius) {
        let k = choose|k: int| 1 <= k <= 11 && #[trigger] capsule_blocked(level, a, b,
            crate::trajectory::drop_sample(a.position, b.position, k - 1),
            crate::trajectory::drop_sample(a.position, b.position, k), radius);
        assert(capsule_blocked(level, a2, b2,
            crate::trajectory::drop_sample(a2.position, b2.position, k - 1),
            crate::trajectory::drop_sample(a2.position, b2.position, k), radius));
    }
    if drop_arc_blocked(level, a2, b2, radius) {
        let k = choose|k: int| 1 <= k <= 11 && #[trigger] capsule_blocked(level, a2, b2,
            crate::trajectory::drop_sample(a2.position, b2.position, k - 1),
            crate::trajectory::drop_sample(a2.position, b2.position, k), radius);
        assert(capsule_blocked(level, a, b,
            crate::trajectory::drop_sample(a.position, b.position, k - 1),
            crate::trajectory::drop_sample(a.position, b.position, k), radius));
    }
}

/// Gives every node a jump connection to each node it can jump to.
pub fn make_jumpable_connections(pathfinding: &mut PathfindingGraph, level: &Level, radius: i64)
    requires
        level.well_formed(),
        valid_radius(radius),
        positions_in_bounds(old(pathfinding).nodes@),
    ensures
        final(pathfinding).nodes@.len() == old(pathfinding).nodes@.len(),
        nodes_view(final(pathfinding).nodes@) == with_jumps(level, nodes_view(old(pathfinding).nodes@), radius as int),
        forall|i: int|
            0 <= i < final(pathfinding).nodes@.len() ==> same_but_jumpable(
                #[trigger] final(pathfinding).nodes@[i],
                old(pathfinding).nodes@[i],
            ) && conns_ok(final(pathfinding).nodes@[i].jumpable_connections@, final(pathfinding).nodes@.len() as int)
                && conns_of_kind(final(pathfinding).nodes@[i].jumpable_connections@, PathfindingGraphConnectionType::Jumpable)
                && lists_exactly(
                final(pathfinding).nodes@[i].jumpable_connections@,
                |j: int| jump_allowed(level, nodes_view(old(pathfinding).nodes@), i, j, radius as int),
                |j: int| jump_conn(nodes_view(old(pathfinding).nodes@), i, j),
                old(pathfinding).nodes@.len() as int,
            ),
        final(pathfinding).spatial_grid@ == old(pathfinding).spatial_grid@,
        final(pathfinding).grid_bounds == old(pathfinding).grid_bounds,
{
    let n = pathfinding.nodes.len();
    let ghost orig = pathfinding.nodes@;
    let mut i: usize = 0;
    while i < n
        invariant
            level.well_formed(),
            valid_radius(radius),
            positions_in_bounds(orig),
            n == orig.len(),
            i <= n,
            pathfinding.nodes@.len() == n,
            forall|x: int| 0 <= x < n ==> same_but_jumpable(#[trigger] pathfinding.nodes@[x], orig[x]),
            forall|x: int|
                0 <= x < i ==> (#[trigger] pathfinding.nodes@[x]).jumpable_connections@ == filtered_conns(
                    |q: int| jump_allowed(level, nodes_view(orig), x, q, radius as int),
                    |q: int| jump_conn(nodes_view(orig), x, q),
                    n as int,
                ),
            forall|x: int|
                0 <= x < i ==> conns_ok(pathfinding.nodes@[x].jumpable_connections@, n as int)
                    && conns_of_kind(pathfinding.nodes@[x].jumpable_connections@, PathfindingGraphConnectionType::Jumpable)
                    && lists_exactly(
                    (#[trigger] pathfinding.nodes@[x]).jumpable_connections@,
                    |j: int| jump_allowed(level, nodes_view(orig), x, j, radius as int),
                    |j: int| jump_conn(nodes_view(orig), x, j),
                    n as int,
                ),
            pathfinding.spatial_grid@ == old(pathfinding).spatial_grid@,
            pathfinding.grid_bounds == old(pathfinding).grid_bounds,
        decreases n - i,
    {
        let mut conns: Vec<PathfindingGraphConnection> = Vec::new();
        let mut j: usize = 0;
        while j < n
            invariant
                level.well_formed(),
                valid_radius(radius),
                positions_in_bounds(orig),
                n == orig.len(),
                i < n,
                j <= n,
                pathfinding.nodes@.len() == n,
                forall|x: int| 0 <= x < n ==> same_but_jumpable(#[trigger] pathfinding.nodes@[x], orig[x]),
                lists_exactly(
                    conns@,
                    |q: int| jump_allowed(level, nodes_view(orig), i as int, q, radius as int),
                    |q: int| jump_conn(nodes_view(orig), i as int, q),
                    j as int,
                ),
                conns_ok(conns@, n as int),
                conns_of_kind(conns@, PathfindingGraphConnectionType::Jumpable),
                conns@ == filtered_conns(
                    |q: int| jump_allowed(level, nodes_view(orig), i as int, q, radius as int),
                    |q: int| jump_conn(nodes_view(orig), i as int, q),
                    j as int,
                ),
            decreases n - j,
        {
            let ghost allowed = |q: int| jump_allowed(level, nodes_view(orig), i as int, q, radius as int);
            let ghost conn = |q: int| jump_conn(nodes_view(orig), i as int, q);
            proof {
                assert(same_but_jumpable(pathfinding.nodes@[i as int], orig[i as int]));
                assert(same_but_jumpable(pathfinding.nodes@[j as int], orig[j as int]));
                assert(in_bounds(orig[i as int].position));
                assert(in_bounds(orig[j as int].position));
            }
            let main_node = &pathfinding.nodes[i];
            let other_node = &pathfinding.nodes[j];
            proof {
                assert(nodes_view(orig)[i as int] == orig[i as int]@);
                assert(nodes_view(orig)[j as int] == orig[j as int]@);
                lemma_edge_tests_congruent(level, main_node@, nodes_view(orig)[i as int], other_node@, nodes_view(orig)[j as int], radius as int);
            }
            let mut found = false;
            if i != j && main_node.polygon_index != other_node.polygon_index {
                if !segment_blocked(level, main_node, other_node, main_node.position, other_node.position) {
                    match jumpability_check(main_node, other_node, level, radius) {
                        Some(effort) => {
                            let dist = distance(main_node.position, other_node.position);
                            let ghost before = conns@;
                            conns.push(
                                PathfindingGraphConnection {
                                    node_id: j,
                                    dist,
                                    connection_type: PathfindingGraphConnectionType::Jumpable,
                                    effort,
                                },
                            );
                            found = true;
                            proof {
                                assert(allowed(j as int));
                                assert(conns@[before.len() as int] == conn(j as int));
                                assert forall|q: int| 0 <= q < j + 1 && #[trigger] allowed(q) implies exists|k: int|
                                    0 <= k < conns@.len() && conns@[k].node_id == q by {
                                    if q < j {
                                        let k = choose|k: int| 0 <= k < before.len() && before[k].node_id == q;
                                        assert(conns@[k] == before[k]);
                                    } else {
                                        assert(conns@[before.len() as int].node_id == q);
                                    }
                                }
                            }
                        },
                        None => {},
                    }
                }
            }
            proof {
                if !found {
                    assert(!allowed(j as int));
                    assert forall|q: int| 0 <= q < j + 1 && #[trigger] allowed(q) implies exists|k: int|
                        0 <= k < conns@.len() && conns@[k].node_id == q by {
                    }
                }
            }
            j = j + 1;
        }
        pathfinding.nodes[i].jumpable_connections = conns;
        i = i + 1;
    }
    proof {
        let ov = nodes_view(orig);
        let wv = with_jumps(level, ov, radius as int);
        let fin = pathfinding.nodes@;
        assert forall|x: int| 0 <= x < n implies #[trigger] nodes_view(fin)[x] == wv[x] by {
            assert(ov[x] == orig[x]@);
            assert(same_but_jumpable(fin[x], orig[x]));
            let f1 = |q: int| jump_allowed(level, ov, x, q, radius as int);
            let c1 = |q: int| jump_conn(ov, x, q);
            assert(fin[x].jumpable_connections@ == filtered_conns(f1, c1, n as int));
        }
        assert(nodes_view(fin) =~= wv);
    }
}

/// Gives every node a drop connection to each node it can drop to.
pub fn make_droppable_connections(pathfinding: &mut PathfindingGraph, level: &Level, radius: i64)
    requires
        level.well_formed(),
        valid_radius(radius),
        positions_in_bounds(old(pathfinding).nodes@),
    ensures
        final(pathfinding).nodes@.len() == old(pathfinding).nodes@.len(),
        nodes_view(final(pathfinding).nodes@) == with_drops(level, nodes_view(old(pathfinding).nodes@), radius as int),
        forall|i: int|
            0 <= i < final(pathfinding).nodes@.len() ==> same_but_droppable(
                #[trigger] final(pathfinding).nodes@[i],
                old(pathfinding).nodes@[i],
            ) && conns_ok(final(pathfinding).nodes@[i].droppable_connections@, final(pathfinding).nodes@.len() as int)
                && conns_of_kind(final(pathfinding).nodes@[i].droppable_connections@, PathfindingGraphConnectionType::Droppable)
                && lists_exactly(
                final(pathfinding).nodes@[i].droppable_connections@,
                |j: int| drop_allowed(level, nodes_view(old(pathfinding).nodes@), i, j, radius as int),
                |j: int| drop_conn(nodes_view(old(pathfinding).nodes@), i, j),
                old(pathfinding).nodes@.len() as int,
            ),
        final(pathfinding).spatial_grid@ == old(pathfinding).spatial_grid@,
        final(pathfinding).grid_bounds == old(pathfinding).grid_bounds,
{
    let n = pathfinding.nodes.len();
    let ghost orig = pathfinding.nodes@;
    let mut i: usize = 0;
    while i < n
        invariant
            level.well_formed(),
            valid_radius(radius),
            positions_in_bounds(orig),
            n == orig.len(),
            i <= n,
            pathfinding.nodes@.len() == n,
            forall|x: int| 0 <= x < n ==> same_but_droppable(#[trigger] pathfinding.nodes@[x], orig[x]),
            forall|x: int|
                0 <= x < i ==> (#[trigger] pathfinding.nodes@[x]).droppable_connections@ == filtered_conns(
                    |q: int| drop_allowed(level, nodes_view(orig), x, q, radius as int),
                    |q: int| drop_conn(nodes_view(orig), x, q),
                    n as int,
                ),
            forall|x: int|
                0 <= x < i ==> conns_ok(pathfinding.nodes@[x].droppable_connections@, n as int)
                    && conns_of_kind(pathfinding.nodes@[x].droppable_connections@, PathfindingGraphConnectionType::Droppable)
                    && lists_exactly(
                    (#[trigger] pathfinding.nodes@[x]).droppable_connections@,
                    |j: int| drop_allowed(level, nodes_view(orig), x, j, radius as int),
                    |j: int| drop_conn(nodes_view(orig), x, j),
                    n as int,
                ),
            pathfinding.spatial_grid@ == old(pathfinding).spatial_grid@,
            pathfinding.grid_bounds == old(pathfinding).grid_bounds,
        decreases n - i,
    {
        let mut conns: Vec<PathfindingGraphConnection> = Vec::new();
        let mut j: usize = 0;
        while j < n
            invariant
                level.well_formed(),
                valid_radius(radius),
                positions_in_bounds(orig),
                n == orig.len(),
                i < n,
                j <= n,
                pathfinding.nodes@.len() == n,
                forall|x: int| 0 <= x < n ==> same_but_droppable(#[trigger] pathfinding.nodes@[x], orig[x]),
                lists_exactly(
                    conns@,
                    |q: int| drop_allowed(level, nodes_view(orig), i as int, q, radius as int),
                    |q: int| drop_conn(nodes_view(orig), i as int, q),
                    j as int,
                ),
                conns_ok(conns@, n as int),
                conns_of_kind(conns@, PathfindingGraphConnectionType::Droppable),
                conns@ == filtered_conns(
                    |q: int| drop_allowed(level, nodes_view(orig), i as int, q, radius as int),
                    |q: int| drop_conn(nodes_view(orig), i as int, q),
                    j as int,
                ),
            decreases n - j,
        {
            let ghost allowed = |q: int| drop_allowed(level, nodes_view(orig), i as int, q, radius as int);
            let ghost conn = |q: int| drop_conn(nodes_view(orig), i as int, q);
            proof {
                assert(same_but_droppable(pathfinding.nodes@[i as int], orig[i as int]));
                assert(same_but_droppable(pathfinding.nodes@[j as int], orig[j as int]));
                assert(in_bounds(orig[i as int].position));
                assert(in_bounds(orig[j as int].position));
            }
            let main_node = &pathfinding.nodes[i];
            let other_node = &pathfinding.nodes[j];
            proof {
                assert(nodes_view(orig)[i as int] == orig[i as int]@);
                assert(nodes_view(orig)[j as int] == orig[j as int]@);
                lemma_edge_tests_congruent(level, main_node@, nodes_view(orig)[i as int], other_node@, nodes_view(orig)[j as int], radius as int);
            }
            let mut found = false;
            if i != j && main_node.polygon_index != other_node.polygon_index
                && other_node.position.y < main_node.position.y {
                let horizontal = other_node.position.x as i128 - main_node.position.x as i128;
                if -(MAX_HORIZONTAL_DROP_OFFSET as i128) <= horizontal && horizontal
                    <= MAX_HORIZONTAL_DROP_OFFSET as i128 {
                    if !segment_blocked(level, main_node, other_node, main_node.position, other_node.position) {
                        match droppability_check(main_node, other_node, level, radius) {
                            Some(drop_distance) => {
                                let ghost before = conns@;
                                conns.push(
                                    PathfindingGraphConnection {
                                        node_id: j,
                                        dist: drop_distance,
                                        connection_type: PathfindingGraphConnectionType::Droppable,
                                        effort: drop_distance / 2,
                                    },
                                );
                                found = true;
                                proof {
                                    assert(allowed(j as int));
                                    assert(conns@[before.len() as int] == conn(j as int));
                                    assert forall|q: int| 0 <= q < j + 1 && #[trigger] allowed(q) implies exists|k: int|
                                        0 <= k < conns@.len() && conns@[k].node_id == q by {
                                        if q < j {
                                            let k = choose|k: int| 0 <= k < before.len() && before[k].node_id == q;
                                            assert(conns@[k] == before[k]);
                                        } else {
                                            assert(conns@[before.len() as int].node_id == q);
                                        }
                                    }
                                }
                            },
                            None => {},
                        }
                    }
                }
            }
            proof {
                if !found {
                    assert(!allowed(j as int));
                    assert forall|q: int| 0 <= q < j + 1 && #[trigger] allowed(q) implies exists|k: int|
                        0 <= k < conns@.len() && conns@[k].node_id == q by {
                    }
                }
            }
            j = j + 1;
        }
        pathfinding.nodes[i].droppable_connections = conns;
        i = i + 1;
    }
    proof {
        let ov = nodes_view(orig);
        let wv = with_drops(level, ov, radius as int);
        let fin = pathfinding.nodes@;
        assert forall|x: int| 0 <= x < n implies #[trigger] nodes_view(fin)[x] == wv[x] by {
            assert(ov[x] == orig[x]@);
            assert(same_but_droppable(fin[x], orig[x]));
            let f1 = |q: int| drop_allowed(level, ov, x, q, radius as int);
            let c1 = |q: int| drop_conn(ov, x, q);
            assert(fin[x].droppable_connections@ == filtered_conns(f1, c1, n as int));
        }
        assert(nodes_view(fin) =~= wv);
    }
}

/// Most edges of a node that count towards its normal.
pub const MAX_NORMAL_EDGES: usize = 0xFFFF_FFFF;

/// The outward normal of edge `li` of polygon `pi`: its direction turned a
/// quarter counter-clockwise, `UNIT` long; zero when there is no such edge.
pub open spec fn edge_normal(level: &Level, pi: int, li: int) -> (int, int) {
    if level.has_edge(pi, li) {
        let s = level.edge_start(pi, li);
        let e = level.edge_end(pi, li);
        unit_scaled(-(e.y - s.y), e.x - s.x)
    } else {
        (0, 0)
    }
}

/// Sum of the normals of the first `k` edges in `lines`.
pub open spec fn normal_sum(level: &Level, pi: int, lines: Seq<usize>, k: int) -> (int, int)
    decreases k,
{
    if k <= 0 {
        (0, 0)
    } else {
        let prev = normal_sum(level, pi, lines, k - 1);
        let e = edge_normal(level, pi, lines[k - 1] as int);
        (prev.0 + e.0, prev.1 + e.1)
    }
}

/// A node's normal: the sum of the normals of its edges (at most
/// `MAX_NORMAL_EDGES` of them), scaled to length `UNIT`, or zero.
pub open spec fn node_normal(level: &Level, node: NodeView) -> Point {
    let k = if node.lines.len() <= MAX_NORMAL_EDGES {
        node.lines.len() as int
    } else {
        MAX_NORMAL_EDGES as int
    };
    let sum = normal_sum(level, node.polygon_index as int, node.lines, k);
    let u = unit_scaled(sum.0, sum.1);
    Point { x: u.0 as i64, y: u.1 as i64 }
}

/// The two nodes agree on everything but their normal.
pub open spec fn same_but_normal(a: PathfindingGraphNode, b: PathfindingGraphNode) -> bool {
    &&& a.id == b.id
    &&& a.position == b.position
    &&& a.polygon_index == b.polygon_index
    &&& a.line_indicies@ == b.line_indicies@
    &&& a.walkable_connections@ == b.walkable_connections@
    &&& a.jumpable_connections@ == b.jumpable_connections@
    &&& a.droppable_connections@ == b.droppable_connections@
    &&& a.is_corner == b.is_corner
    &&& a.is_external_corner == b.is_external_corner
}

fn edge_normal_of(level: &Level, pi: usize, li: usize) -> (r: (i128, i128))
    requires
        level.well_formed(),
    ensures
        r.0 as int == edge_normal(level, pi as int, li as int).0,
        r.1 as int == edge_normal(level, pi as int, li as int).1,
        -UNIT <= r.0 <= UNIT,
        -UNIT <= r.1 <= UNIT,
{
    if pi >= level.polygons.len() {
        return (0, 0);
    }
    let plen = level.polygons[pi].points.len();
    if li < plen && li + 1 < plen {
        let s = level.polygons[pi].points[li];
        let e = level.polygons[pi].points[li + 1];
        proof {
            assert(in_bounds(level.polygons@[pi as int].points@[li as int]));
            assert(in_bounds(level.polygons@[pi as int].points@[li + 1]));
            assert(level.edge_start(pi as int, li as int) == s);
            assert(level.edge_end(pi as int, li as int) == e);
        }
        scale_to_unit(-(e.y as i128 - s.y as i128), e.x as i128 - s.x as i128)
    } else {
        (0, 0)
    }
}

/// The nodes with their normals.
pub open spec fn with_normals(level: &Level, ns: Seq<NodeView>) -> Seq<NodeView> {
    Seq::new(ns.len(), |i: int| NodeView { normal: node_normal(level, ns[i]), ..ns[i] })
}

/// Sets each node's normal from the edges it lies on.
pub fn calculate_normals(pathfinding: &mut PathfindingGraph, level: &Level)
    requires
        level.well_formed(),
    ensures
        final(pathfinding).nodes@.len() == old(pathfinding).nodes@.len(),
        nodes_view(final(pathfinding).nodes@) == with_normals(level, nodes_view(old(pathfinding).nodes@)),
        forall|i: int|
            0 <= i < final(pathfinding).nodes@.len() ==> same_but_normal(
                #[trigger] final(pathfinding).nodes@[i],
                old(pathfinding).nodes@[i],
            ) && final(pathfinding).nodes@[i].normal == node_normal(level, old(pathfinding).nodes@[i]@)
                && -UNIT <= final(pathfinding).nodes@[i].normal.x <= UNIT
                && -UNIT <= final(pathfinding).nodes@[i].normal.y <= UNIT,
        final(pathfinding).spatial_grid@ == old(pathfinding).spatial_grid@,
        final(pathfinding).grid_bounds == old(pathfinding).grid_bounds,
{
    let n = pathfinding.nodes.len();
    let ghost orig = pathfinding.nodes@;
    let mut i: usize = 0;
    while i < n
        invariant
            level.well_formed(),
            n == orig.len(),
            i <= n,
            pathfinding.nodes@.len() == n,
            forall|x: int| 0 <= x < n ==> same_but_normal(#[trigger] pathfinding.nodes@[x], orig[x]),
            forall|x: int| 0 <= x < i ==> (#[trigger] pathfinding.nodes@[x]).normal == node_normal(level, orig[x]@)
                && -UNIT <= pathfinding.nodes@[x].normal.x <= UNIT && -UNIT <= pathfinding.nodes@[x].normal.y <= UNIT,
            pathfinding.spatial_grid@ == old(pathfinding).spatial_grid@,
            pathfinding.grid_bounds == old(pathfinding).grid_bounds,
        decreases n - i,
    {
        let count = if pathfinding.nodes[i].line_indicies.len() <= MAX_NORMAL_EDGES {
            pathfinding.nodes[i].line_indicies.len()
        } else {
            MAX_NORMAL_EDGES
        };
        let pi = pathfinding.nodes[i].polygon_index;
        let mut sx: i128 = 0;
        let mut sy: i128 = 0;
        let mut k: usize = 0;
        proof {
            assert(same_but_normal(pathfinding.nodes@[i as int], orig[i as int]));
        }
        while k < count
            invariant
                level.well_formed(),
                i < n,
                n == orig.len(),
                pathfinding.nodes@.len() == n,
                count <= MAX_NORMAL_EDGES,
                count <= orig[i as int].line_indicies@.len(),
                pi == orig[i as int].polygon_index,
                pathfinding.nodes@[i as int].line_indicies@ == orig[i as int].line_indicies@,
                k <= count,
                sx as int == normal_sum(level, pi as int, orig[i as int].line_indicies@, k as int).0,
                sy as int == normal_sum(level, pi as int, orig[i as int].line_indicies@, k as int).1,
                -(k as int) * UNIT <= sx <= (k as int) * UNIT,
                -(k as int) * UNIT <= sy <= (k as int) * UNIT,
            decreases count - k,
        {
            let e = edge_normal_of(level, pi, pathfinding.nodes[i].line_indicies[k]);
            sx = sx + e.0;
            sy = sy + e.1;
            k = k + 1;
        }
        let u = scale_to_unit(sx, sy);
        pathfinding.nodes[i].normal = Point { x: u.0 as i64, y: u.1 as i64 };
        i = i + 1;
    }
    proof {
        let ov = nodes_view(orig);
        let wv = with_normals(level, ov);
        let fin = pathfinding.nodes@;
        assert forall|x: int| 0 <= x < n implies #[trigger] nodes_view(fin)[x] == wv[x] by {
            assert(ov[x] == orig[x]@);
            assert(same_but_normal(fin[x], orig[x]));
        }
        assert(nodes_view(fin) =~= wv);
    }
}

/// Sum of the displacements from node `i` to the targets of its first `k`
/// walkable connections.
pub open spec fn walk_dir_sum(ns: Seq<NodeView>, i: int, k: int) -> (int, int)
    decreases k,
{
    if k <= 0 {
        (0, 0)
    } else {
        let prev = walk_dir_sum(ns, i, k - 1);
        let t = ns[ns[i].walk[k - 1].node_id as int].position;
        let p = ns[i].position;
        (prev.0 + (t.x - p.x), prev.1 + (t.y - p.y))
    }
}

/// Node `i` is an external corner: its walkable neighbours lie, on the whole,
/// against its normal.
pub open spec fn external_corner(ns: Seq<NodeView>, i: int) -> bool {
    let d = walk_dir_sum(ns, i, ns[i].walk.len() as int);
    d.0 * ns[i].normal.x + d.1 * ns[i].normal.y < 0
}

/// The nodes with their corner marks.
pub open spec fn with_corners(ns: Seq<NodeView>) -> Seq<NodeView> {
    Seq::new(
        ns.len(),
        |i: int|
            NodeView {
                is_corner: ns[i].lines.len() > 1,
                is_external_corner: if ns[i].lines.len() > 1 {
                    Option::Some(external_corner(ns, i))
                } else {
                    Option::None
                },
                ..ns[i]
            },
    )
}

/// Marks the nodes that lie on more than one edge as corners, and classifies each
/// corner as external or internal.
pub fn setup_corners(pathfinding: &mut PathfindingGraph)
    requires
        walkable_ok(old(pathfinding).nodes@),
        positions_in_bounds(old(pathfinding).nodes@),
        forall|i: int| 0 <= i < old(pathfinding).nodes@.len() ==> -UNIT <= (#[trigger] old(pathfinding).nodes@[i]).normal.x <= UNIT
            && -UNIT <= old(pathfinding).nodes@[i].normal.y <= UNIT,
    ensures
        final(pathfinding).nodes@.len() == old(pathfinding).nodes@.len(),
        nodes_view(final(pathfinding).nodes@) == with_corners(nodes_view(old(pathfinding).nodes@)),
        forall|i: int|
            0 <= i < final(pathfinding).nodes@.len() ==> {
                let o = old(pathfinding).nodes@[i];
                let f = #[trigger] final(pathfinding).nodes@[i];
                &&& f.is_corner == (o.line_indicies@.len() > 1)
                &&& f.is_external_corner == if f.is_corner {
                    Some(external_corner(nodes_view(old(pathfinding).nodes@), i))
                } else {
                    Option::None
                }
                &&& f.id == o.id
                &&& f.position == o.position
                &&& f.polygon_index == o.polygon_index
                &&& f.line_indicies@ == o.line_indicies@
                &&& f.walkable_connections@ == o.walkable_connections@
                &&& f.jumpable_connections@ == o.jumpable_connections@
                &&& f.droppable_connections@ == o.droppable_connections@
                &&& f.normal == o.normal
            },
        final(pathfinding).spatial_grid@ == old(pathfinding).spatial_grid@,
        final(pathfinding).grid_bounds == old(pathfinding).grid_bounds,
{
    let n = pathfinding.nodes.len();
    let ghost orig = pathfinding.nodes@;
    let mut i: usize = 0;
    while i < n
        invariant
            n == orig.len(),
            walkable_ok(orig),
            positions_in_bounds(orig),
            forall|x: int| 0 <= x < n ==> -UNIT <= (#[trigger] orig[x]).normal.x <= UNIT
                && -UNIT <= orig[x].normal.y <= UNIT,
            i <= n,
            pathfinding.nodes@.len() == n,
            forall|x: int|
                0 <= x < n ==> {
                    let o = orig[x];
                    let f = #[trigger] pathfinding.nodes@[x];
                    &&& f.id == o.id
                    &&& f.position == o.position
                    &&& f.polygon_index == o.polygon_index
                    &&& f.line_indicies@ == o.line_indicies@
                    &&& f.walkable_connections@ == o.walkable_connections@
                    &&& f.jumpable_connections@ == o.jumpable_connections@
                    &&& f.droppable_connections@ == o.droppable_connections@
                    &&& f.normal == o.normal
                    &&& (x >= i ==> f.is_corner == o.is_corner && f.is_external_corner == o.is_external_corner)
                    &&& (x < i ==> f.is_corner == (o.line_indicies@.len() > 1) && f.is_external_corner == if f.is_corner {
                        Some(external_corner(nodes_view(orig), x))
                    } else {
                        Option::None
                    })
                },
            pathfinding.spatial_grid@ == old(pathfinding).spatial_grid@,
            pathfinding.grid_bounds == old(pathfinding).grid_bounds,
        decreases n - i,
    {
        let is_corner = pathfinding.nodes[i].line_indicies.len() > 1;
        pathfinding.nodes[i].is_corner = is_corner;
        if is_corner {
            let p = pathfinding.nodes[i].position;
            let mut dx: i128 = 0;
            let mut dy: i128 = 0;
            let mut k: usize = 0;
            proof {
                assert(in_bounds(orig[i as int].position));
            }
            while k < pathfinding.nodes[i].walkable_connections.len()
                invariant
                    n == orig.len(),
                    walkable_ok(orig),
                    positions_in_bounds(orig),
                    i < n,
                    pathfinding.nodes@.len() == n,
                    pathfinding.nodes@[i as int].walkable_connections@ == orig[i as int].walkable_connections@,
                    p == orig[i as int].position,
                    in_bounds(p),
                    forall|x: int| 0 <= x < n ==> (#[trigger] pathfinding.nodes@[x]).position == orig[x].position,
                    k <= orig[i as int].walkable_connections@.len(),
                    dx as int == walk_dir_sum(nodes_view(orig), i as int, k as int).0,
                    dy as int == walk_dir_sum(nodes_view(orig), i as int, k as int).1,
                    -(k as int) * 0x1_0000_0000 <= dx <= (k as int) * 0x1_0000_0000,
                    -(k as int) * 0x1_0000_0000 <= dy <= (k as int) * 0x1_0000_0000,
                decreases orig[i as int].walkable_connections@.len() - k,
            {
                let t = pathfinding.nodes[i].walkable_connections[k].node_id;
                proof {
                    assert(orig[i as int].walkable_connections@[k as int].node_id < n);
                    assert(in_bounds(orig[t as int].position));
                }
                let tp = pathfinding.nodes[t].position;
                dx = dx + (tp.x as i128 - p.x as i128);
                dy = dy + (tp.y as i128 - p.y as i128);
                k = k + 1;
            }
            let normal = pathfinding.nodes[i].normal;
            proof {
                let kk = k as int;
                assert(kk <= 0x1_0000_0000_0000_0000);
                assert(-0x1_0000_0000_0000_0000_0000_0000_0000 <= dx * normal.x <= 0x1_0000_0000_0000_0000_0000_0000_0000) by (nonlinear_arith)
                    requires
                        -kk * 0x1_0000_0000 <= dx <= kk * 0x1_0000_0000,
                        0 <= kk <= 0x1_0000_0000_0000_0000,
                        -1000 <= normal.x <= 1000,
                ;
                assert(-0x1_0000_0000_0000_0000_0000_0000_0000 <= dy * normal.y <= 0x1_0000_0000_0000_0000_0000_0000_0000) by (nonlinear_arith)
                    requires
                        -kk * 0x1_0000_0000 <= dy <= kk * 0x1_0000_0000,
                        0 <= kk <= 0x1_0000_0000_0000_0000,
                        -1000 <= normal.y <= 1000,
                ;
            }
            let external = dx * (normal.x as i128) + dy * (normal.y as i128) < 0;
            pathfinding.nodes[i].is_external_corner = Some(external);
        } else {
            pathfinding.nodes[i].is_external_corner = None;
        }
        i = i + 1;
    }
    proof {
        let ov = nodes_view(orig);
        let wv = with_corners(ov);
        let fin = pathfinding.nodes@;
        assert forall|x: int| 0 <= x < n implies #[trigger] nodes_view(fin)[x] == wv[x] by {
            assert(ov[x] == orig[x]@);
        }
        assert(nodes_view(fin) =~= wv);
    }
}

proof fn lemma_cell_key_injective(cx: int, cy: int, ex: int, ey: int)
    requires
        cell_in_range(cx),
        cell_in_range(cy),
        cell_in_range(ex),
        cell_in_range(ey),
        cell_key(cx, cy) == cell_key(ex, ey),
    ensures
        cx == ex && cy == ey,
{
}

/// `bounds` is the box of the node positions: its lower corner is the
/// componentwise minimum and its upper corner the componentwise maximum (both
/// zero when there is no node).
pub open spec fn bounds_fit(nodes: Seq<PathfindingGraphNode>, bounds: (Point, Point)) -> bool {
    let (lo, hi) = bounds;
    &&& in_bounds(lo)
    &&& in_bounds(hi)
    &&& forall|i: int|
        0 <= i < nodes.len() ==> {
            let p = (#[trigger] nodes[i]).position;
            lo.x <= p.x <= hi.x && lo.y <= p.y <= hi.y
        }
    &&& nodes.len() == 0 ==> bounds == (Point { x: 0, y: 0 }, Point { x: 0, y: 0 })
    &&& nodes.len() > 0 ==> {
        &&& exists|i: int| 0 <= i < nodes.len() && nodes[i].position.x == lo.x
        &&& exists|i: int| 0 <= i < nodes.len() && nodes[i].position.y == lo.y
        &&& exists|i: int| 0 <= i < nodes.len() && nodes[i].position.x == hi.x
        &&& exists|i: int| 0 <= i < nodes.len() && nodes[i].position.y == hi.y
    }
}

proof fn lemma_cell_members_same_positions(
    n1: Seq<PathfindingGraphNode>,
    n2: Seq<PathfindingGraphNode>,
    lo: Point,
    cx: int,
    cy: int,
    n: nat,
)
    requires
        n <= n1.len(),
        n <= n2.len(),
        forall|i: int| 0 <= i < n ==> (#[trigger] n1[i]).position == n2[i].position,
    ensures
        cell_members(n1, lo, cx, cy, n) == cell_members(n2, lo, cx, cy, n),
    decreases n,
{
    if n > 0 {
        lemma_cell_members_same_positions(n1, n2, lo, cx, cy, (n - 1) as nat);
        assert(n1[n - 1].position == n2[n - 1].position);
    }
}

/// Computes the box around all nodes and files every node under its cell.
pub fn build_spatial_index(pathfinding: &mut PathfindingGraph)
    requires
        positions_in_bounds(old(pathfinding).nodes@),
    ensures
        final(pathfinding).nodes@ == old(pathfinding).nodes@,
        bounds_fit(final(pathfinding).nodes@, final(pathfinding).grid_bounds),
        grid_ok(final(pathfinding).spatial_grid@, final(pathfinding).nodes@, final(pathfinding).grid_bounds.0),
{
    let n = pathfinding.nodes.len();
    let mut lo = Point { x: 0, y: 0 };
    let mut hi = Point { x: 0, y: 0 };
    if n > 0 {
        lo = pathfinding.nodes[0].position;
        hi = pathfinding.nodes[0].position;
    }
    let ghost mut wx_lo: int = 0;
    let ghost mut wy_lo: int = 0;
    let ghost mut wx_hi: int = 0;
    let ghost mut wy_hi: int = 0;
    let mut i: usize = 0;
    while i < n
        invariant
            n == pathfinding.nodes@.len(),
            positions_in_bounds(pathfinding.nodes@),
            i <= n,
            in_bounds(lo),
            in_bounds(hi),
            n == 0 ==> lo == (Point { x: 0, y: 0 }) && hi == (Point { x: 0, y: 0 }),
            n > 0 ==> 0 <= wx_lo < n && pathfinding.nodes@[wx_lo].position.x == lo.x,
            n > 0 ==> 0 <= wy_lo < n && pathfinding.nodes@[wy_lo].position.y == lo.y,
            n > 0 ==> 0 <= wx_hi < n && pathfinding.nodes@[wx_hi].position.x == hi.x,
            n > 0 ==> 0 <= wy_hi < n && pathfinding.nodes@[wy_hi].position.y == hi.y,
            forall|q: int|
                0 <= q < i ==> {
                    let p = (#[trigger] pathfinding.nodes@[q]).position;
                    lo.x <= p.x <= hi.x && lo.y <= p.y <= hi.y
                },
        decreases n - i,
    {
        let p = pathfinding.nodes[i].position;
        proof {
            assert(in_bounds(pathfinding.nodes@[i as int].position));
        }
        if p.x < lo.x {
            lo.x = p.x;
            proof {
                wx_lo = i as int;
            }
        }
        if p.y < lo.y {
            lo.y = p.y;
            proof {
                wy_lo = i as int;
            }
        }
        if p.x > hi.x {
            hi.x = p.x;
            proof {
                wx_hi = i as int;
            }
        }
        if p.y > hi.y {
            hi.y = p.y;
            proof {
                wy_hi = i as int;
            }
        }
        i = i + 1;
    }
    pathfinding.grid_bounds = (lo, hi);
    let mut grid: HashMap<u64, Vec<usize>> = HashMap::new();
    let ghost nodes = pathfinding.nodes@;
    let mut i: usize = 0;
    while i < n
        invariant
            n == nodes.len(),
            nodes == pathfinding.nodes@,
            positions_in_bounds(nodes),
            in_bounds(lo),
            i <= n,
            forall|cx: int, cy: int|
                #![trigger cell_key(cx, cy)]
                cell_in_range(cx) && cell_in_range(cy) ==> {
                    let key = cell_key(cx, cy) as u64;
                    let members = cell_members(nodes, lo, cx, cy, i as nat);
                    if grid@.contains_key(key) {
                        grid@[key]@ == members && members.len() > 0
                    } else {
                        members == Seq::<usize>::empty()
                    }
                },
            forall|k: u64| #[trigger] grid@.contains_key(k) ==> grid_key(k),
        decreases n - i,
    {
        proof {
            assert(in_bounds(nodes[i as int].position));
        }
        let cell = pathfinding.position_to_cell_from(lo, pathfinding.nodes[i].position);
        let key = pack_cell_key(cell.0, cell.1);
        let ghost before = grid@;
        let mut members = match grid.remove(&key) {
            Some(v) => v,
            None => Vec::new(),
        };
        members.push(i);
        grid.insert(key, members);
        proof {
            let (ix, iy) = (cell.0 as int, cell.1 as int);
            assert forall|cx: int, cy: int|
                cell_in_range(cx) && cell_in_range(cy) implies {
                    let k = #[trigger] cell_key(cx, cy) as u64;
                    let m = cell_members(nodes, lo, cx, cy, (i + 1) as nat);
                    if grid@.contains_key(k) {
                        grid@[k]@ == m && m.len() > 0
                    } else {
                        m == Seq::<usize>::empty()
                    }
                } by {
                let k = cell_key(cx, cy) as u64;
                assert(cell_members(nodes, lo, cx, cy, (i + 1) as nat) == {
                    let prev = cell_members(nodes, lo, cx, cy, i as nat);
                    let p = nodes[i as int].position;
                    if cell_coord(p.x as int, lo.x as int) == cx && cell_coord(p.y as int, lo.y as int) == cy {
                        prev.push(i)
                    } else {
                        prev
                    }
                });
                if cx == ix && cy == iy {
                    assert(k == key);
                } else {
                    if k == key {
                        lemma_cell_key_injective(cx, cy, ix, iy);
                    }
                    assert(k != key);
                    assert(cell_key(cx, cy) == cell_key(cx, cy));
                }
            }
            assert forall|k: u64| #[trigger] grid@.contains_key(k) implies grid_key(k) by {
                if k == key {
                    assert(cell_key(ix, iy) == k as int);
                } else {
                    assert(before.contains_key(k));
                }
            }
        }
        i = i + 1;
    }
    pathfinding.spatial_grid = grid;
}

/// Agent radius the jump and drop sweeps are made for.
pub const PURSUE_AI_AGENT_RADIUS: i64 = 8000;

/// Every drop connection leads strictly downwards.
pub open spec fn droppable_downward(nodes: Seq<PathfindingGraphNode>) -> bool {
    forall|i: int, k: int|
        0 <= i < nodes.len() && 0 <= k < nodes[i].droppable_connections@.len() ==> {
            let c = #[trigger] nodes[i].droppable_connections@[k];
            c.node_id < nodes.len() && nodes[c.node_id as int].position.y < nodes[i].position.y
        }
}

/// The nodes that building the graph of `level` gives: placement, two-way
/// walking, merging, renumbering, jumps, drops, normals and corners, in turn.
pub open spec fn built_views(level: &Level) -> Seq<NodeView> {
    let r = PURSUE_AI_AGENT_RADIUS as int;
    with_corners(
        with_normals(
            level,
            with_drops(
                level,
                with_jumps(level, reindexed(dedup_from(symmetrized(placed_spec(level)), 0, 1)), r),
                r,
            ),
        ),
    )
}

/// Building the graph twice from the same level gives the same graph: the same
/// nodes (positions, ids, edges, connections, normals and corner marks), the same
/// bounds, and the same grid cells holding the same ids.
pub proof fn lemma_build_deterministic(level: &Level, g1: &PathfindingGraph, g2: &PathfindingGraph)
    requires
        nodes_view(g1.nodes@) == built_views(level),
        nodes_view(g2.nodes@) == built_views(level),
        g1.well_formed(),
        g2.well_formed(),
        bounds_fit(g1.nodes@, g1.grid_bounds),
        bounds_fit(g2.nodes@, g2.grid_bounds),
    ensures
        g1.nodes@.len() == g2.nodes@.len(),
        forall|i: int| 0 <= i < g1.nodes@.len() ==> (#[trigger] g1.nodes@[i])@ == g2.nodes@[i]@,
        g1.grid_bounds == g2.grid_bounds,
        forall|k: u64|
            #[trigger] g1.spatial_grid@.contains_key(k) <==> g2.spatial_grid@.contains_key(k),
        forall|k: u64|
            #[trigger] g1.spatial_grid@.contains_key(k) ==> g1.spatial_grid@[k]@
                == g2.spatial_grid@[k]@,
{
    let (a, b) = (g1.nodes@, g2.nodes@);
    assert(nodes_view(a).len() == a.len());
    assert(nodes_view(b).len() == b.len());
    assert forall|i: int| 0 <= i < a.len() implies (#[trigger] a[i])@ == b[i]@ by {
        assert(nodes_view(a)[i] == a[i]@);
        assert(nodes_view(b)[i] == b[i]@);
    }
    assert forall|i: int| 0 <= i < a.len() implies (#[trigger] a[i]).position == b[i].position by {
        assert(a[i]@ == b[i]@);
    }
    let (lo1, hi1) = g1.grid_bounds;
    let (lo2, hi2) = g2.grid_bounds;
    if a.len() > 0 {
        let w = choose|i: int| 0 <= i < a.len() && a[i].position.x == lo1.x;
        let v = choose|i: int| 0 <= i < b.len() && b[i].position.x == lo2.x;
        assert(lo1.x == lo2.x) by {
            assert(a[v].position == b[v].position);
            assert(a[w].position == b[w].position);
        }
        let w = choose|i: int| 0 <= i < a.len() && a[i].position.y == lo1.y;
        let v = choose|i: int| 0 <= i < b.len() && b[i].position.y == lo2.y;
        assert(lo1.y == lo2.y) by {
            assert(a[v].position == b[v].position);
            assert(a[w].position == b[w].position);
        }
        let w = choose|i: int| 0 <= i < a.len() && a[i].position.x == hi1.x;
        let v = choose|i: int| 0 <= i < b.len() && b[i].position.x == hi2.x;
        assert(hi1.x == hi2.x) by {
            assert(a[v].position == b[v].position);
            assert(a[w].position == b[w].position);
        }
        let w = choose|i: int| 0 <= i < a.len() && a[i].position.y == hi1.y;
        let v = choose|i: int| 0 <= i < b.len() && b[i].position.y == hi2.y;
        assert(hi1.y == hi2.y) by {
            assert(a[v].position == b[v].position);
            assert(a[w].position == b[w].position);
        }
    }
    assert(g1.grid_bounds == g2.grid_bounds);
    assert forall|k: u64|
        #[trigger] g1.spatial_grid@.contains_key(k) || g2.spatial_grid@.contains_key(k) implies
        g1.spatial_grid@.contains_key(k) && g2.spatial_grid@.contains_key(k)
            && g1.spatial_grid@[k]@ == g2.spatial_grid@[k]@ by {
        let (cx, cy) = if g1.spatial_grid@.contains_key(k) {
            choose|cx: int, cy: int| cell_in_range(cx) && cell_in_range(cy) && cell_key(cx, cy) == k as int
        } else {
            choose|cx: int, cy: int| cell_in_range(cx) && cell_in_range(cy) && cell_key(cx, cy) == k as int
        };
        assert(cell_key(cx, cy) as u64 == k);
        lemma_cell_members_same_positions(a, b, lo1, cx, cy, a.len());
    }
}

/// Builds the navigation graph of `level`: places nodes on walkable edges, makes
/// walking two-way, merges coincident nodes, renumbers them, adds jump and drop
/// connections, sets normals and corners, and files the nodes in the grid.
pub fn init_pathfinding_graph(level: &Level, pathfinding: &mut PathfindingGraph)
    requires
        level.well_formed(),
    ensures
        nodes_view(final(pathfinding).nodes@) == built_views(level),
        final(pathfinding).well_formed(),
        bounds_fit(final(pathfinding).nodes@, final(pathfinding).grid_bounds),
        walkable_symmetric(final(pathfinding).nodes@),
        no_close_pair(final(pathfinding).nodes@),
        droppable_downward(final(pathfinding).nodes@),
{
    pathfinding.nodes = Vec::new();
    let ghost empty = pathfinding.nodes@;
    assert(nodes_view(empty) =~= Seq::<NodeView>::empty());
    place_nodes(pathfinding, level);
    assert(nodes_view(pathfinding.nodes@) =~= placed_spec(level));
    assert(placed_ok(level, pathfinding.nodes@));
    proof {
        let nodes = pathfinding.nodes@;
        assert forall|a: int, k: int|
            0 <= a < nodes.len() && 0 <= k < nodes[a].walkable_connections@.len() implies {
                let c = #[trigger] nodes[a].walkable_connections@[k];
                &&& c.node_id < nodes.len()
                &&& c == walk_conn(c.node_id as int, c.dist as int)
                &&& c.dist <= MAX_WEIGHT
            } by {
            assert(placed_node_ok(level, nodes[a], a));
        }
    }
    let ghost placed = pathfinding.nodes@;
    make_walkable_connections_2_way(pathfinding);
    proof {
        let nodes = pathfinding.nodes@;
        assert forall|a: int, b: int|
            0 <= a < nodes.len() && 0 <= b < nodes.len() && a != b implies #[trigger] nodes[a].id
            != #[trigger] nodes[b].id by {
            assert(same_but_walkable(nodes[a], placed[a]));
            assert(same_but_walkable(nodes[b], placed[b]));
            assert(placed_node_ok(level, placed[a], a));
            assert(placed_node_ok(level, placed[b], b));
        }
        assert forall|a: int, k: int|
            0 <= a < nodes.len() && 0 <= k < nodes[a].walkable_connections@.len() implies {
                let c = #[trigger] nodes[a].walkable_connections@[k];
                exists|b: int|
                    0 <= b < nodes.len() && nodes[b].id == c.node_id && has_mirror(
                        nodes[b].walkable_connections@,
                        nodes[a].id as int,
                        c.dist,
                    )
            } by {
            let c = nodes[a].walkable_connections@[k];
            let b = c.node_id as int;
            assert(same_but_walkable(nodes[a], placed[a]));
            assert(same_but_walkable(nodes[b], placed[b]));
            assert(placed_node_ok(level, placed[a], a));
            assert(placed_node_ok(level, placed[b], b));
        }
        assert forall|a: int| 0 <= a < nodes.len() implies in_bounds(#[trigger] nodes[a].position) by {
            assert(same_but_walkable(nodes[a], placed[a]));
            assert(placed_node_ok(level, placed[a], a));
        }
        assert(symmetric_by_id(nodes));
        assert forall|a: int, k: int|
            0 <= a < nodes.len() && 0 <= k < nodes[a].walkable_connections@.len() implies exists|b: int|
                0 <= b < nodes.len() && nodes[b].id == (
                #[trigger] nodes[a].walkable_connections@[k]).node_id by {
            let c = nodes[a].walkable_connections@[k];
            assert(exists|b: int|
                0 <= b < nodes.len() && nodes[b].id == c.node_id && has_mirror(
                    nodes[b].walkable_connections@,
                    nodes[a].id as int,
                    c.dist,
                ));
        }
        assert(targets_exist(nodes));
    }
    remove_duplicate_nodes(pathfinding);
    let ghost deduped = pathfinding.nodes@;
    make_node_ids_indices(pathfinding);
    let ghost reindexed = pathfinding.nodes@;
    proof {
        assert forall|a: int| 0 <= a < reindexed.len() implies in_bounds(#[trigger] reindexed[a].position) by {
            assert(same_but_id_and_walkable(reindexed[a], deduped[a]));
        }
    }
    make_jumpable_connections(pathfinding, level, PURSUE_AI_AGENT_RADIUS);
    let ghost jumped = pathfinding.nodes@;
    proof {
        assert forall|a: int| 0 <= a < jumped.len() implies in_bounds(#[trigger] jumped[a].position) by {
            assert(same_but_jumpable(jumped[a], reindexed[a]));
        }
    }
    make_droppable_connections(pathfinding, level, PURSUE_AI_AGENT_RADIUS);
    let ghost dropped = pathfinding.nodes@;
    calculate_normals(pathfinding, level);
    let ghost normaled = pathfinding.nodes@;
    proof {
        assert forall|a: int, k: int|
            0 <= a < normaled.len() && 0 <= k < normaled[a].walkable_connections@.len() implies {
                let c = #[trigger] normaled[a].walkable_connections@[k];
                &&& c.node_id < normaled.len()
                &&& c == walk_conn(c.node_id as int, c.dist as int)
                &&& c.dist <= MAX_WEIGHT
            } by {
            assert(same_but_normal(normaled[a], dropped[a]));
            assert(same_but_droppable(dropped[a], jumped[a]));
            assert(same_but_jumpable(jumped[a], reindexed[a]));
        }
        assert forall|a: int| 0 <= a < normaled.len() implies in_bounds(#[trigger] normaled[a].position) by {
            assert(same_but_normal(normaled[a], dropped[a]));
            assert(same_but_droppable(dropped[a], jumped[a]));
        }
    }
    setup_corners(pathfinding);
    let ghost cornered = pathfinding.nodes@;
    build_spatial_index(pathfinding);
    proof {
        let fin = pathfinding.nodes@;
        let n = fin.len() as int;
        assert(nodes_view(fin) == built_views(level));
        assert(fin == cornered);
        assert forall|i: int| 0 <= i < n implies node_ok(#[trigger] fin[i], i, n) by {
            assert(same_but_normal(normaled[i], dropped[i]));
            assert(same_but_droppable(dropped[i], jumped[i]));
            assert(same_but_jumpable(jumped[i], reindexed[i]));
            let w = fin[i].walkable_connections@;
            assert(w == reindexed[i].walkable_connections@);
            assert forall|k: int| 0 <= k < w.len() implies (#[trigger] w[k]).node_id < n && w[k].dist <= MAX_WEIGHT
                && w[k].effort <= MAX_WEIGHT by {
                assert(reindexed[i].walkable_connections@[k] == w[k]);
            }
            assert forall|k: int| 0 <= k < w.len() implies (#[trigger] w[k]).connection_type
                == PathfindingGraphConnectionType::Walkable by {
                assert(reindexed[i].walkable_connections@[k] == w[k]);
            }
        }
        assert forall|a: int, k: int|
            0 <= a < n && 0 <= k < fin[a].walkable_connections@.len() implies {
                let c = #[trigger] fin[a].walkable_connections@[k];
                &&& c.node_id < n
                &&& has_mirror(fin[c.node_id as int].walkable_connections@, a, c.dist)
            } by {
            let c = fin[a].walkable_connections@[k];
            assert(same_but_normal(normaled[a], dropped[a]));
            assert(same_but_droppable(dropped[a], jumped[a]));
            assert(same_but_jumpable(jumped[a], reindexed[a]));
            assert(reindexed[a].walkable_connections@[k] == c);
            let b = c.node_id as int;
            assert(same_but_normal(normaled[b], dropped[b]));
            assert(same_but_droppable(dropped[b], jumped[b]));
            assert(same_but_jumpable(jumped[b], reindexed[b]));
        }
        assert forall|a: int, b: int|
            0 <= a < b < n implies sq_dist(#[trigger] fin[a].position, #[trigger] fin[b].position)
            >= MERGE_TOLERANCE_SQ by {
            assert(same_but_normal(normaled[a], dropped[a]));
            assert(same_but_droppable(dropped[a], jumped[a]));
            assert(same_but_jumpable(jumped[a], reindexed[a]));
            assert(same_but_id_and_walkable(reindexed[a], deduped[a]));
            assert(same_but_normal(normaled[b], dropped[b]));
            assert(same_but_droppable(dropped[b], jumped[b]));
            assert(same_but_jumpable(jumped[b], reindexed[b]));
            assert(same_but_id_and_walkable(reindexed[b], deduped[b]));
        }
        assert forall|i: int, k: int|
            0 <= i < n && 0 <= k < fin[i].droppable_connections@.len() implies {
                let c = #[trigger] fin[i].droppable_connections@[k];
                c.node_id < n && fin[c.node_id as int].position.y < fin[i].position.y
            } by {
            let c = fin[i].droppable_connections@[k];
            assert(same_but_normal(normaled[i], dropped[i]));
            assert(dropped[i].droppable_connections@[k] == c);
            assert(drop_allowed(level, nodes_view(jumped), i, c.node_id as int, PURSUE_AI_AGENT_RADIUS as int));
            assert(nodes_view(jumped)[i] == jumped[i]@);
            assert(nodes_view(jumped)[c.node_id as int] == jumped[c.node_id as int]@);
            let j = c.node_id as int;
            assert(same_but_normal(normaled[j], dropped[j]));
            assert(same_but_droppable(dropped[j], jumped[j]));
            assert(same_but_droppable(dropped[i], jumped[i]));
        }
    }
}

} // verus!
