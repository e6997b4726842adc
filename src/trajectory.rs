//! Whether a jump or a drop between two nodes is physically possible: a launch
//! speed bound under gravity, and a sweep of the agent's width along the arc
//! against the level's edges.
use vstd::prelude::*;
use crate::geometry::{
    Point, in_bounds, in_wide, sqrt_floor, sq_dist, segments_cross, segments_intersect, isqrt,
    distance, div_floor, COORD_LIMIT, lemma_abs_le_sqrt,
};
use crate::graph::{PathfindingGraphNode, NodeView};
use crate::level::Level;

verus! {

/// Downward acceleration, in length units per tick squared.
pub const GRAVITY_STRENGTH: i64 = 500;

/// Largest launch speed of an agent, in length units per tick.
pub const PLATFORMER_AI_JUMP_FORCE: i64 = 8000;

/// The ballistic-reachability discriminant of a displacement `(dx, dy)`: it is
/// non-negative exactly when some launch speed up to the maximum reaches it.
pub open spec fn jump_discriminant(dx: int, dy: int) -> int {
    let g = GRAVITY_STRENGTH as int;
    let v = PLATFORMER_AI_JUMP_FORCE as int;
    let b1 = v * v - g * dy;
    b1 * b1 - g * g * (dx * dx + dy * dy)
}

/// The jump limit in terms of speed: the discriminant of `(dx, dy)` is
/// non-negative exactly when the least launch speed that reaches `(dx, dy)`,
/// whose square is `g * (|d| + dy)`, is at most the maximum launch speed `v`;
/// squared out, when `v^2 - g * dy` is non-negative and at least `g * |d|`.
pub proof fn lemma_jump_speed_limit(dx: int, dy: int)
    ensures
        jump_discriminant(dx, dy) >= 0 <==> ({
            let g = GRAVITY_STRENGTH as int;
            let v = PLATFORMER_AI_JUMP_FORCE as int;
            let m = v * v - g * dy;
            m >= 0 && m * m >= g * g * (dx * dx + dy * dy)
        }),
{
    let g = GRAVITY_STRENGTH as int;
    let v = PLATFORMER_AI_JUMP_FORCE as int;
    let m = v * v - g * dy;
    if m < 0 && m * m >= g * g * (dx * dx + dy * dy) {
        assert(false) by (nonlinear_arith)
            requires
                m == v * v - g * dy,
                m < 0,
                m * m >= g * g * (dx * dx + dy * dy),
                g == 500,
                v == 8000,
        ;
    }
}

/// Node `node` lies on edge `li` of polygon `pi`.
pub open spec fn owns_edge(node: NodeView, pi: int, li: int) -> bool {
    node.polygon_index == pi && node.lines.contains(li as usize)
}

/// An edge of the level that neither `a` nor `b` lies on crosses segment `pq`.
pub open spec fn segment_blocked_spec(
    level: &Level,
    a: NodeView,
    b: NodeView,
    p: Point,
    q: Point,
) -> bool {
    exists|pi: int, li: int|
        #![trigger level.edge_start(pi, li)]
        level.has_edge(pi, li) && !owns_edge(a, pi, li) && !owns_edge(b, pi, li) && segments_cross(
            p,
            q,
            level.edge_start(pi, li),
            level.edge_end(pi, li),
        )
}

/// The perpendicular of `pq`, `radius` long (rounded down), or zero when `p == q`.
pub open spec fn perp_offset(p: Point, q: Point, radius: int) -> (int, int) {
    let dx = q.x - p.x;
    let dy = q.y - p.y;
    let len = sqrt_floor(dx * dx + dy * dy);
    if len == 0 {
        (0, 0)
    } else {
        ((-dy * radius) / len, (dx * radius) / len)
    }
}

pub open spec fn shifted(p: Point, o: (int, int), sign: int) -> Point {
    Point { x: (p.x + sign * o.0) as i64, y: (p.y + sign * o.1) as i64 }
}

/// One of the two sides of the capsule swept by an agent of `radius` moving
/// along `pq` crosses an edge of the level that neither `a` nor `b` lies on.
pub open spec fn capsule_blocked(
    level: &Level,
    a: NodeView,
    b: NodeView,
    p: Point,
    q: Point,
    radius: int,
) -> bool {
    let o = perp_offset(p, q, radius);
    segment_blocked_spec(level, a, b, shifted(p, o, 1), shifted(q, o, 1)) || segment_blocked_spec(
        level,
        a,
        b,
        shifted(p, o, -1),
        shifted(q, o, -1),
    )
}

/// Sample `i` (of 0 to 10) of the minimum-energy jump arc from `s` to `g`; the
/// arc rises by `|g - s| * t * (1 - t)` above the chord at time fraction `t`.
/// Sample 11 is the goal itself.
pub open spec fn jump_sample(s: Point, g: Point, i: int) -> Point {
    let dx = g.x - s.x;
    let dy = g.y - s.y;
    let l = sqrt_floor(dx * dx + dy * dy);
    if i > 10 {
        g
    } else {
        Point {
            x: (s.x + (dx * i) / 10) as i64,
            y: (s.y + (dy * i) / 10 + (l * (i * (10 - i))) / 100) as i64,
        }
    }
}

/// Sample `i` (of 0 to 10) of the fall from `s` to `g` with constant horizontal
/// speed; sample 11 is the goal itself.
pub open spec fn drop_sample(s: Point, g: Point, i: int) -> Point {
    let dx = g.x - s.x;
    let fall = s.y - g.y;
    if i > 10 {
        g
    } else {
        Point { x: (s.x + (dx * i) / 10) as i64, y: (s.y - (fall * (i * i)) / 100) as i64 }
    }
}

/// Some step of the jump arc is blocked for an agent of `radius`.
pub open spec fn jump_arc_blocked(
    level: &Level,
    a: NodeView,
    b: NodeView,
    radius: int,
) -> bool {
    exists|k: int|
        1 <= k <= 11 && #[trigger] capsule_blocked(
            level,
            a,
            b,
            jump_sample(a.position, b.position, k - 1),
            jump_sample(a.position, b.position, k),
            radius,
        )
}

/// Some step of the fall is blocked for an agent of `radius`.
pub open spec fn drop_arc_blocked(
    level: &Level,
    a: NodeView,
    b: NodeView,
    radius: int,
) -> bool {
    exists|k: int|
        1 <= k <= 11 && #[trigger] capsule_blocked(
            level,
            a,
            b,
            drop_sample(a.position, b.position, k - 1),
            drop_sample(a.position, b.position, k),
            radius,
        )
}

/// Launch speed of the minimum-energy jump over `(dx, dy)`: `sqrt(g * (|d| + dy))`.
pub open spec fn jump_speed(dx: int, dy: int) -> int {
    sqrt_floor(GRAVITY_STRENGTH * (sqrt_floor(dx * dx + dy * dy) + dy))
}

/// An agent radius the sweeps accept.
pub open spec fn valid_radius(radius: i64) -> bool {
    0 <= radius <= COORD_LIMIT
}

/// Whether `node` lies on edge `li` of polygon `pi`.
pub fn node_owns_edge(node: &PathfindingGraphNode, pi: usize, li: usize) -> (r: bool)
    ensures
        r == owns_edge(node@, pi as int, li as int),
{
    if node.polygon_index != pi {
        return false;
    }
    let mut k: usize = 0;
    while k < node.line_indicies.len()
        invariant
            k <= node.line_indicies@.len(),
            node.polygon_index == pi,
            forall|j: int| 0 <= j < k ==> node.line_indicies@[j] != li,
        decreases node.line_indicies@.len() - k,
    {
        if node.line_indicies[k] == li {
            assert(node.line_indicies@[k as int] == li);
            assert(node@.lines.contains((li as int) as usize));
            assert(node.polygon_index == pi as int);
            return true;
        }
        k = k + 1;
    }
    false
}

/// Whether segment `pq` crosses an edge of the level that neither `a` nor `b` lies on.
pub fn segment_blocked(
    level: &Level,
    a: &PathfindingGraphNode,
    b: &PathfindingGraphNode,
    p: Point,
    q: Point,
) -> (r: bool)
    requires
        level.well_formed(),
        in_wide(p),
        in_wide(q),
    ensures
        r == segment_blocked_spec(level, a@, b@, p, q),
{
    let mut pi: usize = 0;
    while pi < level.polygons.len()
        invariant
            level.well_formed(),
            in_wide(p),
            in_wide(q),
            pi <= level.polygons@.len(),
            forall|pj: int, li: int|
                0 <= pj < pi && #[trigger] level.edge_start(pj, li) == level.edge_start(pj, li)
                    ==> !(level.has_edge(pj, li) && !owns_edge(a@, pj, li) && !owns_edge(b@, pj, li)
                    && segments_cross(p, q, level.edge_start(pj, li), level.edge_end(pj, li))),
        decreases level.polygons@.len() - pi,
    {
        let polygon = &level.polygons[pi];
        let mut li: usize = 1;
        while li < polygon.points.len()
            invariant
                level.well_formed(),
                in_wide(p),
                in_wide(q),
                pi < level.polygons@.len(),
                *polygon == level.polygons@[pi as int],
                1 <= li,
                li <= polygon.points@.len() || polygon.points@.len() == 0,
                forall|pj: int, lj: int|
                    0 <= pj < pi && #[trigger] level.edge_start(pj, lj) == level.edge_start(pj, lj)
                        ==> !(level.has_edge(pj, lj) && !owns_edge(a@, pj, lj) && !owns_edge(
                        b@,
                        pj,
                        lj,
                    ) && segments_cross(p, q, level.edge_start(pj, lj), level.edge_end(pj, lj))),
                forall|lj: int|
                    0 <= lj < li - 1 && #[trigger] level.edge_start(pi as int, lj) == level.edge_start(
                        pi as int,
                        lj,
                    ) ==> !(level.has_edge(pi as int, lj) && !owns_edge(a@, pi as int, lj)
                        && !owns_edge(b@, pi as int, lj) && segments_cross(
                        p,
                        q,
                        level.edge_start(pi as int, lj),
                        level.edge_end(pi as int, lj),
                    )),
            decreases polygon.points@.len() - li,
        {
            let e = (li - 1) as usize;
            let owned = node_owns_edge(a, pi, e) || node_owns_edge(b, pi, e);
            if !owned {
                let s = polygon.points[e];
                let t = polygon.points[li];
                proof {
                    assert(in_bounds(level.polygons@[pi as int].points@[e as int]));
                    assert(in_bounds(level.polygons@[pi as int].points@[li as int]));
                }
                if segments_intersect(p, q, s, t) {
                    proof {
                        assert(level.edge_start(pi as int, e as int) == s);
                        assert(level.edge_end(pi as int, e as int) == t);
                    }
                    return true;
                }
            }
            li = li + 1;
        }
        pi = pi + 1;
    }
    proof {
        if segment_blocked_spec(level, a@, b@, p, q) {
            let (pj, lj) = choose|pj: int, lj: int|
                #![trigger level.edge_start(pj, lj)]
                level.has_edge(pj, lj) && !owns_edge(a@, pj, lj) && !owns_edge(b@, pj, lj)
                    && segments_cross(p, q, level.edge_start(pj, lj), level.edge_end(pj, lj));
            assert(level.edge_start(pj, lj) == level.edge_start(pj, lj));
        }
    }
    false
}

/// `d * r / len` rounded down, where `|d| <= len`: at most `r` in size.
fn scale_to_radius(d: i128, r: i128, len: i128) -> (q: i128)
    requires
        0 < len <= 0x100_0000_0000,
        -len <= d <= len,
        0 <= r <= COORD_LIMIT,
    ensures
        q as int == (d * r) as int / len as int,
        -r <= q <= r,
{
    assert(-len * r <= d * r <= len * r) by (nonlinear_arith)
        requires
            -len <= d <= len,
            0 <= r,
    ;
    assert(-0x1_0000_0000_0000_0000_0000 <= d * r <= 0x1_0000_0000_0000_0000_0000) by (nonlinear_arith)
        requires
            0 < len <= 0x100_0000_0000,
            -len <= d <= len,
            0 <= r <= 1_000_000_000,
    ;
    let q = div_floor(d * r, len);
    proof {
        let n = (d * r) as int;
        let l = len as int;
        vstd::arithmetic::div_mod::lemma_fundamental_div_mod(n, l);
        let qq = n / l;
        let m = n % l;
        assert(-r <= qq <= r) by (nonlinear_arith)
            requires
                n == l * qq + m,
                0 <= m < l,
                -l * r <= n <= l * r,
                l > 0,
                r >= 0,
        ;
    }
    q
}

/// Whether the capsule of `radius` swept along `pq` is blocked (see `capsule_blocked`).
pub fn capsule_sweep_blocked(
    level: &Level,
    a: &PathfindingGraphNode,
    b: &PathfindingGraphNode,
    p: Point,
    q: Point,
    radius: i64,
) -> (r: bool)
    requires
        level.well_formed(),
        -0x10_0000_0000 <= p.x <= 0x10_0000_0000,
        -0x10_0000_0000 <= p.y <= 0x10_0000_0000,
        -0x10_0000_0000 <= q.x <= 0x10_0000_0000,
        -0x10_0000_0000 <= q.y <= 0x10_0000_0000,
        valid_radius(radius),
    ensures
        r == capsule_blocked(level, a@, b@, p, q, radius as int),
{
    let dx: i128 = q.x as i128 - p.x as i128;
    let dy: i128 = q.y as i128 - p.y as i128;
    assert(0 <= dx * dx <= 0x400_0000_0000_0000_0000) by (nonlinear_arith)
        requires
            -0x20_0000_0000 <= dx <= 0x20_0000_0000,
    ;
    assert(0 <= dy * dy <= 0x400_0000_0000_0000_0000) by (nonlinear_arith)
        requires
            -0x20_0000_0000 <= dy <= 0x20_0000_0000,
    ;
    let len = isqrt((dx * dx + dy * dy) as u128) as i128;
    let (ox, oy): (i128, i128) = if len == 0 {
        (0, 0)
    } else {
        proof {
            assert(len <= 0x100_0000_0000) by {
                if len > 0x100_0000_0000 {
                    assert(len * len > 0x100_0000_0000 * 0x100_0000_0000) by (nonlinear_arith)
                        requires
                            len > 0x100_0000_0000,
                    ;
                }
            }
            lemma_abs_le_sqrt(dx as int, dy as int, len as int);
            lemma_abs_le_sqrt(dy as int, dx as int, len as int);
        }
        (scale_to_radius(-dy, radius as i128, len), scale_to_radius(dx, radius as i128, len))
    };
    let p1 = Point { x: (p.x as i128 + ox) as i64, y: (p.y as i128 + oy) as i64 };
    let q1 = Point { x: (q.x as i128 + ox) as i64, y: (q.y as i128 + oy) as i64 };
    let p2 = Point { x: (p.x as i128 - ox) as i64, y: (p.y as i128 - oy) as i64 };
    let q2 = Point { x: (q.x as i128 - ox) as i64, y: (q.y as i128 - oy) as i64 };
    proof {
        let o = perp_offset(p, q, radius as int);
        assert(o.0 == ox && o.1 == oy);
        assert(shifted(p, o, 1) == p1);
        assert(shifted(q, o, 1) == q1);
        assert(shifted(p, o, -1) == p2);
        assert(shifted(q, o, -1) == q2);
    }
    segment_blocked(level, a, b, p1, q1) || segment_blocked(level, a, b, p2, q2)
}

/// `d * num / den` rounded down, for `0 <= num <= den`.
fn fraction(d: i128, num: i128, den: i128) -> (r: i128)
    requires
        -0x10_0000_0000 <= d <= 0x10_0000_0000,
        0 <= num <= den,
        0 < den <= 100,
    ensures
        r as int == (d * num) as int / den as int,
        -0x10_0000_0000 <= r <= 0x10_0000_0000,
        d >= 0 ==> 0 <= r <= d,
        d < 0 ==> d <= r <= 0,
{
    assert(-0x10_0000_0000 * den <= d * num <= 0x10_0000_0000 * den) by (nonlinear_arith)
        requires
            -0x10_0000_0000 <= d <= 0x10_0000_0000,
            0 <= num <= den,
    ;
    let r = div_floor(d * num, den);
    proof {
        let n = (d * num) as int;
        let l = den as int;
        vstd::arithmetic::div_mod::lemma_fundamental_div_mod(n, l);
        let qq = n / l;
        let m = n % l;
        assert(-0x10_0000_0000 <= qq <= 0x10_0000_0000) by (nonlinear_arith)
            requires
                n == l * qq + m,
                0 <= m < l,
                -0x10_0000_0000 * l <= n <= 0x10_0000_0000 * l,
                l > 0,
        ;
        if d >= 0 {
            assert(0 <= d * num <= d * den) by (nonlinear_arith)
                requires
                    d >= 0,
                    0 <= num <= den,
            ;
            assert(0 <= qq <= d) by (nonlinear_arith)
                requires
                    n == l * qq + m,
                    0 <= m < l,
                    0 <= n <= d * l,
                    l > 0,
            ;
        } else {
            assert(d * den <= d * num <= 0) by (nonlinear_arith)
                requires
                    d < 0,
                    0 <= num <= den,
            ;
            assert(d <= qq <= 0) by (nonlinear_arith)
                requires
                    n == l * qq + m,
                    0 <= m < l,
                    d * l <= n <= 0,
                    l > 0,
            ;
        }
    }
    r
}

/// Samples `i` of the jump arc (`jump_sample`), for `i` up to 11.
fn jump_sample_at(s: Point, g: Point, l: i128, i: i128) -> (r: Point)
    requires
        in_bounds(s),
        in_bounds(g),
        l == sqrt_floor(sq_dist(s, g)),
        0 <= l <= 0x1_0000_0000,
        0 <= i <= 11,
    ensures
        r == jump_sample(s, g, i as int),
        -0x2_0000_0000 <= r.x <= 0x2_0000_0000,
        -0x2_0000_0000 <= r.y <= 0x2_0000_0000,
{
    if i > 10 {
        return g;
    }
    let dx: i128 = g.x as i128 - s.x as i128;
    let dy: i128 = g.y as i128 - s.y as i128;
    proof {
        assert(0 <= i * (10 - i) <= 100) by (nonlinear_arith)
            requires
                0 <= i <= 10,
        ;
    }
    let x = s.x as i128 + fraction(dx, i, 10);
    let y = s.y as i128 + fraction(dy, i, 10) + fraction(l, i * (10 - i), 100);
    Point { x: x as i64, y: y as i64 }
}

/// Sample `i` of the fall (`drop_sample`), for `i` up to 11.
fn drop_sample_at(s: Point, g: Point, i: i128) -> (r: Point)
    requires
        in_bounds(s),
        in_bounds(g),
        0 <= i <= 11,
    ensures
        r == drop_sample(s, g, i as int),
        -0x2_0000_0000 <= r.x <= 0x2_0000_0000,
        -0x2_0000_0000 <= r.y <= 0x2_0000_0000,
{
    if i > 10 {
        return g;
    }
    let dx: i128 = g.x as i128 - s.x as i128;
    let fall: i128 = s.y as i128 - g.y as i128;
    proof {
        assert(0 <= i * i <= 100) by (nonlinear_arith)
            requires
                0 <= i <= 10,
        ;
    }
    let x = s.x as i128 + fraction(dx, i, 10);
    let y = s.y as i128 - fraction(fall, i * i, 100);
    Point { x: x as i64, y: y as i64 }
}

/// The launch speed of the minimum-energy jump from `start_graph_node` to
/// `goal_graph_node`, if the maximum launch speed allows that jump and no step
/// of its arc, widened by `radius`, crosses an edge that neither node lies on.
pub fn jumpability_check(
    start_graph_node: &PathfindingGraphNode,
    goal_graph_node: &PathfindingGraphNode,
    level: &Level,
    radius: i64,
) -> (r: Option<u64>)
    requires
        level.well_formed(),
        in_bounds(start_graph_node.position),
        in_bounds(goal_graph_node.position),
        valid_radius(radius),
    ensures
        ({
            let s = start_graph_node.position;
            let g = goal_graph_node.position;
            &&& (r is Some <==> jump_discriminant(g.x - s.x, g.y - s.y) >= 0 && !jump_arc_blocked(
                level,
                start_graph_node@,
                goal_graph_node@,
                radius as int,
            ))
            &&& (r matches Some(e) ==> e as int == jump_speed(g.x - s.x, g.y - s.y) && e
                <= 0x400_0000)
        }),
{
    let s = start_graph_node.position;
    let g = goal_graph_node.position;
    let dx: i128 = g.x as i128 - s.x as i128;
    let dy: i128 = g.y as i128 - s.y as i128;
    let grav: i128 = GRAVITY_STRENGTH as i128;
    let v: i128 = PLATFORMER_AI_JUMP_FORCE as i128;
    assert(0 <= dx * dx <= 0x4000_0000_0000_0000) by (nonlinear_arith)
        requires
            -0x8000_0000 <= dx <= 0x8000_0000,
    ;
    assert(0 <= dy * dy <= 0x4000_0000_0000_0000) by (nonlinear_arith)
        requires
            -0x8000_0000 <= dy <= 0x8000_0000,
    ;
    let b1: i128 = v * v - grav * dy;
    assert(0 <= b1 * b1 <= 0x1_0000_0000_0000_0000_0000_0000) by (nonlinear_arith)
        requires
            -0x1_0000_0000_0000 <= b1 <= 0x1_0000_0000_0000,
    ;
    let discriminant: i128 = b1 * b1 - grav * grav * (dx * dx + dy * dy);
    assert(discriminant == jump_discriminant(g.x - s.x, g.y - s.y)) by (nonlinear_arith)
        requires
            dx == g.x - s.x,
            dy == g.y - s.y,
            grav == GRAVITY_STRENGTH,
            v == PLATFORMER_AI_JUMP_FORCE,
            b1 == v * v - grav * dy,
            discriminant == b1 * b1 - grav * grav * (dx * dx + dy * dy),
    ;
    if discriminant < 0 {
        return None;
    }
    let l = distance(s, g) as i128;
    proof {
        assert(l <= 0x1_0000_0000) by {
            if l > 0x1_0000_0000 {
                assert(l * l > 0x1_0000_0000 * 0x1_0000_0000) by (nonlinear_arith)
                    requires
                        l > 0x1_0000_0000,
                ;
            }
        }
    }
    proof {
        let ddx = g.x - s.x;
        let ddy = g.y - s.y;
        assert(ddx * 0 == 0 && ddy * 0 == 0 && l * (0 * (10 - 0)) == 0) by (nonlinear_arith);
        assert(jump_sample(s, g, 0) == s);
    }
    let mut prev = s;
    let mut k: i128 = 1;
    while k <= 11
        invariant
            level.well_formed(),
            in_bounds(s),
            in_bounds(g),
            s == start_graph_node.position,
            g == goal_graph_node.position,
            valid_radius(radius),
            l == sqrt_floor(sq_dist(s, g)),
            0 <= l <= 0x1_0000_0000,
            1 <= k <= 12,
            prev == jump_sample(s, g, k as int - 1),
            -0x2_0000_0000 <= prev.x <= 0x2_0000_0000,
            -0x2_0000_0000 <= prev.y <= 0x2_0000_0000,
            forall|j: int|
                1 <= j < k ==> !#[trigger] capsule_blocked(
                    level,
                    start_graph_node@,
                    goal_graph_node@,
                    jump_sample(s, g, j - 1),
                    jump_sample(s, g, j),
                    radius as int,
                ),
        decreases 12 - k,
    {
        let pos = jump_sample_at(s, g, l, k);
        if capsule_sweep_blocked(level, start_graph_node, goal_graph_node, prev, pos, radius) {
            proof {
                assert(start_graph_node@.position == s && goal_graph_node@.position == g);
                assert(capsule_blocked(
                    level,
                    start_graph_node@,
                    goal_graph_node@,
                    jump_sample(start_graph_node@.position, goal_graph_node@.position, k - 1),
                    jump_sample(start_graph_node@.position, goal_graph_node@.position, k as int),
                    radius as int,
                ));
            }
            return None;
        }
        prev = pos;
        k = k + 1;
    }
    proof {
        assert(0 <= l + dy) by {
            lemma_abs_le_sqrt(dy as int, dx as int, l as int);
        }
        assert(grav * (l + dy) <= 0x10_0000_0000_0000) by (nonlinear_arith)
            requires
                0 <= l + dy <= 0x3_0000_0000,
                grav == 500,
        ;
    }
    let speed = isqrt((grav * (l + dy)) as u128);
    proof {
        if speed > 0x400_0000 {
            assert(speed * speed > 0x400_0000 * 0x400_0000) by (nonlinear_arith)
                requires
                    speed > 0x400_0000,
            ;
        }
    }
    Some(speed)
}

/// The straight-line length of the fall from `start_graph_node` to
/// `goal_graph_node`, if the goal lies strictly lower and no step of the fall,
/// widened by `radius`, crosses an edge that neither node lies on.
pub fn droppability_check(
    start_graph_node: &PathfindingGraphNode,
    goal_graph_node: &PathfindingGraphNode,
    level: &Level,
    radius: i64,
) -> (r: Option<u64>)
    requires
        level.well_formed(),
        in_bounds(start_graph_node.position),
        in_bounds(goal_graph_node.position),
        valid_radius(radius),
    ensures
        ({
            let s = start_graph_node.position;
            let g = goal_graph_node.position;
            &&& (r is Some <==> g.y < s.y && !drop_arc_blocked(
                level,
                start_graph_node@,
                goal_graph_node@,
                radius as int,
            ))
            &&& (r matches Some(e) ==> e as int == sqrt_floor(sq_dist(s, g)) && e <= 0x1_0000_0000)
        }),
{
    let s = start_graph_node.position;
    let g = goal_graph_node.position;
    if g.y >= s.y {
        return None;
    }
    proof {
        let ddx = g.x - s.x;
        let fall = s.y - g.y;
        assert(ddx * 0 == 0 && fall * (0 * 0) == 0) by (nonlinear_arith);
        assert(drop_sample(s, g, 0) == s);
    }
    let mut prev = s;
    let mut k: i128 = 1;
    while k <= 11
        invariant
            level.well_formed(),
            in_bounds(s),
            in_bounds(g),
            s == start_graph_node.position,
            g == goal_graph_node.position,
            valid_radius(radius),
            1 <= k <= 12,
            prev == drop_sample(s, g, k as int - 1),
            -0x2_0000_0000 <= prev.x <= 0x2_0000_0000,
            -0x2_0000_0000 <= prev.y <= 0x2_0000_0000,
            forall|j: int|
                1 <= j < k ==> !#[trigger] capsule_blocked(
                    level,
                    start_graph_node@,
                    goal_graph_node@,
                    drop_sample(s, g, j - 1),
                    drop_sample(s, g, j),
                    radius as int,
                ),
        decreases 12 - k,
    {
        let pos = drop_sample_at(s, g, k);
        if capsule_sweep_blocked(level, start_graph_node, goal_graph_node, prev, pos, radius) {
            proof {
                assert(start_graph_node@.position == s && goal_graph_node@.position == g);
                assert(capsule_blocked(
                    level,
                    start_graph_node@,
                    goal_graph_node@,
                    drop_sample(start_graph_node@.position, goal_graph_node@.position, k - 1),
                    drop_sample(start_graph_node@.position, goal_graph_node@.position, k as int),
                    radius as int,
                ));
            }
            return None;
        }
        prev = pos;
        k = k + 1;
    }
    Some(distance(s, g))
}

} // verus!
