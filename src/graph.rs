//! The navigation graph: nodes on walkable surfaces, their connections, and a
//! uniform grid of cells for nearest-node queries.
use std::collections::HashMap;
use vstd::prelude::*;
use crate::geometry::{Point, in_bounds, COORD_LIMIT, UNIT};

verus! {

broadcast use vstd::std_specs::hash::group_hash_axioms;

/// Side of a grid cell (two and a half times the node spacing).
pub const SPATIAL_CELL_SIZE: i64 = 50_000;

/// Largest `dist` or `effort` a connection of a well-formed graph carries.
pub const MAX_WEIGHT: u64 = 0x400_0000_0000;

/// Offset that makes a cell coordinate non-negative when packed into a key.
pub const CELL_KEY_OFFSET: i64 = 0x8000_0000;

/// How an agent travels along a connection.
#[derive(Clone, Copy, Debug, PartialEq, Eq, Structural)]
pub enum PathfindingGraphConnectionType {
    Walkable,
    Jumpable,
    Droppable,
}

/// A directed connection to the node `node_id`.
#[derive(Clone, Copy, Debug, PartialEq, Eq, Structural)]
pub struct PathfindingGraphConnection {
    pub node_id: usize,
    /// Euclidean length, rounded down.
    pub dist: u64,
    pub connection_type: PathfindingGraphConnectionType,
    /// Cost beyond the distance: 0 for walking, the launch speed of a jump,
    /// half the fall distance of a drop.
    pub effort: u64,
}

/// A point on a walkable surface of the level.
#[derive(Clone, Debug)]
pub struct PathfindingGraphNode {
    pub id: usize,
    pub position: Point,
    pub polygon_index: usize,
    /// The polygon edges the node lies on.
    pub line_indicies: Vec<usize>,
    pub walkable_connections: Vec<PathfindingGraphConnection>,
    pub jumpable_connections: Vec<PathfindingGraphConnection>,
    pub droppable_connections: Vec<PathfindingGraphConnection>,
    /// Outward normal, `UNIT` long, or zero where undefined.
    pub normal: Point,
    pub is_corner: bool,
    pub is_external_corner: Option<bool>,
}

/// What a node holds, with its lists as sequences.
pub struct NodeView {
    pub id: usize,
    pub position: Point,
    pub polygon_index: usize,
    pub lines: Seq<usize>,
    pub walk: Seq<PathfindingGraphConnection>,
    pub jump: Seq<PathfindingGraphConnection>,
    pub drop: Seq<PathfindingGraphConnection>,
    pub normal: Point,
    pub is_corner: bool,
    pub is_external_corner: Option<bool>,
}

impl View for PathfindingGraphNode {
    type V = NodeView;

    open spec fn view(&self) -> NodeView {
        NodeView {
            id: self.id,
            position: self.position,
            polygon_index: self.polygon_index,
            lines: self.line_indicies@,
            walk: self.walkable_connections@,
            jump: self.jumpable_connections@,
            drop: self.droppable_connections@,
            normal: self.normal,
            is_corner: self.is_corner,
            is_external_corner: self.is_external_corner,
        }
    }
}

/// The views of a list of nodes.
pub open spec fn nodes_view(nodes: Seq<PathfindingGraphNode>) -> Seq<NodeView> {
    nodes.map_values(|n: PathfindingGraphNode| n@)
}

/// The nodes, indexed by id, and the grid of cells over them.
pub struct PathfindingGraph {
    pub nodes: Vec<PathfindingGraphNode>,
    /// Node ids by packed cell key, in increasing order within a cell.
    pub spatial_grid: HashMap<u64, Vec<usize>>,
    /// Lower and upper corner of the box around all nodes.
    pub grid_bounds: (Point, Point),
}

/// Every connection leads to one of the first `n` nodes, with bounded weights.
pub open spec fn conns_ok(cs: Seq<PathfindingGraphConnection>, n: int) -> bool {
    forall|k: int|
        #![trigger cs[k]]
        0 <= k < cs.len() ==> cs[k].node_id < n && cs[k].dist <= MAX_WEIGHT && cs[k].effort
            <= MAX_WEIGHT
}

/// Every connection of the list is of the given kind.
pub open spec fn conns_of_kind(
    cs: Seq<PathfindingGraphConnection>,
    kind: PathfindingGraphConnectionType,
) -> bool {
    forall|k: int| #![trigger cs[k]] 0 <= k < cs.len() ==> cs[k].connection_type == kind
}

/// Node `i` of a graph of `n` nodes: its id is its index, it lies in the level's
/// bounds and its connections are valid and sorted by kind.
pub open spec fn node_ok(node: PathfindingGraphNode, i: int, n: int) -> bool {
    &&& node.id == i
    &&& in_bounds(node.position)
    &&& -UNIT <= node.normal.x <= UNIT
    &&& -UNIT <= node.normal.y <= UNIT
    &&& conns_ok(node.walkable_connections@, n)
    &&& conns_ok(node.jumpable_connections@, n)
    &&& conns_ok(node.droppable_connections@, n)
    &&& conns_of_kind(node.walkable_connections@, PathfindingGraphConnectionType::Walkable)
    &&& conns_of_kind(node.jumpable_connections@, PathfindingGraphConnectionType::Jumpable)
    &&& conns_of_kind(node.droppable_connections@, PathfindingGraphConnectionType::Droppable)
}

pub open spec fn nodes_ok(nodes: Seq<PathfindingGraphNode>) -> bool {
    forall|i: int| #![trigger nodes[i]] 0 <= i < nodes.len() ==> node_ok(nodes[i], i, nodes.len() as int)
}

/// Cell coordinate of `v` on an axis whose cells start at `lo`.
pub open spec fn cell_coord(v: int, lo: int) -> int {
    (v - lo) / (SPATIAL_CELL_SIZE as int)
}

pub open spec fn cell_in_range(c: int) -> bool {
    -CELL_KEY_OFFSET < c < CELL_KEY_OFFSET - 1
}

pub open spec fn cell_key(cx: int, cy: int) -> int {
    (cx + CELL_KEY_OFFSET) * 0x1_0000_0000 + (cy + CELL_KEY_OFFSET)
}

/// The ids of the first `n` nodes that lie in cell `(cx, cy)`, in increasing order.
pub open spec fn cell_members(
    nodes: Seq<PathfindingGraphNode>,
    lo: Point,
    cx: int,
    cy: int,
    n: nat,
) -> Seq<usize>
    decreases n,
{
    if n == 0 {
        seq![]
    } else {
        let prev = cell_members(nodes, lo, cx, cy, (n - 1) as nat);
        let p = nodes[n - 1].position;
        if cell_coord(p.x as int, lo.x as int) == cx && cell_coord(p.y as int, lo.y as int) == cy {
            prev.push((n - 1) as usize)
        } else {
            prev
        }
    }
}

/// The grid holds, under the key of each cell, exactly the ids of the nodes in
/// it; it holds no empty cell and no key other than those of cells.
pub open spec fn grid_ok(
    grid: Map<u64, Vec<usize>>,
    nodes: Seq<PathfindingGraphNode>,
    lo: Point,
) -> bool {
    &&& forall|cx: int, cy: int|
        #![trigger cell_key(cx, cy)]
        cell_in_range(cx) && cell_in_range(cy) ==> {
            let key = cell_key(cx, cy) as u64;
            let members = cell_members(nodes, lo, cx, cy, nodes.len());
            if grid.contains_key(key) {
                grid[key]@ == members && members.len() > 0
            } else {
                members == Seq::<usize>::empty()
            }
        }
    &&& forall|k: u64| #[trigger] grid.contains_key(k) ==> grid_key(k)
}

/// `k` is the key of a cell in range.
pub open spec fn grid_key(k: u64) -> bool {
    exists|cx: int, cy: int| cell_in_range(cx) && cell_in_range(cy) && cell_key(cx, cy) == k as int
}

impl PathfindingGraph {
    /// Node ids are their indices, connections lead to nodes, and the grid
    /// holds every node under its cell.
    pub open spec fn well_formed(&self) -> bool {
        &&& nodes_ok(self.nodes@)
        &&& in_bounds(self.grid_bounds.0)
        &&& grid_ok(self.spatial_grid@, self.nodes@, self.grid_bounds.0)
    }

    /// The ids stored for cell `(cx, cy)`.
    pub open spec fn cell_spec(&self, cx: int, cy: int) -> Seq<usize> {
        cell_members(self.nodes@, self.grid_bounds.0, cx, cy, self.nodes@.len())
    }

    pub open spec fn cell_of_spec(&self, pos: Point) -> (int, int) {
        (
            cell_coord(pos.x as int, self.grid_bounds.0.x as int),
            cell_coord(pos.y as int, self.grid_bounds.0.y as int),
        )
    }

    /// The ids in the 3 x 3 block of cells around `pos`, column by column.
    pub open spec fn nearby_spec(&self, pos: Point) -> Seq<usize> {
        let (cx, cy) = self.cell_of_spec(pos);
        self.cell_spec(cx - 1, cy - 1) + self.cell_spec(cx - 1, cy) + self.cell_spec(cx - 1, cy + 1)
            + self.cell_spec(cx, cy - 1) + self.cell_spec(cx, cy) + self.cell_spec(cx, cy + 1)
            + self.cell_spec(cx + 1, cy - 1) + self.cell_spec(cx + 1, cy) + self.cell_spec(
            cx + 1,
            cy + 1,
        )
    }

    /// An empty graph.
    pub fn new() -> (r: PathfindingGraph)
        ensures
            r.nodes@.len() == 0,
            r.well_formed(),
    {
        let r = PathfindingGraph {
            nodes: Vec::new(),
            spatial_grid: HashMap::new(),
            grid_bounds: (Point { x: 0, y: 0 }, Point { x: 0, y: 0 }),
        };
        assert forall|cx: int, cy: int|
            cell_in_range(cx) && cell_in_range(cy) implies cell_members(
                r.nodes@,
                r.grid_bounds.0,
                cx,
                cy,
                0,
            ) == Seq::<usize>::empty() by {}
        r
    }

    /// The cell that holds `pos`.
    pub fn position_to_cell(&self, pos: Point) -> (r: (i64, i64))
        requires
            in_bounds(pos),
            in_bounds(self.grid_bounds.0),
        ensures
            r.0 as int == self.cell_of_spec(pos).0,
            r.1 as int == self.cell_of_spec(pos).1,
            cell_in_range(r.0 - 1),
            cell_in_range(r.1 - 1),
            cell_in_range(r.0 + 1),
            cell_in_range(r.1 + 1),
    {
        let x = floor_div_cell(pos.x - self.grid_bounds.0.x);
        let y = floor_div_cell(pos.y - self.grid_bounds.0.y);
        (x, y)
    }

    /// The cell that holds `pos` in a grid whose cells start at `lo`.
    pub fn position_to_cell_from(&self, lo: Point, pos: Point) -> (r: (i64, i64))
        requires
            in_bounds(pos),
            in_bounds(lo),
        ensures
            r.0 as int == cell_coord(pos.x as int, lo.x as int),
            r.1 as int == cell_coord(pos.y as int, lo.y as int),
            cell_in_range(r.0 as int),
            cell_in_range(r.1 as int),
    {
        let x = floor_div_cell(pos.x - lo.x);
        let y = floor_div_cell(pos.y - lo.y);
        (x, y)
    }

    /// The ids in the 3 x 3 block of cells centred on the cell of `pos`.
    pub fn get_nearby_node_indices(&self, pos: Point) -> (r: Vec<usize>)
        requires
            self.well_formed(),
            in_bounds(pos),
        ensures
            r@ == self.nearby_spec(pos),
            forall|k: int| 0 <= k < r@.len() ==> r@[k] < self.nodes@.len(),
    {
        let (cx, cy) = self.position_to_cell(pos);
        let mut indices: Vec<usize> = Vec::new();
        let mut dx: i64 = -1;
        while dx <= 1
            invariant
                -1 <= dx <= 2,
                self.well_formed(),
                cx as int == self.cell_of_spec(pos).0,
                cy as int == self.cell_of_spec(pos).1,
                cell_in_range(cx - 1),
                cell_in_range(cy - 1),
                cell_in_range(cx + 1),
                cell_in_range(cy + 1),
                indices@ == self.block_prefix(cx as int, cy as int, dx + 1, 0),
                forall|k: int| 0 <= k < indices@.len() ==> indices@[k] < self.nodes@.len(),
            decreases 2 - dx,
        {
            let mut dy: i64 = -1;
            while dy <= 1
                invariant
                    -1 <= dx <= 1,
                    -1 <= dy <= 2,
                    self.well_formed(),
                    cell_in_range(cx - 1),
                    cell_in_range(cy - 1),
                    cell_in_range(cx + 1),
                    cell_in_range(cy + 1),
                    indices@ == self.block_prefix(cx as int, cy as int, dx + 1, dy + 1),
                    forall|k: int| 0 <= k < indices@.len() ==> indices@[k] < self.nodes@.len(),
                decreases 2 - dy,
            {
                let cell = self.cell_contents(cx + dx, cy + dy);
                proof {
                    self.lemma_cell_members_bounded(cx + dx, cy + dy, self.nodes@.len());
                }
                let ghost before = indices@;
                indices.extend_from_slice(cell.as_slice());
                assert forall|k: int| 0 <= k < indices@.len() implies indices@[k]
                    < self.nodes@.len() by {
                    if k >= before.len() {
                        assert(indices@[k] == cell@[k - before.len()]);
                    }
                }
                dy = dy + 1;
            }
            dx = dx + 1;
        }
        proof {
            let (x, y) = (cx as int, cy as int);
            assert(x == self.cell_of_spec(pos).0 && y == self.cell_of_spec(pos).1);
            let c = |i: int, j: int| self.cell_spec(x + i, y + j);
            assert(self.block_prefix(x, y, 0, 1) == self.block_prefix(x, y, 0, 0) + c(-1, -1));
            assert(self.block_prefix(x, y, 0, 2) == self.block_prefix(x, y, 0, 1) + c(-1, 0));
            assert(self.block_prefix(x, y, 0, 3) == self.block_prefix(x, y, 0, 2) + c(-1, 1));
            assert(self.block_prefix(x, y, 1, 0) == self.block_prefix(x, y, 0, 3));
            assert(self.block_prefix(x, y, 1, 1) == self.block_prefix(x, y, 1, 0) + c(0, -1));
            assert(self.block_prefix(x, y, 1, 2) == self.block_prefix(x, y, 1, 1) + c(0, 0));
            assert(self.block_prefix(x, y, 1, 3) == self.block_prefix(x, y, 1, 2) + c(0, 1));
            assert(self.block_prefix(x, y, 2, 0) == self.block_prefix(x, y, 1, 3));
            assert(self.block_prefix(x, y, 2, 1) == self.block_prefix(x, y, 2, 0) + c(1, -1));
            assert(self.block_prefix(x, y, 2, 2) == self.block_prefix(x, y, 2, 1) + c(1, 0));
            assert(self.block_prefix(x, y, 2, 3) == self.block_prefix(x, y, 2, 2) + c(1, 1));
            assert(self.block_prefix(x, y, 3, 0) == self.block_prefix(x, y, 2, 3));
            assert(self.block_prefix(x, y, 0, 0) + c(-1, -1) =~= c(-1, -1));
            assert(indices@ =~= self.nearby_spec(pos));
        }
        indices
    }

    /// The first `i` columns of the block, then the first `j` cells of column `i`.
    pub open spec fn block_prefix(&self, cx: int, cy: int, i: int, j: int) -> Seq<usize>
        decreases i, j,
    {
        if j > 0 {
            self.block_prefix(cx, cy, i, j - 1) + self.cell_spec(cx + i - 1, cy + j - 2)
        } else if i > 0 {
            self.block_prefix(cx, cy, i - 1, 3)
        } else {
            seq![]
        }
    }

    proof fn lemma_cell_members_bounded(&self, cx: int, cy: int, n: nat)
        requires
            n <= self.nodes@.len(),
        ensures
            forall|k: int|
                0 <= k < cell_members(self.nodes@, self.grid_bounds.0, cx, cy, n).len()
                    ==> cell_members(self.nodes@, self.grid_bounds.0, cx, cy, n)[k] < n,
        decreases n,
    {
        if n > 0 {
            self.lemma_cell_members_bounded(cx, cy, (n - 1) as nat);
            let prev = cell_members(self.nodes@, self.grid_bounds.0, cx, cy, (n - 1) as nat);
            let cur = cell_members(self.nodes@, self.grid_bounds.0, cx, cy, n);
            assert forall|k: int| 0 <= k < cur.len() implies cur[k] < n by {
                if k < prev.len() {
                    assert(cur[k] == prev[k]);
                }
            }
        }
    }

    fn cell_contents(&self, cx: i64, cy: i64) -> (r: Vec<usize>)
        requires
            self.well_formed(),
            cell_in_range(cx as int),
            cell_in_range(cy as int),
        ensures
            r@ == self.cell_spec(cx as int, cy as int),
    {
        let key = pack_cell_key(cx, cy);
        match self.spatial_grid.get(&key) {
            Some(v) => v.clone(),
            None => {
                assert(cell_key(cx as int, cy as int) as u64 == key);
                Vec::new()
            },
        }
    }
}

/// The key under which cell `(cx, cy)` is stored.
pub fn pack_cell_key(cx: i64, cy: i64) -> (r: u64)
    requires
        cell_in_range(cx as int),
        cell_in_range(cy as int),
    ensures
        r as int == cell_key(cx as int, cy as int),
{
    let hx = (cx + CELL_KEY_OFFSET) as u64;
    let hy = (cy + CELL_KEY_OFFSET) as u64;
    assert(hx * 0x1_0000_0000 + hy < 0x1_0000_0000_0000_0000) by (nonlinear_arith)
        requires
            hx < 0x1_0000_0000,
            hy < 0x1_0000_0000,
    ;
    hx * 0x1_0000_0000 + hy
}

/// `d / SPATIAL_CELL_SIZE` rounded towards minus infinity.
fn floor_div_cell(d: i64) -> (r: i64)
    requires
        -2 * COORD_LIMIT <= d <= 2 * COORD_LIMIT,
    ensures
        r as int == d as int / (SPATIAL_CELL_SIZE as int),
        -50_000 <= r <= 50_000,
{
    if d >= 0 {
        d / SPATIAL_CELL_SIZE
    } else {
        let q = (-d + SPATIAL_CELL_SIZE - 1) / SPATIAL_CELL_SIZE;
        proof {
            let c = SPATIAL_CELL_SIZE as int;
            let dd = d as int;
            let m = -dd;
            let qq = (m + c - 1) / c;
            vstd::arithmetic::div_mod::lemma_fundamental_div_mod(m + c - 1, c);
            vstd::arithmetic::div_mod::lemma_fundamental_div_mod(dd, c);
            let a = dd / c;
            let b = dd % c;
            let e = (m + c - 1) % c;
            assert(a == -qq) by (nonlinear_arith)
                requires
                    m == -dd,
                    c == 50_000,
                    m + c - 1 == c * qq + e,
                    0 <= e < c,
                    dd == c * a + b,
                    0 <= b < c,
                    m > 0,
            ;
        }
        -q
    }
}

} // verus!
