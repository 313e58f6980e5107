//! The movement grid: cells with per-direction passability, extra edges and
//! teleports, plus the player-state predicates that gate them.

use vstd::prelude::*;

verus! {

/// An integer world position, convertible losslessly to and from a linear
/// cell index given the grid's width.
#[derive(Clone, Copy, Debug, PartialEq, Eq, Structural)]
pub struct Coordinate {
    pub x: u32,
    pub y: u32,
}

impl Coordinate {
    /// The linear cell index of this coordinate in a grid of the given width.
    pub open spec fn lin(self, width: u32) -> int {
        self.y as int * width as int + self.x as int
    }

    /// Whether the coordinate lies inside a grid of the given extents.
    pub open spec fn in_bounds(self, width: u32, height: u32) -> bool {
        self.x < width && self.y < height
    }

    /// The linear cell index of this coordinate.
    pub fn index(&self, width: u32, height: u32) -> (i: u32)
        requires
            self.in_bounds(width, height),
            width as int * height as int <= u32::MAX as int,
        ensures
            i as int == self.lin(width),
    {
        proof {
            lemma_rowcol_bound(self.x as int, self.y as int, width as int, height as int);
        }
        self.y * width + self.x
    }

    /// The coordinate of the given linear cell index.
    pub fn from_index(index: u32, width: u32) -> (c: Coordinate)
        requires
            0 < width,
        ensures
            c.x == index as int % width as int,
            c.y == index as int / width as int,
            c.lin(width) == index as int,
    {
        let x = index % width;
        let y = index / width;
        proof {
            vstd::arithmetic::div_mod::lemma_fundamental_div_mod(index as int, width as int);
            assert(y as int == index as int / width as int);
            assert(x as int == index as int % width as int);
            assert(index as int == (width as int) * (index as int / width as int) + index as int % width as int);
            assert((y as int) * (width as int) == (width as int) * (y as int)) by (nonlinear_arith);
            assert((y as int) * (width as int) + (x as int) == index as int);
        }
        Coordinate { x, y }
    }
}

/// In a grid with `x < width` and `y < height`, the linear index
/// `y * width + x` stays below `width * height`.
pub proof fn lemma_rowcol_bound(x: int, y: int, width: int, height: int)
    requires
        0 <= x < width,
        0 <= y < height,
    ensures
        0 <= y * width + x < width * height,
    {
        assert(0 <= y * width + x < width * height) by (nonlinear_arith)
            requires 0 <= x < width, 0 <= y < height;
    }

/// The horizontal offset of compass direction `d`.
pub open spec fn dir_dx(d: int) -> int {
    if d == 0 { -1 }        // west
    else if d == 1 { 1 }    // east
    else if d == 2 { 0 }    // south
    else if d == 3 { 0 }    // north
    else if d == 4 { -1 }   // south-west
    else if d == 5 { 1 }    // south-east
    else if d == 6 { -1 }   // north-west
    else { 1 }              // north-east
}

/// The vertical offset of compass direction `d`.
pub open spec fn dir_dy(d: int) -> int {
    if d == 0 { 0 } else if d == 1 { 0 } else if d == 2 { -1 } else if d == 3 { 1 }
    else if d == 4 { -1 } else if d == 5 { -1 } else if d == 6 { 1 } else { 1 }
}

/// The horizontal offset of compass direction `d`.
pub fn dir_dx_e(d: u8) -> (r: i8)
    requires d < 8,
    ensures r as int == dir_dx(d as int),
{
    if d == 0 { -1 } else if d == 1 { 1 } else if d == 2 { 0 } else if d == 3 { 0 }
    else if d == 4 { -1 } else if d == 5 { 1 } else if d == 6 { -1 } else { 1 }
}

/// The vertical offset of compass direction `d`.
pub fn dir_dy_e(d: u8) -> (r: i8)
    requires d < 8,
    ensures r as int == dir_dy(d as int),
{
    if d == 0 { 0 } else if d == 1 { 0 } else if d == 2 { -1 } else if d == 3 { 1 }
    else if d == 4 { -1 } else if d == 5 { -1 } else if d == 6 { 1 } else { 1 }
}

/// One grid cell: a passability bitmask (bit `d` set means movement from this
/// cell in compass direction `d` is permitted), a flag marking extra edges,
/// and a connectivity-group id, packed as in the on-disk format.
#[derive(Clone, Copy, Debug, PartialEq, Eq, Structural)]
pub struct Vertex {
    pub flags: u8,
    pub extra_edges_and_group: u8,
}

/// Whether vertex `v` permits movement in compass direction `d`.
pub open spec fn has_dir(v: Vertex, d: int) -> bool {
    v.flags & (1u8 << d) != 0
}

impl Vertex {
    /// The cell's connectivity-group id.
    pub open spec fn group(self) -> u8 {
        self.extra_edges_and_group & 0x7f
    }

    /// Whether the cell has extra (non-grid) edges attached.
    pub open spec fn spec_has_extra_edges(self) -> bool {
        self.extra_edges_and_group & 0x80 != 0
    }

    /// The cell's connectivity-group id.
    pub fn get_group(&self) -> (g: u8)
        ensures g == self.group(),
    {
        self.extra_edges_and_group & 0x7f
    }

    /// Whether the cell has extra (non-grid) edges attached.
    pub fn has_extra_edges(&self) -> (b: bool)
        ensures b == self.spec_has_extra_edges(),
    {
        self.extra_edges_and_group & 0x80 != 0
    }

    /// Whether the cell permits movement in compass direction `d`.
    pub fn permits(&self, d: u8) -> (b: bool)
        requires d < 8,
        ensures b == has_dir(*self, d as int),
    {
        self.flags & (1u8 << d) != 0
    }
}

/// An opaque description of how to perform a special transition; returned to
/// the caller in the route and never examined by the search itself.
#[derive(Clone, Copy, Debug, PartialEq, Eq, Structural)]
pub struct EdgeDefinition {
    pub id: u64,
}

/// An opaque predicate over a player-state snapshot; the search only asks
/// whether it is met, never what it means.
#[derive(Clone, Copy, Debug, PartialEq, Eq, Structural)]
pub struct Requirement {
    pub key: u64,
}

/// A player-state snapshot: the set of facts that hold for this query.
#[derive(Clone, Debug)]
pub struct GameState {
    pub facts: Vec<u64>,
}

/// Whether requirement `r` is met by state `s`.
pub open spec fn req_met(r: Requirement, s: GameState) -> bool {
    s.facts@.contains(r.key)
}

/// Whether every requirement in `reqs` is met by state `s`.
pub open spec fn reqs_met(reqs: Seq<Requirement>, s: GameState) -> bool {
    forall|i: int| 0 <= i < reqs.len() ==> req_met(#[trigger] reqs[i], s)
}

impl Requirement {
    /// Whether this requirement is met by the given state.
    pub fn is_met(&self, state: &GameState) -> (b: bool)
        ensures b == req_met(*self, *state),
    {
        let n = state.facts.len();
        let mut i: usize = 0;
        while i < n
            invariant
                n == state.facts@.len(),
                0 <= i <= n,
                forall|j: int| 0 <= j < i ==> state.facts@[j] != self.key,
            decreases n - i,
        {
            if state.facts[i] == self.key {
                return true;
            }
            i = i + 1;
        }
        false
    }
}

/// Whether every requirement in `reqs` is met by the given state.
pub fn all_met(reqs: &Vec<Requirement>, state: &GameState) -> (b: bool)
    ensures b == reqs_met(reqs@, *state),
{
    let n = reqs.len();
    let mut i: usize = 0;
    while i < n
        invariant
            n == reqs@.len(),
            0 <= i <= n,
            forall|j: int| 0 <= j < i ==> req_met(#[trigger] reqs@[j], *state),
        decreases n - i,
    {
        if !reqs[i].is_met(state) {
            return false;
        }
        i = i + 1;
    }
    true
}

/// A directed transition to a destination coordinate with a non-negative
/// integer cost, gated by requirements and carrying its opaque definition.
/// Teleports are edges usable only as immediate options at search start.
#[derive(Clone, Debug)]
pub struct Edge {
    pub destination: Coordinate,
    pub cost: u32,
    pub requirements: Vec<Requirement>,
    pub definition: EdgeDefinition,
}

/// The immutable world map: all cells, the extra edges attached to each cell,
/// and the teleport list. Immutable during queries.
#[derive(Debug)]
pub struct NavGrid {
    pub width: u32,
    pub height: u32,
    pub vertices: Vec<Vertex>,
    pub edges: Vec<Vec<Edge>>,
    pub teleports: Vec<Edge>,
}

impl NavGrid {
    /// The total cell count.
    pub open spec fn size(self) -> int {
        self.width as int * self.height as int
    }

    /// Movement permitted from cell `i` in direction `d` stays inside the grid.
    pub open spec fn dir_ok(self, i: int, d: int) -> bool {
        has_dir(self.vertices@[i], d) ==> {
            let x = i % (self.width as int);
            let y = i / (self.width as int);
            &&& 0 <= x + dir_dx(d) < self.width as int
            &&& 0 <= y + dir_dy(d) < self.height as int
        }
    }

    /// The linear index of the cell reached from cell `i` by direction `d`.
    pub open spec fn nbr(self, i: int, d: int) -> int {
        let x = i % (self.width as int);
        let y = i / (self.width as int);
        (y + dir_dy(d)) * (self.width as int) + (x + dir_dx(d))
    }

    /// An edge destination lies inside the grid.
    pub open spec fn edge_ok(self, e: Edge) -> bool {
        e.destination.in_bounds(self.width, self.height)
    }

    /// Well-formedness: extents are positive, the cell count leaves the
    /// largest index free as a sentinel, the vertex and edge tables cover
    /// every cell, and every permitted movement, extra edge and teleport
    /// stays inside the grid. Grid providers establish this offline; the
    /// search does not re-validate it.
    pub open spec fn wf(self) -> bool {
        &&& 0 < self.width
        &&& 0 < self.height
        &&& self.size() < u32::MAX as int
        &&& self.vertices@.len() == self.size()
        &&& self.edges@.len() == self.size()
        &&& forall|i: int, d: int| 0 <= i < self.size() && 0 <= d < 8 ==> #[trigger] self.dir_ok(i, d)
        &&& forall|i: int, j: int|
                0 <= i < self.size() && 0 <= j < self.edges@[i]@.len()
                ==> self.edge_ok(#[trigger] self.edges@[i]@[j])
        &&& forall|j: int| 0 <= j < self.teleports@.len() ==> self.edge_ok(#[trigger] self.teleports@[j])
    }

    /// A permitted neighbour index stays below the cell count.
    pub proof fn lemma_nbr_in_range(self, i: int, d: int)
        requires
            self.wf(),
            0 <= i < self.size(),
            0 <= d < 8,
            has_dir(self.vertices@[i], d),
        ensures
            0 <= self.nbr(i, d) < self.size(),
    {
        let w = self.width as int;
        let h = self.height as int;
        assert(self.dir_ok(i, d));
        assert(0 <= i % w < w && 0 <= i / w < h) by (nonlinear_arith)
            requires 0 < w, 0 < h, 0 <= i < w * h;
        lemma_rowcol_bound(i % w + dir_dx(d), i / w + dir_dy(d), w, h);
    }

    /// The neighbour of cell `index` in direction `d`, when that movement is
    /// permitted.
    pub fn neighbor(&self, index: u32, d: u8) -> (r: u32)
        requires
            self.wf(),
            0 <= (index as int) && (index as int) < self.size(),
            d < 8,
            has_dir(self.vertices@[index as int], d as int),
        ensures
            r as int == self.nbr(index as int, d as int),
            0 <= (r as int) && (r as int) < self.size(),
    {
        proof {
            self.lemma_nbr_in_range(index as int, d as int);
            assert(0 <= (index as int) % (self.width as int) < (self.width as int)
                && 0 <= (index as int) / (self.width as int) < (self.height as int)) by (nonlinear_arith)
                requires
                    0 < self.width as int,
                    0 < self.height as int,
                    0 <= (index as int),
                    (index as int) < (self.width as int) * (self.height as int);
        }
        let x = index % self.width;
        let y = index / self.width;
        let dx = dir_dx_e(d);
        let dy = dir_dy_e(d);
        let nx = x as i64 + dx as i64;
        let ny = y as i64 + dy as i64;
        proof {
            assert(self.dir_ok(index as int, d as int));
            assert(0 <= nx as int && (nx as int) < self.width as int);
            assert(0 <= ny as int && (ny as int) < self.height as int);
            lemma_rowcol_bound(nx as int, ny as int, self.width as int, self.height as int);
        }
        let r64 = (ny as u64) * (self.width as u64) + (nx as u64);
        r64 as u32
    }
}


/// An in-bounds coordinate's linear index stays below the cell count.
pub proof fn lemma_coord_in_range(c: Coordinate, grid: NavGrid)
    requires
        c.in_bounds(grid.width, grid.height),
    ensures
        0 <= c.lin(grid.width) < grid.size(),
{
    lemma_rowcol_bound(c.x as int, c.y as int, grid.width as int, grid.height as int);
}

} // verus!
