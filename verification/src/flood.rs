//! Bounded flood traversal: a breadth-first walk over the same adjacency
//! model as the search, ignoring requirements and costs, driven by a
//! caller-supplied continue/stop decision per processed cell.
//!
//! A cell is marked visited when it is enqueued, never when it is processed,
//! so no cell is enqueued twice however many predecessors reach it.

use std::collections::VecDeque;

use vstd::prelude::*;

use crate::grid::has_dir;
use crate::grid::Coordinate;
use crate::grid::NavGrid;
use crate::scratch::RegionCache;

verus! {

/// The per-cell continue/stop decision a traversal is driven by. `log`
/// records every call made and the reply given, so that the traversal's
/// contract can name them; an implementation extends it by exactly its own
/// reply on each call.
pub trait FloodVisitor {
    /// The calls received so far: each processed cell and the reply given.
    spec fn log(&self) -> Seq<(u32, bool)>;

    /// Decide whether to expand the traversal from `index`.
    fn visit(&mut self, index: u32) -> (b: bool)
        ensures
            final(self).log() == old(self).log().push((index, b)),
    ;
}

/// A traversal state: the cells awaiting processing and the visited marks.
pub struct FloodState {
    pub queue: Seq<u32>,
    pub visited: Seq<bool>,
}

/// Enqueue cell `n` unless it is already visited; mark it at once.
pub open spec fn flood_enq(s: FloodState, n: int) -> FloodState {
    if 0 <= n < s.visited.len() && !s.visited[n] {
        FloodState { queue: s.queue.push(n as u32), visited: s.visited.update(n, true) }
    } else {
        s
    }
}

/// Enqueue the grid neighbours of cell `i` in directions `d..8`.
pub open spec fn flood_dirs(grid: NavGrid, i: int, d: int, s: FloodState) -> FloodState
    decreases 8 - d,
{
    if d < 0 || d >= 8 {
        s
    } else {
        let s1 = if has_dir(grid.vertices@[i], d) {
            flood_enq(s, grid.nbr(i, d))
        } else {
            s
        };
        flood_dirs(grid, i, d + 1, s1)
    }
}

/// Enqueue the destinations of the extra edges `j..` of cell `i`.
pub open spec fn flood_edges(grid: NavGrid, i: int, j: int, s: FloodState) -> FloodState
    decreases grid.edges@[i]@.len() - j,
{
    if j < 0 || j >= grid.edges@[i]@.len() {
        s
    } else {
        flood_edges(grid, i, j + 1, flood_enq(s, grid.edges@[i]@[j].destination.lin(grid.width)))
    }
}

/// Enqueue every neighbour of cell `i`: permitted directions, then extra
/// edges when the cell has any.
pub open spec fn flood_expand(grid: NavGrid, i: int, s: FloodState) -> FloodState {
    let s1 = flood_dirs(grid, i, 0, s);
    if grid.vertices@[i].spec_has_extra_edges() {
        flood_edges(grid, i, 0, s1)
    } else {
        s1
    }
}

/// The cells a traversal processes, in order, when the caller's decisions
/// are `ds`: each processed cell consumes one decision, and a `true` reply
/// expands its neighbours.
pub open spec fn flood_trace(grid: NavGrid, s: FloodState, ds: Seq<bool>) -> Seq<u32>
    decreases ds.len(),
{
    if s.queue.len() == 0 || ds.len() == 0 {
        Seq::empty()
    } else {
        let i = s.queue[0];
        let rest = FloodState { queue: s.queue.drop_first(), visited: s.visited };
        let s2 = if ds[0] {
            flood_expand(grid, i as int, rest)
        } else {
            rest
        };
        seq![i] + flood_trace(grid, s2, ds.drop_first())
    }
}

/// The initial traversal state: `start` enqueued and already marked.
pub open spec fn flood_init(grid: NavGrid, start: Coordinate) -> FloodState {
    FloodState {
        queue: seq![start.lin(grid.width) as u32],
        visited: Seq::new(grid.size() as nat, |k: int| k == start.lin(grid.width)),
    }
}

/// The cells a traversal from `start` processes under decisions `ds`.
pub open spec fn flood_trace_from(grid: NavGrid, start: Coordinate, ds: Seq<bool>) -> Seq<u32> {
    flood_trace(grid, flood_init(grid, start), ds)
}

/// The number of unvisited marks, which every enqueue decreases.
pub open spec fn count_false(s: Seq<bool>) -> nat
    decreases s.len(),
{
    if s.len() == 0 {
        0
    } else {
        (if s[0] { 0nat } else { 1nat }) + count_false(s.drop_first())
    }
}

proof fn lemma_count_false_update(s: Seq<bool>, k: int)
    requires
        0 <= k < s.len(),
        !s[k],
    ensures
        count_false(s.update(k, true)) + 1 == count_false(s),
    decreases s.len(),
{
    let t = s.update(k, true);
    if k == 0 {
        assert(t.drop_first() =~= s.drop_first());
    } else {
        lemma_count_false_update(s.drop_first(), k - 1);
        assert(t.drop_first() =~= s.drop_first().update(k - 1, true));
    }
}

/// Breadth-first traversal from `start`, asking `visit_vertex` once per
/// processed cell whether to expand from it. The calls made are exactly the
/// trace of the visitor's own replies; no cell is processed twice; and once
/// the traversal ends, no further decisions could have extended it.
pub fn flood<V: FloodVisitor>(nav_grid: &NavGrid, start: &Coordinate, visit_vertex: &mut V)
    requires
        nav_grid.wf(),
        start.in_bounds(nav_grid.width, nav_grid.height),
    ensures
        old(visit_vertex).log().len() <= final(visit_vertex).log().len(),
        old(visit_vertex).log() == final(visit_vertex).log().take(old(visit_vertex).log().len() as int),
        ({
            let calls = final(visit_vertex).log().skip(old(visit_vertex).log().len() as int);
            let ds = calls.map_values(|p: (u32, bool)| p.1);
            &&& calls.map_values(|p: (u32, bool)| p.0) == flood_trace_from(*nav_grid, *start, ds)
            &&& forall|extra: Seq<bool>|
                    flood_trace_from(*nav_grid, *start, ds + extra)
                        == flood_trace_from(*nav_grid, *start, ds)
            &&& forall|a: int, b: int|
                    0 <= a < b < calls.len() ==> calls[a].0 != calls[b].0
        }),
{
    let ghost grid = *nav_grid;
    let ghost init = flood_init(grid, *start);
    let ghost oldlog = visit_vertex.log();
    let size = nav_grid.vertices.len();
    let start_index = start.index(nav_grid.width, nav_grid.height);
    proof {
        crate::grid::lemma_coord_in_range(*start, grid);
    }
    let mut cache: RegionCache<bool> = RegionCache::new(false, size);
    let mut queue: VecDeque<u32> = VecDeque::new();
    queue.push_back(start_index);
    cache.set(start_index as usize, true);
    let ghost mut ds: Seq<bool> = Seq::empty();
    let ghost mut done: Seq<u32> = Seq::empty();
    proof {
        assert(queue@ =~= init.queue);
        assert(cache@ =~= init.visited);
    }
    while queue.len() > 0
        invariant
            grid == *nav_grid,
            grid.wf(),
            size == grid.size(),
            cache.wf(),
            cache@.len() == size,
            cache.spec_default() == false,
            visit_vertex.log().len() == oldlog.len() + ds.len(),
            oldlog == visit_vertex.log().take(oldlog.len() as int),
            done.len() == ds.len(),
            forall|k: int|
                0 <= k < ds.len()
                ==> #[trigger] visit_vertex.log()[oldlog.len() + k] == (done[k], ds[k]),
            forall|extra: Seq<bool>|
                flood_trace(grid, init, ds + extra)
                    == done + #[trigger] flood_trace(
                    grid,
                    (FloodState { queue: queue@, visited: cache@ }),
                    extra,
                ),
            forall|k: int| 0 <= k < queue@.len() ==> (#[trigger] queue@[k]) < size,
            forall|k: int| 0 <= k < queue@.len() ==> cache@[#[trigger] queue@[k] as int],
            forall|k: int| 0 <= k < done.len() ==> (#[trigger] done[k]) < size,
            forall|k: int| 0 <= k < done.len() ==> cache@[#[trigger] done[k] as int],
            forall|a: int, b: int| 0 <= a < b < queue@.len() ==> queue@[a] != queue@[b],
            forall|a: int, b: int| 0 <= a < b < done.len() ==> done[a] != done[b],
            forall|a: int, b: int|
                0 <= a < queue@.len() && 0 <= b < done.len() ==> queue@[a] != done[b],
        decreases 2 * count_false(cache@) + queue@.len(),
    {
        let ghost m0 = 2 * count_false(cache@) + queue@.len() - 1;
        let ghost pre = FloodState { queue: queue@, visited: cache@ };
        let index = queue.pop_front().unwrap();
        let ghost rest = FloodState { queue: queue@, visited: cache@ };
        proof {
            assert(rest.queue =~= pre.queue.drop_first());
        }
        let expand = visit_vertex.visit(index);
        let ghost dsn = ds.push(expand);
        let ghost donen = done.push(index);
        if expand {
            let v = nav_grid.vertices[index as usize];
            let mut d: u8 = 0;
            while d < 8
                invariant
                    grid == *nav_grid,
                    grid.wf(),
                    size == grid.size(),
                    cache.wf(),
                    cache@.len() == size,
                    cache.spec_default() == false,
                    0 <= d <= 8,
                    0 <= index < size,
                    v == grid.vertices@[index as int],
                    flood_dirs(grid, index as int, 0, rest)
                        == flood_dirs(
                        grid,
                        index as int,
                        d as int,
                        (FloodState { queue: queue@, visited: cache@ }),
                    ),
                    2 * count_false(cache@) + queue@.len() <= m0,
                    forall|k: int| 0 <= k < queue@.len() ==> (#[trigger] queue@[k]) < size,
                    forall|k: int| 0 <= k < queue@.len() ==> cache@[#[trigger] queue@[k] as int],
                    forall|k: int| 0 <= k < donen.len() ==> (#[trigger] donen[k]) < size,
                    forall|k: int| 0 <= k < donen.len() ==> cache@[#[trigger] donen[k] as int],
                    forall|a: int, b: int| 0 <= a < b < queue@.len() ==> queue@[a] != queue@[b],
                    forall|a: int, b: int| 0 <= a < b < donen.len() ==> donen[a] != donen[b],
                    forall|a: int, b: int|
                        0 <= a < queue@.len() && 0 <= b < donen.len() ==> queue@[a] != donen[b],
                decreases 8 - d,
            {
                let ghost scur = FloodState { queue: queue@, visited: cache@ };
                if v.permits(d) {
                    let adj = nav_grid.neighbor(index, d);
                    if !cache.get(adj as usize) {
                        queue.push_back(adj);
                        cache.set(adj as usize, true);
                        proof {
                            lemma_count_false_update(scur.visited, adj as int);
                        }
                    }
                    proof {
                        assert(flood_enq(scur, grid.nbr(index as int, d as int))
                            == (FloodState { queue: queue@, visited: cache@ }));
                    }
                }
                d = d + 1;
            }
            if v.has_extra_edges() {
                let ghost s1 = FloodState { queue: queue@, visited: cache@ };
                let elen = nav_grid.edges[index as usize].len();
                let mut j: usize = 0;
                while j < elen
                    invariant
                        grid == *nav_grid,
                        grid.wf(),
                        size == grid.size(),
                        cache.wf(),
                        cache@.len() == size,
                        cache.spec_default() == false,
                        0 <= index < size,
                        elen == grid.edges@[index as int]@.len(),
                        0 <= j <= elen,
                        flood_edges(grid, index as int, 0, s1)
                            == flood_edges(
                            grid,
                            index as int,
                            j as int,
                            (FloodState { queue: queue@, visited: cache@ }),
                        ),
                        2 * count_false(cache@) + queue@.len() <= m0,
                        forall|k: int| 0 <= k < queue@.len() ==> (#[trigger] queue@[k]) < size,
                        forall|k: int| 0 <= k < queue@.len() ==> cache@[#[trigger] queue@[k] as int],
                        forall|k: int| 0 <= k < donen.len() ==> (#[trigger] donen[k]) < size,
                        forall|k: int| 0 <= k < donen.len() ==> cache@[#[trigger] donen[k] as int],
                        forall|a: int, b: int| 0 <= a < b < queue@.len() ==> queue@[a] != queue@[b],
                        forall|a: int, b: int| 0 <= a < b < donen.len() ==> donen[a] != donen[b],
                        forall|a: int, b: int|
                            0 <= a < queue@.len() && 0 <= b < donen.len() ==> queue@[a] != donen[b],
                    decreases elen - j,
                {
                    let ghost scur = FloodState { queue: queue@, visited: cache@ };
                    let dest = nav_grid.edges[index as usize][j].destination;
                    proof {
                        assert(grid.edge_ok(grid.edges@[index as int]@[j as int]));
                        crate::grid::lemma_coord_in_range(dest, grid);
                    }
                    let adj = dest.index(nav_grid.width, nav_grid.height);
                    if !cache.get(adj as usize) {
                        queue.push_back(adj);
                        cache.set(adj as usize, true);
                        proof {
                            lemma_count_false_update(scur.visited, adj as int);
                        }
                    }
                    proof {
                        assert(flood_enq(scur, dest.lin(grid.width))
                            == (FloodState { queue: queue@, visited: cache@ }));
                    }
                    j = j + 1;
                }
            }
        }
        proof {
            let cur = FloodState { queue: queue@, visited: cache@ };
            assert(cur == if ds.push(expand).last() {
                flood_expand(grid, index as int, rest)
            } else {
                rest
            });
            assert forall|extra: Seq<bool>|
                flood_trace(grid, init, dsn + extra)
                    == donen + #[trigger] flood_trace(grid, cur, extra) by {
                let e1 = seq![expand] + extra;
                assert(flood_trace(grid, init, ds + e1) == done + flood_trace(grid, pre, e1));
                assert(dsn + extra =~= ds + e1);
                assert(e1.drop_first() =~= extra);
                assert(flood_trace(grid, pre, e1) == seq![index] + flood_trace(grid, cur, extra));
                assert(done + (seq![index] + flood_trace(grid, cur, extra))
                    =~= donen + flood_trace(grid, cur, extra));
            }
            ds = dsn;
            done = donen;
        }
    }
    proof {
        let cur = FloodState { queue: queue@, visited: cache@ };
        assert(flood_trace(grid, init, ds + Seq::<bool>::empty())
            == done + flood_trace(grid, cur, Seq::<bool>::empty()));
        assert(ds + Seq::<bool>::empty() =~= ds);
        assert(flood_trace(grid, cur, Seq::<bool>::empty()) == Seq::<u32>::empty());
        assert(done + Seq::<u32>::empty() =~= done);
        assert(flood_trace_from(grid, *start, ds) == done);
        assert forall|extra: Seq<bool>| flood_trace_from(grid, *start, ds + extra)
            == flood_trace_from(grid, *start, ds) by {
            assert(flood_trace(grid, init, ds + extra) == done + flood_trace(grid, cur, extra));
            assert(flood_trace(grid, cur, extra) == Seq::<u32>::empty());
            assert(done + flood_trace(grid, cur, extra) =~= done);
        }
        let calls = visit_vertex.log().skip(oldlog.len() as int);
        assert(calls.len() == ds.len());
        assert forall|k: int| 0 <= k < calls.len() implies #[trigger] calls[k] == (done[k], ds[k]) by {
            assert(visit_vertex.log()[oldlog.len() + k] == (done[k], ds[k]));
        }
        assert(calls.map_values(|p: (u32, bool)| p.0) =~= done);
        assert(calls.map_values(|p: (u32, bool)| p.1) =~= ds);
    }
}

/// A visitor that always expands and records every processed cell.
pub struct CollectingVisitor {
    pub cells: Vec<u32>,
}

impl CollectingVisitor {
    /// A fresh visitor with no cells recorded.
    pub fn new() -> (r: Self)
        ensures
            r.cells@ == Seq::<u32>::empty(),
            r.log() == Seq::<(u32, bool)>::empty(),
    {
        let r = CollectingVisitor { cells: Vec::new() };
        proof {
            assert(r.log() =~= Seq::<(u32, bool)>::empty());
        }
        r
    }
}

impl FloodVisitor for CollectingVisitor {
    open spec fn log(&self) -> Seq<(u32, bool)> {
        self.cells@.map_values(|c: u32| (c, true))
    }

    fn visit(&mut self, index: u32) -> (b: bool) {
        self.cells.push(index);
        proof {
            assert(self.log() =~= old(self).log().push((index, true)));
        }
        true
    }
}

/// A visitor that never expands: the traversal processes only its start.
pub struct HaltingVisitor {
    pub cells: Vec<u32>,
}

impl HaltingVisitor {
    /// A fresh visitor with no cells recorded.
    pub fn new() -> (r: Self)
        ensures
            r.cells@ == Seq::<u32>::empty(),
            r.log() == Seq::<(u32, bool)>::empty(),
    {
        let r = HaltingVisitor { cells: Vec::new() };
        proof {
            assert(r.log() =~= Seq::<(u32, bool)>::empty());
        }
        r
    }
}

impl FloodVisitor for HaltingVisitor {
    open spec fn log(&self) -> Seq<(u32, bool)> {
        self.cells@.map_values(|c: u32| (c, false))
    }

    fn visit(&mut self, index: u32) -> (b: bool) {
        self.cells.push(index);
        proof {
            assert(self.log() =~= old(self).log().push((index, false)));
        }
        false
    }
}

/// A traversal whose first decision is to stop processes exactly its start
/// cell and visits no other.
pub proof fn lemma_flood_stops_at_start(grid: NavGrid, start: Coordinate, ds: Seq<bool>)
    requires
        ds.len() >= 1,
        !ds[0],
    ensures
        flood_trace_from(grid, start, ds) == seq![start.lin(grid.width) as u32],
{
    let init = flood_init(grid, start);
    let rest = FloodState { queue: init.queue.drop_first(), visited: init.visited };
    assert(flood_trace(grid, rest, ds.drop_first()) == Seq::<u32>::empty());
    assert(seq![start.lin(grid.width) as u32] + Seq::<u32>::empty()
        =~= seq![start.lin(grid.width) as u32]);
}

/// Two completed traversals from one start whose callbacks always said to
/// expand processed the same cells: the visited set does not depend on how
/// the decisions were delivered.
pub proof fn lemma_flood_repeatable(grid: NavGrid, start: Coordinate, ds1: Seq<bool>, ds2: Seq<bool>)
    requires
        forall|k: int| 0 <= k < ds1.len() ==> ds1[k],
        forall|k: int| 0 <= k < ds2.len() ==> ds2[k],
        forall|extra: Seq<bool>|
            flood_trace_from(grid, start, ds1 + extra) == flood_trace_from(grid, start, ds1),
        forall|extra: Seq<bool>|
            flood_trace_from(grid, start, ds2 + extra) == flood_trace_from(grid, start, ds2),
    ensures
        flood_trace_from(grid, start, ds1) == flood_trace_from(grid, start, ds2),
{
    if ds1.len() <= ds2.len() {
        let pad = ds2.skip(ds1.len() as int);
        assert(ds2 =~= ds1 + pad);
        assert(flood_trace_from(grid, start, ds1 + pad) == flood_trace_from(grid, start, ds1));
    } else {
        let pad = ds1.skip(ds2.len() as int);
        assert(ds1 =~= ds2 + pad);
        assert(flood_trace_from(grid, start, ds2 + pad) == flood_trace_from(grid, start, ds2));
    }
}

} // verus!
