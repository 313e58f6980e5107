//! The shortest-path search: Dijkstra's algorithm over the movement grid,
//! extra edges and teleports, parameterized by the frontier strategy.
//!
//! The whole search is mirrored by a ghost step-by-step simulation
//! (`sim_state`, `sim_done`, `sim_result`). Every search, whichever frontier
//! strategy drives it, returns exactly the simulation's route, which is how
//! the two strategies are proved to agree.

use vstd::prelude::*;

use crate::frontier::first_min_index;
use crate::frontier::lemma_first_min_index;
use crate::frontier::ComparisonFrontier;
use crate::frontier::Frontier;
use crate::bucket_ring::BucketRingBuffer;
use crate::grid::has_dir;
use crate::grid::reqs_met;
use crate::grid::Coordinate;
use crate::grid::EdgeDefinition;
use crate::grid::GameState;
use crate::grid::NavGrid;
use crate::scratch::RegionCache;

verus! {

/// A lightweight handle to the edge that produced a relaxation, pointing
/// into the grid's own edge storage so no reference outlives the grid.
#[derive(Clone, Copy, Debug, PartialEq, Eq, Structural)]
pub enum EdgeRef {
    /// The teleport at this position of the grid's teleport list.
    Teleport(u32),
    /// The extra edge at this position of the named cell's edge list.
    Extra(u32, u32),
}

/// One scratch entry: best known cost, predecessor cell, and the edge that
/// produced the relaxation (absent means plain grid movement).
#[derive(Clone, Copy, Debug)]
pub struct DijkstraCacheState {
    pub cost: u32,
    pub prev: u32,
    pub edge: Option<EdgeRef>,
}

/// One unit of the returned route: a plain movement to a coordinate, or the
/// use of a specific edge, carrying its opaque definition.
#[derive(Clone, Copy, Debug, PartialEq, Eq, Structural)]
pub enum Step {
    /// Perform the transition this definition describes.
    Edge(EdgeDefinition),
    /// Move to this coordinate.
    Step(Coordinate),
}

/// The scratch value of a cell no query has touched: unreached, no
/// predecessor, no edge. The largest index plays the sentinel; the grid's
/// cell count never reaches it.
pub open spec fn vacant() -> DijkstraCacheState {
    DijkstraCacheState { cost: u32::MAX, prev: u32::MAX, edge: None }
}

/// The unreached scratch value.
pub fn vacant_entry() -> (r: DijkstraCacheState)
    ensures
        r == vacant(),
{
    DijkstraCacheState { cost: u32::MAX, prev: u32::MAX, edge: None }
}

/// The definition carried by the edge a handle points at.
pub open spec fn def_of(grid: NavGrid, r: EdgeRef) -> EdgeDefinition {
    match r {
        EdgeRef::Teleport(j) => grid.teleports@[j as int].definition,
        EdgeRef::Extra(i, k) => grid.edges@[i as int]@[k as int].definition,
    }
}

/// The coordinate of linear cell index `i`.
pub open spec fn coord_of(grid: NavGrid, i: int) -> Coordinate {
    Coordinate { x: (i % (grid.width as int)) as u32, y: (i / (grid.width as int)) as u32 }
}

/// The simulation state: frontier entries in insertion order, the scratch
/// values of every cell, and the outcome once the search has finished.
pub struct SearchState {
    pub queue: Seq<(u32, u32)>,
    pub cache: Seq<DijkstraCacheState>,
    pub outcome: Option<Option<Seq<Step>>>,
}

/// Relax `target`: on strict improvement record cost, predecessor and edge
/// and insert the target into the frontier.
pub open spec fn relax(
    s: SearchState,
    src_cost: int,
    target: int,
    w: int,
    p: u32,
    e: Option<EdgeRef>,
) -> SearchState {
    let newc = src_cost + w;
    if 0 <= target < s.cache.len() && newc < s.cache[target].cost {
        SearchState {
            queue: s.queue.push((newc as u32, target as u32)),
            cache: s.cache.update(
                target,
                DijkstraCacheState { cost: newc as u32, prev: p, edge: e },
            ),
            outcome: s.outcome,
        }
    } else {
        s
    }
}

/// Seed the frontier with every teleport, from position `j` on, whose
/// requirements the state meets.
pub open spec fn seed_teleports(grid: NavGrid, gs: GameState, j: int, s: SearchState) -> SearchState
    decreases grid.teleports@.len() - j,
{
    if j < 0 || j >= grid.teleports@.len() {
        s
    } else {
        let t = grid.teleports@[j];
        let s1 = if reqs_met(t.requirements@, gs) {
            relax(
                s,
                0,
                t.destination.lin(grid.width),
                t.cost as int,
                u32::MAX,
                Some(EdgeRef::Teleport(j as u32)),
            )
        } else {
            s
        };
        seed_teleports(grid, gs, j + 1, s1)
    }
}

/// Relax the grid neighbours of cell `i` in directions `d..8` with weight 1.
pub open spec fn relax_dirs(grid: NavGrid, i: int, c: u32, d: int, s: SearchState) -> SearchState
    decreases 8 - d,
{
    if d < 0 || d >= 8 {
        s
    } else {
        let s1 = if has_dir(grid.vertices@[i], d) {
            relax(s, c as int, grid.nbr(i, d), 1, i as u32, None)
        } else {
            s
        };
        relax_dirs(grid, i, c, d + 1, s1)
    }
}

/// Relax the destinations of the extra edges `j..` of cell `i` whose
/// requirements the state meets, each with its own cost.
pub open spec fn relax_edges(
    grid: NavGrid,
    gs: GameState,
    i: int,
    c: u32,
    j: int,
    s: SearchState,
) -> SearchState
    decreases grid.edges@[i]@.len() - j,
{
    if j < 0 || j >= grid.edges@[i]@.len() {
        s
    } else {
        let e = grid.edges@[i]@[j];
        let s1 = if reqs_met(e.requirements@, gs) {
            relax(
                s,
                c as int,
                e.destination.lin(grid.width),
                e.cost as int,
                i as u32,
                Some(EdgeRef::Extra(i as u32, j as u32)),
            )
        } else {
            s
        };
        relax_edges(grid, gs, i, c, j + 1, s1)
    }
}

/// Walk the predecessor chain backward from cell `i` and collect the route
/// in forward order: an edge step where an edge was used, a movement step
/// otherwise; the start cell itself contributes nothing. `fuel` bounds the
/// walk so the value is defined even on scratch data no search produced.
pub open spec fn reconstruct(grid: NavGrid, cache: Seq<DijkstraCacheState>, i: int, fuel: nat) -> Option<
    Seq<Step>,
>
    decreases fuel,
{
    if fuel == 0 || !(0 <= i < cache.len()) {
        None
    } else {
        let entry = cache[i];
        match entry.edge {
            Some(r) => {
                if entry.prev == u32::MAX {
                    Some(seq![Step::Edge(def_of(grid, r))])
                } else {
                    match reconstruct(grid, cache, entry.prev as int, (fuel - 1) as nat) {
                        Some(rs) => Some(rs.push(Step::Edge(def_of(grid, r)))),
                        None => None,
                    }
                }
            },
            None => {
                if entry.prev == u32::MAX {
                    Some(Seq::empty())
                } else {
                    match reconstruct(grid, cache, entry.prev as int, (fuel - 1) as nat) {
                        Some(rs) => Some(rs.push(Step::Step(coord_of(grid, i)))),
                        None => None,
                    }
                }
            },
        }
    }
}

/// One step of the search: extract the first-inserted cheapest entry; drop
/// it when stale; finish with the reconstructed route when it is the end;
/// otherwise relax its neighbours and, when flagged, its extra edges.
pub open spec fn sim_step(grid: NavGrid, gs: GameState, endi: int, s: SearchState) -> SearchState {
    if s.outcome is Some {
        s
    } else if s.queue.len() == 0 {
        SearchState { queue: s.queue, cache: s.cache, outcome: Some(None) }
    } else {
        let k = first_min_index(s.queue);
        let c = s.queue[k].0;
        let i = s.queue[k].1;
        let s1 = SearchState { queue: s.queue.remove(k), cache: s.cache, outcome: s.outcome };
        if !((i as int) < s.cache.len()) {
            s1
        } else if s.cache[i as int].cost < c {
            s1
        } else if i as int == endi {
            SearchState {
                queue: s1.queue,
                cache: s1.cache,
                outcome: Some(
                    reconstruct(grid, s1.cache, endi, (s1.cache.len() + 1) as nat),
                ),
            }
        } else {
            let s2 = relax_dirs(grid, i as int, c, 0, s1);
            if grid.vertices@[i as int].spec_has_extra_edges() {
                relax_edges(grid, gs, i as int, c, 0, s2)
            } else {
                s2
            }
        }
    }
}

/// The state the search starts from: every cell unreached but the start at
/// cost zero, the start enqueued, then the teleports seeded.
pub open spec fn init_state(grid: NavGrid, gs: GameState, si: int) -> SearchState {
    let base = SearchState {
        queue: seq![(0u32, si as u32)],
        cache: Seq::new(grid.size() as nat, |k: int| vacant()).update(
            si,
            DijkstraCacheState { cost: 0, prev: u32::MAX, edge: None },
        ),
        outcome: None,
    };
    seed_teleports(grid, gs, 0, base)
}

/// The simulation after `fuel` steps.
pub open spec fn sim_run(grid: NavGrid, gs: GameState, endi: int, s: SearchState, fuel: nat) -> SearchState
    decreases fuel,
{
    if fuel == 0 || s.outcome is Some {
        s
    } else {
        sim_run(grid, gs, endi, sim_step(grid, gs, endi, s), (fuel - 1) as nat)
    }
}

/// Whether the search from `si` to `ei` has finished within `n` steps.
pub open spec fn sim_done(grid: NavGrid, gs: GameState, si: int, ei: int, n: nat) -> bool {
    sim_run(grid, gs, ei, init_state(grid, gs, si), n).outcome is Some
}

/// The route (or absence) the finished search from `si` to `ei` produced.
pub open spec fn sim_result(grid: NavGrid, gs: GameState, si: int, ei: int, n: nat) -> Option<
    Seq<Step>,
> {
    match sim_run(grid, gs, ei, init_state(grid, gs, si), n).outcome {
        Some(r) => r,
        None => None,
    }
}

/// Running one more step applies `sim_step` to the end of the run.
proof fn lemma_run_snoc(grid: NavGrid, gs: GameState, endi: int, s: SearchState, n: nat)
    ensures
        sim_run(grid, gs, endi, s, n + 1) == (if sim_run(grid, gs, endi, s, n).outcome is Some {
            sim_run(grid, gs, endi, s, n)
        } else {
            sim_step(grid, gs, endi, sim_run(grid, gs, endi, s, n))
        }),
    decreases n,
{
    if s.outcome is Some {
        assert(sim_run(grid, gs, endi, s, n + 1) == s);
        assert(sim_run(grid, gs, endi, s, n) == s);
    } else {
        let s1 = sim_step(grid, gs, endi, s);
        assert(sim_run(grid, gs, endi, s, n + 1) == sim_run(grid, gs, endi, s1, n));
        if n == 0 {
            assert(sim_run(grid, gs, endi, s1, 0) == s1);
            assert(sim_run(grid, gs, endi, s, 0) == s);
        } else {
            lemma_run_snoc(grid, gs, endi, s1, (n - 1) as nat);
            assert(sim_run(grid, gs, endi, s1, (n - 1) as nat + 1) == sim_run(grid, gs, endi, s1, n as int as nat));
            assert(sim_run(grid, gs, endi, s, n) == sim_run(grid, gs, endi, s1, (n - 1) as nat));
        }
    }
}

/// Once the simulation has finished, further steps change nothing.
proof fn lemma_run_stable(grid: NavGrid, gs: GameState, endi: int, s: SearchState, n: nat, m: nat)
    requires
        n <= m,
        sim_run(grid, gs, endi, s, n).outcome is Some,
    ensures
        sim_run(grid, gs, endi, s, m) == sim_run(grid, gs, endi, s, n),
    decreases n,
{
    if s.outcome is Some {
    } else if n == 0 {
    } else {
        lemma_run_stable(grid, gs, endi, sim_step(grid, gs, endi, s), (n - 1) as nat, (m - 1) as nat);
    }
}

/// Both frontier strategies answer one query alike: two finished runs of the
/// same search agree on the route, so in particular on its total cost.
pub proof fn lemma_strategies_agree(
    grid: NavGrid,
    gs: GameState,
    si: int,
    ei: int,
    n1: nat,
    n2: nat,
)
    requires
        sim_done(grid, gs, si, ei, n1),
        sim_done(grid, gs, si, ei, n2),
    ensures
        sim_result(grid, gs, si, ei, n1) == sim_result(grid, gs, si, ei, n2),
{
    let init = init_state(grid, gs, si);
    if n1 <= n2 {
        lemma_run_stable(grid, gs, ei, init, n1, n2);
    } else {
        lemma_run_stable(grid, gs, ei, init, n2, n1);
    }
}

/// Every edge and teleport cost fits under `cap`, as the bucket-ring
/// strategy requires of its configured bound; plain movement costs 1.
pub open spec fn weights_ok(grid: NavGrid, cap: int) -> bool {
    &&& 1 <= cap
    &&& forall|i: int, j: int|
            0 <= i < grid.edges@.len() && 0 <= j < grid.edges@[i]@.len()
            ==> (#[trigger] grid.edges@[i]@[j]).cost as int <= cap
    &&& forall|j: int|
            0 <= j < grid.teleports@.len() ==> (#[trigger] grid.teleports@[j]).cost as int <= cap
}

/// Scratch handles stay inside the grid: predecessors are cells or the
/// sentinel, and every edge handle points at a real teleport or edge.
pub open spec fn cache_refs_ok(grid: NavGrid, cs: Seq<DijkstraCacheState>) -> bool {
    forall|k: int|
        0 <= k < cs.len() ==> {
            let entry = #[trigger] cs[k];
            &&& (entry.prev == u32::MAX || (entry.prev as int) < cs.len())
            &&& match entry.edge {
                Some(EdgeRef::Teleport(j)) => (j as int) < grid.teleports@.len(),
                Some(EdgeRef::Extra(a, b)) => (a as int) < grid.edges@.len() && (b as int)
                    < grid.edges@[a as int]@.len(),
                None => true,
            }
        }
}

/// The sum of all recorded costs; every relaxation lowers it, which bounds
/// the search.
pub open spec fn sum_costs(cs: Seq<DijkstraCacheState>) -> nat
    decreases cs.len(),
{
    if cs.len() == 0 {
        0
    } else {
        cs[0].cost as nat + sum_costs(cs.drop_first())
    }
}

/// The route as a sequence of steps, or its absence.
pub open spec fn route_view(r: Option<Vec<Step>>) -> Option<Seq<Step>> {
    match r {
        Some(v) => Some(v@),
        None => None,
    }
}

/// `v` with its steps in reverse order.
fn reverse_vec(v: Vec<Step>) -> (r: Vec<Step>)
    ensures
        r@ == v@.reverse(),
{
    let ghost orig = v@;
    let mut v = v;
    let mut r: Vec<Step> = Vec::new();
    proof {
        assert(r@ + v@.reverse() =~= orig.reverse());
    }
    while v.len() > 0
        invariant
            orig.reverse() == r@ + v@.reverse(),
        decreases v.len(),
    {
        let ghost vpre = v@;
        let ghost rpre = r@;
        let x = v.pop().unwrap();
        r.push(x);
        proof {
            assert(vpre.reverse() =~= seq![x] + v@.reverse());
            assert(r@ + v@.reverse() =~= rpre + vpre.reverse());
        }
    }
    proof {
        assert(v@.reverse() =~= Seq::<Step>::empty());
        assert(r@ =~= orig.reverse());
    }
    r
}

/// Rebuild the route recorded in the scratch store, walking the predecessor
/// chain backward from `end_index` and reversing the collected steps.
fn reconstruct_exec(
    nav_grid: &NavGrid,
    cache: &RegionCache<DijkstraCacheState>,
    end_index: u32,
) -> (r: Option<Vec<Step>>)
    requires
        nav_grid.wf(),
        cache.wf(),
        cache@.len() == nav_grid.size(),
        cache_refs_ok(*nav_grid, cache@),
        (end_index as int) < nav_grid.size(),
    ensures
        route_view(r) == reconstruct(*nav_grid, cache@, end_index as int, (cache@.len() + 1) as nat),
{
    let ghost grid = *nav_grid;
    let ghost total = reconstruct(grid, cache@, end_index as int, (cache@.len() + 1) as nat);
    let mut path: Vec<Step> = Vec::new();
    let mut idx: u32 = end_index;
    let size = cache.len();
    let mut fuel: u64 = size as u64 + 1;
    proof {
        match total {
            Some(rs) => {
                assert(rs + path@.reverse() =~= rs);
            },
            None => {},
        }
    }
    while fuel > 0
        invariant
            grid == *nav_grid,
            grid.wf(),
            cache.wf(),
            cache@.len() == nav_grid.size(),
            cache_refs_ok(grid, cache@),
            (idx as int) < cache@.len(),
            total == reconstruct(grid, cache@, end_index as int, (cache@.len() + 1) as nat),
            total == (match reconstruct(grid, cache@, idx as int, fuel as nat) {
                Some(rs) => Some(rs + path@.reverse()),
                None => None::<Seq<Step>>,
            }),
        decreases fuel,
    {
        let entry = cache.get(idx as usize);
        let ghost fuel0 = fuel as nat;
        let ghost path0 = path@;
        fuel = fuel - 1;
        match entry.edge {
            Some(eref) => {
                let def = match eref {
                    EdgeRef::Teleport(tj) => nav_grid.teleports[tj as usize].definition,
                    EdgeRef::Extra(a, b) => nav_grid.edges[a as usize][b as usize].definition,
                };
                proof {
                    assert(def == def_of(grid, eref));
                }
                path.push(Step::Edge(def));
                proof {
                    assert(path@.reverse() =~= seq![Step::Edge(def_of(grid, eref))] + path0.reverse());
                }
                if entry.prev == u32::MAX {
                    proof {
                        assert(reconstruct(grid, cache@, idx as int, fuel0)
                            == Some(seq![Step::Edge(def_of(grid, eref))]));
                        assert(seq![Step::Edge(def_of(grid, eref))] + path0.reverse()
                            =~= path@.reverse());
                    }
                    return Some(reverse_vec(path));
                } else {
                    proof {
                        let inner = reconstruct(grid, cache@, entry.prev as int, (fuel0 - 1) as nat);
                        match inner {
                            Some(rs) => {
                                assert(rs.push(Step::Edge(def_of(grid, eref))) + path0.reverse()
                                    =~= rs + path@.reverse());
                            },
                            None => {},
                        }
                    }
                    idx = entry.prev;
                }
            },
            None => {
                if entry.prev == u32::MAX {
                    proof {
                        assert(reconstruct(grid, cache@, idx as int, fuel0)
                            == Some(Seq::<Step>::empty()));
                        assert(Seq::<Step>::empty() + path0.reverse() =~= path@.reverse());
                    }
                    return Some(reverse_vec(path));
                } else {
                    let cstep = Coordinate::from_index(idx, nav_grid.width);
                    proof {
                        assert(cstep == coord_of(grid, idx as int));
                    }
                    path.push(Step::Step(cstep));
                    proof {
                        assert(path@.reverse() =~= seq![Step::Step(coord_of(grid, idx as int))]
                            + path0.reverse());
                        let inner = reconstruct(grid, cache@, entry.prev as int, (fuel0 - 1) as nat);
                        match inner {
                            Some(rs) => {
                                assert(rs.push(Step::Step(coord_of(grid, idx as int))) + path0.reverse()
                                    =~= rs + path@.reverse());
                            },
                            None => {},
                        }
                    }
                    idx = entry.prev;
                }
            },
        }
    }
    proof {
        assert(reconstruct(grid, cache@, idx as int, 0) == None::<Seq<Step>>);
    }
    None
}

proof fn lemma_sum_costs_update(cs: Seq<DijkstraCacheState>, k: int, v: DijkstraCacheState)
    requires
        0 <= k < cs.len(),
    ensures
        sum_costs(cs.update(k, v)) + cs[k].cost as nat == sum_costs(cs) + v.cost as nat,
    decreases cs.len(),
{
    let t = cs.update(k, v);
    if k == 0 {
        assert(t.drop_first() =~= cs.drop_first());
    } else {
        lemma_sum_costs_update(cs.drop_first(), k - 1, v);
        assert(t.drop_first() =~= cs.drop_first().update(k - 1, v));
    }
}


/// The search loop shared by both strategies: seed, then repeatedly extract
/// the cheapest entry and relax around it, mirroring the simulation step for
/// step; the result is exactly the simulation's route.
fn search_core<F: Frontier>(
    nav_grid: &NavGrid,
    start_index: u32,
    end_index: u32,
    game_state: &GameState,
    frontier: &mut F,
    cache: &mut RegionCache<DijkstraCacheState>,
) -> (r: Option<Vec<Step>>)
    requires
        nav_grid.wf(),
        (start_index as int) < nav_grid.size(),
        (end_index as int) < nav_grid.size(),
        old(frontier).inv(),
        old(frontier).entries() == Seq::<(u32, u32)>::empty(),
        forall|c: int| 0 <= c <= old(frontier).weight_cap() ==> old(frontier).valid_offer(c),
        weights_ok(*nav_grid, old(frontier).weight_cap()),
        old(cache).wf(),
        old(cache)@.len() == nav_grid.size(),
        old(cache).spec_default() == vacant(),
    ensures
        final(frontier).inv(),
        final(frontier).weight_cap() == old(frontier).weight_cap(),
        final(cache).wf(),
        final(cache)@.len() == old(cache)@.len(),
        final(cache).spec_default() == old(cache).spec_default(),
        exists|n: nat|
            #[trigger] sim_done(*nav_grid, *game_state, start_index as int, end_index as int, n)
                && sim_result(*nav_grid, *game_state, start_index as int, end_index as int, n)
                == route_view(r),
{
    let ghost grid = *nav_grid;
    let ghost gs = *game_state;
    let ghost si = start_index as int;
    let ghost ei = end_index as int;
    let ghost cap = frontier.weight_cap();
    let size = cache.len();
    cache.new_generation();
    cache.set(start_index as usize, DijkstraCacheState { cost: 0, prev: u32::MAX, edge: None });
    frontier.offer(0, start_index);
    let ghost base = SearchState {
        queue: seq![(0u32, start_index)],
        cache: Seq::new(grid.size() as nat, |k: int| vacant()).update(
            si,
            DijkstraCacheState { cost: 0, prev: u32::MAX, edge: None },
        ),
        outcome: None,
    };
    proof {
        assert(frontier.entries() =~= base.queue);
        assert(cache@ =~= base.cache);
    }
    let tn = nav_grid.teleports.len();
    let mut j: usize = 0;
    while j < tn
        invariant
            grid == *nav_grid,
            gs == *game_state,
            grid.wf(),
            size == grid.size(),
            weights_ok(grid, cap),
            0 <= j <= tn,
            tn == grid.teleports@.len(),
            frontier.inv(),
            frontier.weight_cap() == cap,
            forall|c: int| 0 <= c <= cap ==> frontier.valid_offer(c),
            cache.wf(),
            cache@.len() == size,
            cache.spec_default() == vacant(),
            cache_refs_ok(grid, cache@),
            forall|k: int|
                0 <= k < frontier.entries().len()
                ==> ((#[trigger] frontier.entries()[k]).1 as int) < size,
            seed_teleports(grid, gs, 0, base) == seed_teleports(
                grid,
                gs,
                j as int,
                (SearchState { queue: frontier.entries(), cache: cache@, outcome: None }),
            ),
        decreases tn - j,
    {
        let ghost scur = SearchState { queue: frontier.entries(), cache: cache@, outcome: None };
        let met = crate::grid::all_met(&nav_grid.teleports[j].requirements, game_state);
        if met {
            proof {
                assert(grid.edge_ok(grid.teleports@[j as int]));
                crate::grid::lemma_coord_in_range(grid.teleports@[j as int].destination, grid);
            }
            let dest = nav_grid.teleports[j].destination.index(nav_grid.width, nav_grid.height);
            let tc = nav_grid.teleports[j].cost;
            let entry = cache.get(dest as usize);
            if tc < entry.cost {
                cache.set(
                    dest as usize,
                    DijkstraCacheState {
                        cost: tc,
                        prev: u32::MAX,
                        edge: Some(EdgeRef::Teleport(j as u32)),
                    },
                );
                frontier.offer(tc, dest);
            }
        }
        proof {
            let snext = SearchState { queue: frontier.entries(), cache: cache@, outcome: None };
            assert(seed_teleports(grid, gs, j as int, scur) == seed_teleports(
                grid,
                gs,
                j as int + 1,
                snext,
            ));
        }
        j = j + 1;
    }
    let ghost init = init_state(grid, gs, si);
    let ghost mut n: nat = 0;
    proof {
        assert(init == SearchState { queue: frontier.entries(), cache: cache@, outcome: None });
    }
    loop
        invariant
            grid == *nav_grid,
            gs == *game_state,
            grid.wf(),
            size == grid.size(),
            weights_ok(grid, cap),
            si == start_index as int,
            ei == end_index as int,
            ei < size,
            frontier.inv(),
            frontier.weight_cap() == cap,
            cap == old(frontier).weight_cap(),
            size == old(cache)@.len(),
            old(cache).spec_default() == vacant(),
            cache.wf(),
            cache@.len() == size,
            cache.spec_default() == vacant(),
            cache_refs_ok(grid, cache@),
            forall|k: int|
                0 <= k < frontier.entries().len()
                ==> ((#[trigger] frontier.entries()[k]).1 as int) < size,
            init == init_state(grid, gs, si),
            sim_run(grid, gs, ei, init, n) == (SearchState {
                queue: frontier.entries(),
                cache: cache@,
                outcome: None,
            }),
        decreases 2 * sum_costs(cache@) + frontier.entries().len(),
    {
        let ghost cur = SearchState { queue: frontier.entries(), cache: cache@, outcome: None };
        let ghost m_head = 2 * sum_costs(cache@) + frontier.entries().len();
        let popped = frontier.take_minimum();
        match popped {
            None => {
                proof {
                    assert(sim_step(grid, gs, ei, cur) == SearchState {
                        queue: cur.queue,
                        cache: cur.cache,
                        outcome: Some(None),
                    });
                    lemma_run_snoc(grid, gs, ei, init, n);
                    assert(sim_done(grid, gs, si, ei, n + 1));
                    assert(sim_result(grid, gs, si, ei, n + 1) == None::<Seq<Step>>);
                }
                return None;
            },
            Some((c, i)) => {
                proof {
                    lemma_first_min_index(cur.queue);
                }
                let ghost s1 = SearchState {
                    queue: frontier.entries(),
                    cache: cache@,
                    outcome: None,
                };
                let entry = cache.get(i as usize);
                if entry.cost < c {
                    proof {
                        assert(sim_step(grid, gs, ei, cur) == s1);
                        lemma_run_snoc(grid, gs, ei, init, n);
                        n = n + 1;
                    }
                } else if i == end_index {
                    let route = reconstruct_exec(nav_grid, cache, end_index);
                    proof {
                        assert(sim_step(grid, gs, ei, cur) == SearchState {
                            queue: s1.queue,
                            cache: s1.cache,
                            outcome: Some(
                                reconstruct(grid, s1.cache, ei, (s1.cache.len() + 1) as nat),
                            ),
                        });
                        lemma_run_snoc(grid, gs, ei, init, n);
                        assert(sim_done(grid, gs, si, ei, n + 1));
                        assert(sim_result(grid, gs, si, ei, n + 1) == route_view(route));
                    }
                    return route;
                } else {
                    let v = nav_grid.vertices[i as usize];
                    let ghost m0 = 2 * sum_costs(cache@) + frontier.entries().len();
                    let mut d: u8 = 0;
                    while d < 8
                        invariant
                            grid == *nav_grid,
                            gs == *game_state,
                            grid.wf(),
                            size == grid.size(),
                            weights_ok(grid, cap),
                            0 <= d <= 8,
                            (i as int) < size,
                            v == grid.vertices@[i as int],
                            c as int + cap <= u32::MAX as int + cap,
                            frontier.inv(),
                            frontier.weight_cap() == cap,
                            forall|cc: int| c as int <= cc <= c as int + cap ==> frontier.valid_offer(cc),
                            cache.wf(),
                            cache@.len() == size,
                            cache.spec_default() == vacant(),
                            cache_refs_ok(grid, cache@),
                            forall|k: int|
                                0 <= k < frontier.entries().len()
                                ==> ((#[trigger] frontier.entries()[k]).1 as int) < size,
                            relax_dirs(grid, i as int, c, 0, s1) == relax_dirs(
                                grid,
                                i as int,
                                c,
                                d as int,
                                (SearchState {
                                    queue: frontier.entries(),
                                    cache: cache@,
                                    outcome: None,
                                }),
                            ),
                            2 * sum_costs(cache@) + frontier.entries().len() <= m0,
                        decreases 8 - d,
                    {
                        let ghost scur = SearchState {
                            queue: frontier.entries(),
                            cache: cache@,
                            outcome: None,
                        };
                        if v.permits(d) {
                            let adj = nav_grid.neighbor(i, d);
                            let a = cache.get(adj as usize);
                            let c64 = c as u64 + 1u64;
                            if c64 < a.cost as u64 {
                                let newc = c64 as u32;
                                cache.set(
                                    adj as usize,
                                    DijkstraCacheState { cost: newc, prev: i, edge: None },
                                );
                                frontier.offer(newc, adj);
                                proof {
                                    lemma_sum_costs_update(
                                        scur.cache,
                                        adj as int,
                                        DijkstraCacheState { cost: newc, prev: i, edge: None },
                                    );
                                }
                            }
                            proof {
                                assert(relax(scur, c as int, grid.nbr(i as int, d as int), 1, i, None)
                                    == (SearchState {
                                    queue: frontier.entries(),
                                    cache: cache@,
                                    outcome: None,
                                }));
                            }
                        }
                        d = d + 1;
                    }
                    if v.has_extra_edges() {
                        let ghost s2 = SearchState {
                            queue: frontier.entries(),
                            cache: cache@,
                            outcome: None,
                        };
                        let elen = nav_grid.edges[i as usize].len();
                        let mut k: usize = 0;
                        while k < elen
                            invariant
                                grid == *nav_grid,
                                gs == *game_state,
                                grid.wf(),
                                size == grid.size(),
                                weights_ok(grid, cap),
                                (i as int) < size,
                                elen == grid.edges@[i as int]@.len(),
                                0 <= k <= elen,
                                frontier.inv(),
                                frontier.weight_cap() == cap,
                                forall|cc: int|
                                    c as int <= cc <= c as int + cap ==> frontier.valid_offer(cc),
                                cache.wf(),
                                cache@.len() == size,
                                cache.spec_default() == vacant(),
                                cache_refs_ok(grid, cache@),
                                forall|kk: int|
                                    0 <= kk < frontier.entries().len()
                                    ==> ((#[trigger] frontier.entries()[kk]).1 as int) < size,
                                relax_edges(grid, gs, i as int, c, 0, s2) == relax_edges(
                                    grid,
                                    gs,
                                    i as int,
                                    c,
                                    k as int,
                                    (SearchState {
                                        queue: frontier.entries(),
                                        cache: cache@,
                                        outcome: None,
                                    }),
                                ),
                                2 * sum_costs(cache@) + frontier.entries().len() <= m0,
                            decreases elen - k,
                        {
                            let ghost scur = SearchState {
                                queue: frontier.entries(),
                                cache: cache@,
                                outcome: None,
                            };
                            let met = crate::grid::all_met(
                                &nav_grid.edges[i as usize][k].requirements,
                                game_state,
                            );
                            if met {
                                proof {
                                    assert(grid.edge_ok(grid.edges@[i as int]@[k as int]));
                                    crate::grid::lemma_coord_in_range(
                                        grid.edges@[i as int]@[k as int].destination,
                                        grid,
                                    );
                                }
                                let dest = nav_grid.edges[i as usize][k].destination.index(
                                    nav_grid.width,
                                    nav_grid.height,
                                );
                                let w = nav_grid.edges[i as usize][k].cost;
                                let a = cache.get(dest as usize);
                                let c64 = c as u64 + w as u64;
                                if c64 < a.cost as u64 {
                                    let newc = c64 as u32;
                                    let nv = DijkstraCacheState {
                                        cost: newc,
                                        prev: i,
                                        edge: Some(EdgeRef::Extra(i, k as u32)),
                                    };
                                    cache.set(dest as usize, nv);
                                    frontier.offer(newc, dest);
                                    proof {
                                        lemma_sum_costs_update(scur.cache, dest as int, nv);
                                    }
                                }
                            }
                            proof {
                                let snext = SearchState {
                                    queue: frontier.entries(),
                                    cache: cache@,
                                    outcome: None,
                                };
                                assert(relax_edges(grid, gs, i as int, c, k as int, scur)
                                    == relax_edges(grid, gs, i as int, c, k as int + 1, snext));
                            }
                            k = k + 1;
                        }
                    }
                    proof {
                        let snext = SearchState {
                            queue: frontier.entries(),
                            cache: cache@,
                            outcome: None,
                        };
                        assert(sim_step(grid, gs, ei, cur) == snext);
                        lemma_run_snoc(grid, gs, ei, init, n);
                        n = n + 1;
                    }
                }
            },
        }
    }
}


/// What both search entry points promise: absence when the connectivity
/// groups differ (the fast reject), and otherwise exactly the route the
/// search simulation produces, which both frontier strategies share.
pub open spec fn search_post(
    grid: NavGrid,
    gs: GameState,
    start: Coordinate,
    end: Coordinate,
    r: Option<Vec<Step>>,
) -> bool {
    let si = start.lin(grid.width);
    let ei = end.lin(grid.width);
    &&& (grid.vertices@[si].group() != grid.vertices@[ei].group() ==> r is None)
    &&& (grid.vertices@[si].group() == grid.vertices@[ei].group() ==> exists|n: nat|
        #[trigger] sim_done(grid, gs, si, ei, n) && sim_result(grid, gs, si, ei, n)
            == route_view(r))
}

/// Shortest route from `start` to `end` under `game_state`, using the
/// comparison-based frontier: `None` when the connectivity groups differ or
/// the frontier empties, otherwise the ordered steps of the route. The
/// result is exactly what the search simulation produces, so it agrees with
/// `dijkstra2` on every query.
pub fn dijkstra(
    nav_grid: &NavGrid,
    start: &Coordinate,
    end: &Coordinate,
    game_state: &GameState,
) -> (r: Option<Vec<Step>>)
    requires
        nav_grid.wf(),
        start.in_bounds(nav_grid.width, nav_grid.height),
        end.in_bounds(nav_grid.width, nav_grid.height),
    ensures
        search_post(*nav_grid, *game_state, *start, *end, r),
{
    proof {
        crate::grid::lemma_coord_in_range(*start, *nav_grid);
        crate::grid::lemma_coord_in_range(*end, *nav_grid);
    }
    let start_index = start.index(nav_grid.width, nav_grid.height);
    let end_index = end.index(nav_grid.width, nav_grid.height);
    if nav_grid.vertices[start_index as usize].get_group()
        != nav_grid.vertices[end_index as usize].get_group() {
        return None;
    }
    let size = nav_grid.vertices.len();
    let mut frontier = ComparisonFrontier::new();
    let mut cache: RegionCache<DijkstraCacheState> = RegionCache::new(vacant_entry(), size);
    search_core(nav_grid, start_index, end_index, game_state, &mut frontier, &mut cache)
}

/// Shortest route using a pooled bucket-ring frontier and scratch store:
/// the latency-critical path, with zero per-query allocation. The caller
/// supplies a ring whose bound covers every edge and teleport cost and a
/// scratch store sized to the grid; both come back ready for the next
/// query. Returns exactly what `dijkstra` returns for the same query.
pub fn dijkstra2(
    nav_grid: &NavGrid,
    start: &Coordinate,
    end: &Coordinate,
    game_state: &GameState,
    queue: &mut BucketRingBuffer,
    cache: &mut RegionCache<DijkstraCacheState>,
) -> (r: Option<Vec<Step>>)
    requires
        nav_grid.wf(),
        start.in_bounds(nav_grid.width, nav_grid.height),
        end.in_bounds(nav_grid.width, nav_grid.height),
        old(queue).inv(),
        old(queue).entries() == Seq::<(u32, u32)>::empty(),
        forall|c: int| 0 <= c <= old(queue).weight_cap() ==> old(queue).valid_offer(c),
        weights_ok(*nav_grid, old(queue).weight_cap()),
        old(cache).wf(),
        old(cache)@.len() == nav_grid.size(),
        old(cache).spec_default() == vacant(),
    ensures
        final(queue).inv(),
        final(queue).weight_cap() == old(queue).weight_cap(),
        final(cache).wf(),
        final(cache)@.len() == old(cache)@.len(),
        final(cache).spec_default() == old(cache).spec_default(),
        search_post(*nav_grid, *game_state, *start, *end, r),
{
    proof {
        crate::grid::lemma_coord_in_range(*start, *nav_grid);
        crate::grid::lemma_coord_in_range(*end, *nav_grid);
    }
    let start_index = start.index(nav_grid.width, nav_grid.height);
    let end_index = end.index(nav_grid.width, nav_grid.height);
    if nav_grid.vertices[start_index as usize].get_group()
        != nav_grid.vertices[end_index as usize].get_group() {
        return None;
    }
    search_core(nav_grid, start_index, end_index, game_state, queue, cache)
}

} // verus!
