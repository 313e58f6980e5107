use pathfinder::BucketRingBuffer;
use pathfinder::CollectingVisitor;
use pathfinder::ComparisonFrontier;
use pathfinder::Coordinate;
use pathfinder::DataSelection;
use pathfinder::Edge;
use pathfinder::EdgeDefinition;
use pathfinder::Frontier;
use pathfinder::GameState;
use pathfinder::HaltingVisitor;
use pathfinder::NavGrid;
use pathfinder::RegionCache;
use pathfinder::Requirement;
use pathfinder::Step;
use pathfinder::Vertex;
use pathfinder::dijkstra;
use pathfinder::dijkstra2;
use pathfinder::flood;
use pathfinder::handle_select_request;
use pathfinder::search::vacant_entry;
use pathfinder::search::DijkstraCacheState;

/// A grid where every cell permits the four in-bounds axis directions
/// (bit 0 = west, 1 = east, 2 = south, 3 = north), no diagonals, no extra
/// edges, every cell in group 0.
fn open_grid(width: u32, height: u32) -> NavGrid {
    let size = (width * height) as usize;
    let mut vertices = Vec::with_capacity(size);
    for y in 0..height {
        for x in 0..width {
            let mut flags: u8 = 0;
            if x > 0 {
                flags |= 1 << 0;
            }
            if x + 1 < width {
                flags |= 1 << 1;
            }
            if y > 0 {
                flags |= 1 << 2;
            }
            if y + 1 < height {
                flags |= 1 << 3;
            }
            vertices.push(Vertex { flags, extra_edges_and_group: 0 });
        }
    }
    let edges: Vec<Vec<Edge>> = (0..size).map(|_| Vec::new()).collect();
    NavGrid { width, height, vertices, edges, teleports: Vec::new() }
}

fn state_with(facts: Vec<u64>) -> GameState {
    GameState { facts }
}

#[test]
fn open_grid_corner_to_corner_costs_six() {
    let grid = open_grid(4, 4);
    let start = Coordinate { x: 0, y: 0 };
    let end = Coordinate { x: 3, y: 3 };
    let route = dijkstra(&grid, &start, &end, &state_with(vec![])).expect("route");
    assert_eq!(route.len(), 6);
    for step in &route {
        assert!(matches!(step, Step::Step(_)));
    }
    assert_eq!(*route.last().unwrap(), Step::Step(end));
}

#[test]
fn open_grid_start_equals_end_costs_zero() {
    let grid = open_grid(4, 4);
    let c = Coordinate { x: 0, y: 0 };
    let route = dijkstra(&grid, &c, &c, &state_with(vec![])).expect("route");
    assert_eq!(route.len(), 0);
}

#[test]
fn different_groups_reject_without_search() {
    let mut grid = open_grid(2, 1);
    // Separate the two cells: no movement, different group ids.
    grid.vertices[0] = Vertex { flags: 0, extra_edges_and_group: 0 };
    grid.vertices[1] = Vertex { flags: 0, extra_edges_and_group: 1 };
    let r = dijkstra(
        &grid,
        &Coordinate { x: 0, y: 0 },
        &Coordinate { x: 1, y: 0 },
        &state_with(vec![]),
    );
    assert!(r.is_none());
}

/// Two open halves joined only by one requirement-gated edge.
fn gated_grid() -> NavGrid {
    let mut grid = open_grid(2, 1);
    grid.vertices[0] = Vertex { flags: 0, extra_edges_and_group: 0x80 };
    grid.vertices[1] = Vertex { flags: 0, extra_edges_and_group: 0 };
    grid.edges[0].push(Edge {
        destination: Coordinate { x: 1, y: 0 },
        cost: 5,
        requirements: vec![Requirement { key: 42 }],
        definition: EdgeDefinition { id: 7 },
    });
    grid
}

#[test]
fn gated_edge_absent_without_requirement() {
    let grid = gated_grid();
    let r = dijkstra(
        &grid,
        &Coordinate { x: 0, y: 0 },
        &Coordinate { x: 1, y: 0 },
        &state_with(vec![]),
    );
    assert!(r.is_none());
}

#[test]
fn gated_edge_route_carries_its_definition() {
    let grid = gated_grid();
    let route = dijkstra(
        &grid,
        &Coordinate { x: 0, y: 0 },
        &Coordinate { x: 1, y: 0 },
        &state_with(vec![42]),
    )
    .expect("route");
    assert_eq!(route, vec![Step::Edge(EdgeDefinition { id: 7 })]);
}

#[test]
fn teleport_beats_walking_when_cheaper() {
    let mut grid = open_grid(4, 4);
    grid.teleports.push(Edge {
        destination: Coordinate { x: 3, y: 3 },
        cost: 2,
        requirements: vec![],
        definition: EdgeDefinition { id: 99 },
    });
    let route = dijkstra(
        &grid,
        &Coordinate { x: 0, y: 0 },
        &Coordinate { x: 3, y: 3 },
        &state_with(vec![]),
    )
    .expect("route");
    assert_eq!(route, vec![Step::Edge(EdgeDefinition { id: 99 })]);
}

#[test]
fn expensive_teleport_is_ignored() {
    let mut grid = open_grid(4, 4);
    grid.teleports.push(Edge {
        destination: Coordinate { x: 3, y: 3 },
        cost: 10,
        requirements: vec![],
        definition: EdgeDefinition { id: 99 },
    });
    let route = dijkstra(
        &grid,
        &Coordinate { x: 0, y: 0 },
        &Coordinate { x: 3, y: 3 },
        &state_with(vec![]),
    )
    .expect("route");
    assert_eq!(route.len(), 6);
    for step in &route {
        assert!(matches!(step, Step::Step(_)));
    }
}

#[test]
fn both_strategies_agree_on_route_and_cost() {
    let mut grid = open_grid(4, 4);
    grid.vertices[5].extra_edges_and_group |= 0x80;
    grid.edges[5].push(Edge {
        destination: Coordinate { x: 3, y: 3 },
        cost: 3,
        requirements: vec![Requirement { key: 1 }],
        definition: EdgeDefinition { id: 11 },
    });
    grid.teleports.push(Edge {
        destination: Coordinate { x: 2, y: 2 },
        cost: 4,
        requirements: vec![],
        definition: EdgeDefinition { id: 12 },
    });
    let gs = state_with(vec![1]);
    let start = Coordinate { x: 0, y: 0 };
    let end = Coordinate { x: 3, y: 3 };
    let r1 = dijkstra(&grid, &start, &end, &gs);
    let size = (grid.width * grid.height) as usize;
    let mut queue = BucketRingBuffer::new(4);
    let mut cache: RegionCache<DijkstraCacheState> = RegionCache::new(vacant_entry(), size);
    let r2 = dijkstra2(&grid, &start, &end, &gs, &mut queue, &mut cache);
    assert_eq!(r1, r2);
    // Reuse the pooled pair for a second query after a reset.
    queue.reset();
    let r3 = dijkstra2(&grid, &start, &start, &gs, &mut queue, &mut cache);
    assert_eq!(r3, Some(vec![]));
}

#[test]
fn shortcut_edge_is_taken_when_met() {
    // Minimum cost: 2 moves to cell (1,1), then the shortcut of cost 2.
    let mut grid = open_grid(4, 4);
    grid.vertices[5].extra_edges_and_group |= 0x80;
    grid.edges[5].push(Edge {
        destination: Coordinate { x: 3, y: 3 },
        cost: 2,
        requirements: vec![Requirement { key: 8 }],
        definition: EdgeDefinition { id: 21 },
    });
    let route = dijkstra(
        &grid,
        &Coordinate { x: 0, y: 0 },
        &Coordinate { x: 3, y: 3 },
        &state_with(vec![8]),
    )
    .expect("route");
    // Two movement steps then the edge: total cost 2 * 1 + 2 = 4 < 6.
    assert_eq!(route.len(), 3);
    assert_eq!(*route.last().unwrap(), Step::Edge(EdgeDefinition { id: 21 }));
    let moves = route.iter().filter(|s| matches!(s, Step::Step(_))).count();
    assert_eq!(moves, 2);
}

#[test]
fn comparison_frontier_pops_cheapest_first_inserted() {
    let mut f = ComparisonFrontier::new();
    f.offer(5, 100);
    f.offer(3, 200);
    f.offer(3, 300);
    f.offer(7, 400);
    assert_eq!(f.take_minimum(), Some((3, 200)));
    assert_eq!(f.take_minimum(), Some((3, 300)));
    assert_eq!(f.take_minimum(), Some((5, 100)));
    assert_eq!(f.take_minimum(), Some((7, 400)));
    assert_eq!(f.take_minimum(), None);
}

#[test]
fn bucket_ring_pops_cheapest_first_inserted() {
    let mut f = BucketRingBuffer::new(7);
    f.offer(5, 100);
    f.offer(3, 200);
    f.offer(3, 300);
    f.offer(7, 400);
    assert_eq!(f.take_minimum(), Some((3, 200)));
    assert_eq!(f.take_minimum(), Some((3, 300)));
    f.offer(6, 500);
    assert_eq!(f.take_minimum(), Some((5, 100)));
    assert_eq!(f.take_minimum(), Some((6, 500)));
    assert_eq!(f.take_minimum(), Some((7, 400)));
    assert_eq!(f.take_minimum(), None);
}

#[test]
fn bucket_ring_reset_empties_and_reuses_storage() {
    let mut f = BucketRingBuffer::new(3);
    f.offer(1, 10);
    f.offer(2, 20);
    f.reset();
    assert_eq!(f.take_minimum(), None);
    f.offer(0, 30);
    assert_eq!(f.take_minimum(), Some((0, 30)));
}

#[test]
fn scratch_store_reads_default_after_new_generation() {
    let mut cache: RegionCache<u32> = RegionCache::new(0, 10);
    cache.set(3, 7);
    cache.set(9, 5);
    assert_eq!(cache.get(3), 7);
    assert_eq!(cache.get(9), 5);
    assert_eq!(cache.get(4), 0);
    cache.new_generation();
    assert_eq!(cache.get(3), 0);
    assert_eq!(cache.get(9), 0);
    cache.set(3, 2);
    assert_eq!(cache.get(3), 2);
    assert_eq!(cache.len(), 10);
}

#[test]
fn flood_visits_every_reachable_cell_once() {
    let grid = open_grid(4, 4);
    let start = Coordinate { x: 1, y: 1 };
    let mut v1 = CollectingVisitor::new();
    flood(&grid, &start, &mut v1);
    assert_eq!(v1.cells.len(), 16);
    let mut sorted = v1.cells.clone();
    sorted.sort();
    sorted.dedup();
    assert_eq!(sorted.len(), 16);
    // A second traversal from the same start sees the same cells in the
    // same order.
    let mut v2 = CollectingVisitor::new();
    flood(&grid, &start, &mut v2);
    assert_eq!(v1.cells, v2.cells);
}

#[test]
fn flood_with_stopping_callback_sees_only_start() {
    let grid = open_grid(4, 4);
    let start = Coordinate { x: 1, y: 1 };
    let mut v = HaltingVisitor::new();
    flood(&grid, &start, &mut v);
    assert_eq!(v.cells, vec![5]);
}

#[test]
fn flood_crosses_edges_regardless_of_requirements() {
    let grid = gated_grid();
    let start = Coordinate { x: 0, y: 0 };
    let mut v = CollectingVisitor::new();
    flood(&grid, &start, &mut v);
    assert_eq!(v.cells, vec![0, 1]);
}

#[test]
fn coordinate_index_round_trip() {
    let c = Coordinate { x: 5, y: 2 };
    let i = c.index(8, 4);
    assert_eq!(i, 21);
    assert_eq!(Coordinate::from_index(i, 8), c);
}

#[test]
fn handle_select_request_returns_the_selection() {
    let sel = DataSelection {
        varps: vec![1, 2, 3],
        varbits: vec![9],
        items: vec![String::from("rope")],
        skills: vec![String::from("agility"), String::from("mining")],
    };
    let got = handle_select_request(&sel);
    assert_eq!(got.varps, sel.varps);
    assert_eq!(got.varbits, sel.varbits);
    assert_eq!(got.items, sel.items);
    assert_eq!(got.skills, sel.skills);
}
