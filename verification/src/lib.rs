//! Shortest-route queries over a large game-world movement grid.
//!
//! The grid's traversability depends on runtime player state; besides plain
//! grid movement there are extra edges and teleports gated by requirements.
//! The crate provides the search itself (with two interchangeable frontier
//! strategies), a generation-tagged scratch store sized to the whole grid,
//! and a bounded breadth-first traversal for reachability computation.

pub mod bucket_ring;
pub mod flood;
pub mod frontier;
pub mod grid;
pub mod scratch;
pub mod search;
pub mod select;

pub use grid::Coordinate;
pub use grid::Edge;
pub use grid::EdgeDefinition;
pub use grid::GameState;
pub use grid::NavGrid;
pub use grid::Requirement;
pub use grid::Vertex;
pub use bucket_ring::BucketRingBuffer;
pub use flood::flood;
pub use flood::CollectingVisitor;
pub use flood::FloodVisitor;
pub use flood::HaltingVisitor;
pub use frontier::ComparisonFrontier;
pub use frontier::Frontier;
pub use scratch::RegionCache;
pub use search::dijkstra;
pub use search::dijkstra2;
pub use search::DijkstraCacheState;
pub use search::Step;
pub use select::handle_select_request;
pub use select::DataSelection;
