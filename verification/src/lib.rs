//! Maximum-cardinality matching in bipartite graphs by the Hopcroft–Karp
//! algorithm, verified with Verus.
//!
//! `BipartiteGraph` holds the graph and its matching; `hopcroft_karp` extends
//! the matching to a maximum one. Vertices of either side are numbered from
//! 1; the number 0 stands for "no vertex" wherever a partner is stored.
//!
//! Two small programs on top of plain values come with it: `pairing` pairs
//! numbers with a prime sum by way of a maximum matching, and `game` searches
//! the tree of a crossing game on a board of three by three cells.

pub mod matching;
pub mod graph;
pub mod layering;
pub mod augment;
pub mod cover;
pub mod driver;
pub mod pairing;
pub mod game;

pub use graph::BipartiteGraph;
