//! Checks whether commutative diagrams commute.
//!
//! A diagram is a directed graph whose nodes are sets of values and whose
//! edges are functions between them. `graph` enumerates every path of a
//! directed graph; `diagram` replays generating elements along every pair of
//! paths that share their endpoints and compares the results.

pub mod diagram;
pub mod element;
pub mod graph;
