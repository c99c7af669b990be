//! An undirected graph over named nodes, built line by line from
//! whitespace-separated words, with shortest-path queries answered by
//! breadth-first search.
//!
//! [`store`] holds the graph and says what merging a line does to it,
//! [`paths`] says what a shortest path is and [`search`] finds one,
//! [`words`] splits lines into words, [`text`] reads and writes the lines of
//! a session, and [`laws`] collects what follows for every graph and query.

pub mod laws;
pub mod paths;
pub mod search;
pub mod store;
pub mod text;
pub mod words;

pub use store::{Graph, NodeName};
