//! A directed weighted graph engine for an interactive graph editor: node and
//! edge lifecycle, adjacency queries, shortest paths and greedy colouring,
//! and the editing actions (selection, copy, cut, paste, delete, link) that
//! an editor performs on it.
//!
//! - `weight`: the edge weight trait.
//! - `node`: node records.
//! - `entries`: maps kept as lists of key/value entries.
//! - `oriented`: the graph, its abstract state and its basic operations.
//! - `shortest`: cheapest walks (Dijkstra's search).
//! - `coloring`: greedy colouring along a visit order.
//! - `history`: laws about runs of operations.
//! - `editor`: the editing state and actions.

pub mod weight;
pub mod node;
pub mod entries;
pub mod oriented;
pub mod shortest;
pub mod coloring;
pub mod history;
pub mod editor;
