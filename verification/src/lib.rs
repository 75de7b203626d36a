//! A minimal directed-graph library: an adjacency-list container for a fixed
//! node set and edge set, lazy cursors over nodes and edges, and a verified
//! decision procedure for the existence of a directed cycle.

pub mod adj_list;
pub mod graph;
