//! The files that graphs are stored in.

pub mod checksum;
pub mod compressed_graph;
pub mod graph_file;
pub mod hetero_file;
pub mod names;
