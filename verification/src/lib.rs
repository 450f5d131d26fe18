//! Enumeration, up to isomorphism, of finite simple graphs that avoid a
//! forbidden monochromatic clique pattern under the implicit two-colouring
//! of edges (present / absent).
//!
//! The crate is organised around a bit-packed graph type, clique queries
//! over an abstract graph capability, a vertex-labeling engine that hashes
//! structural data gathered per vertex, and a tier store that groups
//! labeled graphs by their sorted signature multiset and deduplicates
//! isomorphic representatives.

pub mod bitvec;
pub mod codec;
pub mod graph;
pub mod graph_vec;
pub mod graph_like;
pub mod labeling;
pub mod hashing;
pub mod sorting;
pub mod structures;
pub mod util;
