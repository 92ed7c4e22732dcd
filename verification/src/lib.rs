//! Decomposition of the complete graph into patches of triangular mesh.
//!
//! A patch is a mesh in which every node has up to six neighbours, one in
//! each direction of the triangular lattice, and every face is a triangle.
//! `greedy::solve_greedy` splits the edges of the complete graph on a
//! given number of nodes into such patches: every edge is a link of
//! exactly one of them.
//!
//! The mesh itself is `lattice::Lattice`; `mesh` holds its mathematical
//! model, `ring` and `laws` what is proved of it, `picture` what its
//! picture in text is. The graph whose edges are consumed is
//! `graph::Graph`, built on the bit sets of `fixedbitset`.

pub mod bitset;
pub mod decomposition;
pub mod direction;
pub mod graph;
pub mod greedy;
pub mod lattice;
pub mod laws;
pub mod mesh;
pub mod neighbor;
pub mod picture;
pub mod render;
pub mod ring;
pub mod slots;
