//! Finite order-theoretic calculations for homotopical combinatorics:
//! finite posets and lattices, monotone maps, transfer systems, transfer
//! systems invariant under a finite group acting by lattice automorphisms,
//! and the TikZ syntax used to draw them.

pub mod bits;
pub mod edges;
pub mod order;
pub mod poset;
pub mod shared;
pub mod lattice;
pub mod morphism;
pub mod constructions;
pub mod lattice_constructions;
pub mod transfer_theory;
pub mod concepts;
pub mod transfer_lattice;
pub mod composition_order;
pub mod tikz;
pub mod transfer_morphism;
pub mod cong_lattice;
pub mod cotransfer_lattice;
pub mod model_structure;
pub mod group_notation;
pub mod permutation_action;
pub mod orbit_theory;
pub mod g_lattice;
pub mod g_cotransfer_lattice;
pub mod messages;
