# hccr_verified

Finite posets and lattices, transfer and cotransfer systems on them, their
equivariant versions under a group of lattice automorphisms, model
structures, and TikZ drawings of all of these. The library in `src/` is
written in Verus: every function carries a contract over a mathematical
model (relations as sets of edges, orders as boolean matrices, systems as
closed selections of relations or of orbits), and the laws that tie the
operations together are stated and proved as proof functions.

Layout:

- `src/poset.rs`, `src/lattice.rs`, `src/morphism.rs`,
  `src/lattice_constructions.rs`: orders, lattices, maps between them and
  constructions of new lattices.
- `src/transfer_lattice.rs`, `src/cotransfer_lattice.rs`,
  `src/model_structure.rs`, `src/transfer_morphism.rs`: transfer and
  cotransfer systems, their lattices, lifting classes and model structures.
  Formal concept analysis is done by the `fcars` crate, behind wrappers in
  `src/concepts.rs`.
- `src/g_lattice.rs`, `src/g_cotransfer_lattice.rs`, `src/orbit_theory.rs`,
  `src/permutation_action.rs`: group actions given by generator images, the
  orbits of relations, and G-transfer and G-cotransfer systems. A
  G-cotransfer system is kept as the same selection of orbits as the
  G-transfer system of the opposite lattice that reverses it.
- `src/cong_lattice.rs`: congruence posets and lattices.
- `src/tikz/`: the integer decisions behind the drawings (levels, layer
  orders, crossing counts, edge plans, TikZ syntax).
- `src/messages.rs`: the messages of the error types.
- `app/`: what stays outside the verified library: coordinates and
  barycenter sweeps in floating point, and the assembly of TikZ pictures.

Not provided: the group-theoretic parts that need a GAP installation
(groups given as GAP objects, subgroup lattices, transporters). The
G-cotransfer universe keeps the formal context of its orbits, but runs its
closures and its enumeration in the opposite G-transfer universe.
