//! Finite groups acting on finite lattices, and the transfer systems that
//! such an action leaves invariant.
//!
//! A group is presented by one permutation of the lattice elements for each
//! of its generators; every generator must act by a lattice automorphism.
//! The action is carried over to all relations `x <= y` of the lattice, and
//! the relations are grouped into orbits.  A G-transfer system is a transfer
//! system made of whole orbits; it is stored as one bit per orbit of proper
//! relations.

use crate::bits::{max_bits, Bits};
use crate::edges::{Edge, EdgeSet};
use crate::lattice::{Lattice, LatticeError};
use crate::morphism::{lattice_map_error, LatticeMap, LatticeMapError};
use crate::orbit_theory::{
    acts_by_automorphisms, edge_image, is_automorphism, is_relation_list, lemma_layers_nonempty, orbit_setting,
    relation_action, relation_actions,
};
use crate::permutation_action::{
    generators_within, is_permutation, orbit_points, permutation_error, point_orbit_ids, validate_permutation,
    GroupTheoryError,
};
use crate::poset::{ElementId, PosetError};
use crate::tikz::layered::{increasing_layers, layer_count_of, layers_partition, seqs_of};
use crate::concepts::{
    context_attribute_count, context_attributes, context_incidence, context_objects, formal_context_concept_extents, formal_context_induce_l, formal_context_induce_r,
};
use crate::orbit_theory::{lemma_orbit_closed_iff, lemma_orbit_closure_least, orbit_context, orbit_family, system_of_orbits, uniform_family};
use crate::orbit_theory::{all_lift_into, in_family, is_proper, lifts_into_all, uniform_pair};
use crate::cotransfer_lattice::reversed;
use crate::transfer_lattice::{generator_ok, TransferUniverse};
use crate::bits::subset_bits;
use crate::transfer_theory::{
    closure_of, is_closed, is_transfer_system, join_bits, lemma_closed_sets_lattice, lists_closed_sets, meet_bits,
};
use fcars::FormalContext;
use std::sync::Arc;
use vstd::prelude::*;

verus! {

/// Errors that can occur while constructing a G-lattice.
#[derive(Debug, Clone, Copy, PartialEq, Eq, Structural)]
pub enum GLatticeError {
    /// Construction of an underlying poset failed.
    Poset(PosetError),
    /// Construction of an underlying lattice failed.
    Lattice(LatticeError),
    /// A generator image has the wrong degree.
    WrongPermutationLength {
        /// The zero-based index of the generator.
        generator: usize,
        /// The required permutation length.
        expected: usize,
        /// The supplied permutation length.
        actual: usize,
    },
    /// A generator image sends an element outside the lattice.
    PermutationImageOutOfBounds {
        /// The zero-based index of the generator.
        generator: usize,
        /// The source element.
        element: ElementId,
        /// The invalid target element.
        image: ElementId,
        /// The number of lattice elements.
        len: usize,
    },
    /// A generator image is not injective.
    DuplicatePermutationImage {
        /// The zero-based index of the generator.
        generator: usize,
        /// The first source element with this image.
        first_element: ElementId,
        /// The second source element with this image.
        second_element: ElementId,
        /// The repeated target element.
        image: ElementId,
    },
    /// A generator image is a permutation but not a lattice automorphism.
    NotALatticeAutomorphism {
        /// The zero-based index of the generator.
        generator: usize,
        /// The lattice-map validation error.
        source: LatticeMapError,
    },
}

/// `e` reports why `image`, the image list of generator `generator`, is not
/// an automorphism of `l`: the first place where it fails to be a
/// permutation, or else the first failure of the lattice-map conditions.
pub open spec fn automorphism_error<A>(l: Lattice<A>, generator: usize, image: Seq<usize>, e: GLatticeError) -> bool {
    let n = l.card() as usize;
    match e {
        GLatticeError::WrongPermutationLength { generator: g, expected, actual } => permutation_error(
            generator,
            n,
            image,
            GroupTheoryError::WrongPermutationLength { generator: g, expected, actual },
        ),
        GLatticeError::PermutationImageOutOfBounds { generator: g, element, image: target, len } => permutation_error(
            generator,
            n,
            image,
            GroupTheoryError::PermutationImageOutOfBounds { generator: g, element, image: target, len },
        ),
        GLatticeError::DuplicatePermutationImage { generator: g, first_element, second_element, image: target } =>
            permutation_error(
            generator,
            n,
            image,
            GroupTheoryError::DuplicatePermutationImage { generator: g, first_element, second_element, image: target },
        ),
        GLatticeError::NotALatticeAutomorphism { generator: g, source } => {
            &&& g == generator
            &&& is_permutation(image, l.card() as int)
            &&& lattice_map_error(l, l, image, source)
        },
        _ => false,
    }
}

/// Checks that `image` is a permutation of the lattice elements that
/// preserves the lattice structure.
fn validate_lattice_automorphism<A>(generator: usize, lattice: &Arc<Lattice<A>>, image: &[ElementId]) -> (r: Result<(), GLatticeError>)
    requires
        lattice.wf(),
    ensures
        match r {
            Ok(()) => is_automorphism(**lattice, image@),
            Err(e) => automorphism_error(**lattice, generator, image@, e),
        },
{
    match validate_permutation(generator, lattice.size(), image) {
        Ok(()) => {},
        Err(GroupTheoryError::WrongPermutationLength { generator, expected, actual }) => {
            return Err(GLatticeError::WrongPermutationLength { generator, expected, actual });
        },
        Err(GroupTheoryError::PermutationImageOutOfBounds { generator, element, image, len }) => {
            return Err(GLatticeError::PermutationImageOutOfBounds { generator, element, image, len });
        },
        Err(GroupTheoryError::DuplicatePermutationImage { generator, first_element, second_element, image }) => {
            return Err(GLatticeError::DuplicatePermutationImage { generator, first_element, second_element, image });
        },
        Err(_) => {
            return vstd::pervasive::unreached();
        },
    }
    match LatticeMap::new(crate::shared::arc_clone(lattice), crate::shared::arc_clone(lattice), crate::lattice_constructions::copy_ids(image)) {
        Ok(_) => Ok(()),
        Err(source) => Err(GLatticeError::NotALatticeAutomorphism { generator, source }),
    }
}

/// The rows of a table of optional relation ids.
pub open spec fn table_of(v: Seq<Vec<Option<usize>>>) -> Seq<Seq<Option<usize>>> {
    Seq::new(v.len(), |i: int| v[i]@)
}

/// `t[x][y]` is the position of `x <= y` in `r`, when it occurs there.
pub open spec fn ids_table(t: Seq<Seq<Option<usize>>>, r: Seq<Edge>, n: nat) -> bool {
    &&& t.len() == n
    &&& forall|x: int| 0 <= x < n ==> (#[trigger] t[x]).len() == n
    &&& forall|x: int, y: int|
        0 <= x < n && 0 <= y < n ==> match #[trigger] t[x][y] {
            Some(k) => k < r.len() && r[k as int] == Edge { from: x as usize, to: y as usize },
            None => !r.contains(Edge { from: x as usize, to: y as usize }),
        }
}

/// Looks up the position of a pair in a table of relation ids.
fn table_lookup(t: &Vec<Vec<Option<usize>>>, e: Edge) -> (r: Option<usize>)
    requires
        e.from < t@.len(),
        e.to < t@[e.from as int]@.len(),
    ensures
        r == t@[e.from as int]@[e.to as int],
{
    t[e.from][e.to]
}

/// The table giving the position of each relation of `relations`.
fn relation_id_matrix(len: usize, relations: &[Edge]) -> (r: Vec<Vec<Option<usize>>>)
    requires
        relations@.no_duplicates(),
        forall|k: int| 0 <= k < relations@.len() ==> (#[trigger] relations@[k]).from < len && relations@[k].to < len,
    ensures
        ids_table(table_of(r@), relations@, len as nat),
{
    let mut result: Vec<Vec<Option<usize>>> = Vec::new();
    let mut x: usize = 0;
    while x < len
        invariant
            relations@.no_duplicates(),
            forall|q: int| 0 <= q < relations@.len() ==> (#[trigger] relations@[q]).from < len && relations@[q].to < len,
            x <= len,
            result@.len() == x,
            forall|a: int| 0 <= a < x ==> (#[trigger] result@[a])@.len() == len,
            forall|a: int, y: int|
                0 <= a < x && 0 <= y < len ==> match #[trigger] result@[a]@[y] {
                    Some(k) => k < relations@.len() && relations@[k as int] == Edge { from: a as usize, to: y as usize },
                    None => !relations@.contains(Edge { from: a as usize, to: y as usize }),
                },
        decreases len - x,
    {
        let mut row: Vec<Option<usize>> = Vec::new();
        let mut y: usize = 0;
        while y < len
            invariant
                y <= len,
                row@.len() == y,
                forall|b: int| 0 <= b < y ==> #[trigger] row@[b] is None,
            decreases len - y,
        {
            row.push(None);
            y += 1;
        }
        let mut k: usize = 0;
        while k < relations.len()
            invariant
                relations@.no_duplicates(),
                forall|q: int| 0 <= q < relations@.len() ==> (#[trigger] relations@[q]).from < len && relations@[q].to < len,
                x < len,
                k <= relations@.len(),
                row@.len() == len,
                forall|b: int|
                    0 <= b < len ==> match #[trigger] row@[b] {
                        Some(q) => q < k && relations@[q as int] == Edge { from: x, to: b as usize },
                        None => forall|q: int| 0 <= q < k ==> relations@[q] != Edge { from: x, to: b as usize },
                    },
            decreases relations@.len() - k,
        {
            let e = relations[k];
            if e.from == x {
                row.set(e.to, Some(k));
            }
            k += 1;
        }
        proof {
            assert forall|b: int| 0 <= b < len implies match #[trigger] row@[b] {
                Some(q) => q < relations@.len() && relations@[q as int] == Edge { from: x, to: b as usize },
                None => !relations@.contains(Edge { from: x, to: b as usize }),
            } by {
                if row@[b] is None && relations@.contains(Edge { from: x, to: b as usize }) {
                    let q = choose|q: int| 0 <= q < relations@.len() && relations@[q] == Edge { from: x, to: b as usize };
                }
            }
        }
        result.push(row);
        x += 1;
    }
    proof {
        let t = table_of(result@);
        assert forall|a: int, y: int| 0 <= a < len && 0 <= y < len implies match #[trigger] t[a][y] {
            Some(k) => k < relations@.len() && relations@[k as int] == Edge { from: a as usize, to: y as usize },
            None => !relations@.contains(Edge { from: a as usize, to: y as usize }),
        } by {
            assert(t[a] == result@[a]@);
        }
    }
    result
}

/// The action of every generator on the relation ids.
fn relation_generator_permutations<A>(
    lattice: &Lattice<A>,
    relations: &Vec<Edge>,
    relation_ids: &Vec<Vec<Option<usize>>>,
    element_generator_permutations: &Vec<Vec<ElementId>>,
) -> (r: Vec<Vec<usize>>)
    requires
        lattice.wf(),
        is_relation_list(*lattice, relations@),
        ids_table(table_of(relation_ids@), relations@, lattice.card()),
        acts_by_automorphisms(*lattice, seqs_of(element_generator_permutations@)),
    ensures
        relation_actions(relations@, seqs_of(element_generator_permutations@), seqs_of(r@)),
{
    let ghost l = *lattice;
    let ghost gens = seqs_of(element_generator_permutations@);
    let ghost t = table_of(relation_ids@);
    let mut result: Vec<Vec<usize>> = Vec::new();
    let mut g: usize = 0;
    while g < element_generator_permutations.len()
        invariant
            l == *lattice,
            l.wf(),
            gens == seqs_of(element_generator_permutations@),
            t == table_of(relation_ids@),
            is_relation_list(l, relations@),
            ids_table(t, relations@, l.card()),
            acts_by_automorphisms(l, gens),
            g <= gens.len(),
            result@.len() == g,
            forall|h: int| 0 <= h < g ==> #[trigger] relation_action(relations@, gens[h], result@[h]@),
        decreases gens.len() - g,
    {
        let perm = &element_generator_permutations[g];
        assert(perm@ == gens[g as int]);
        assert(is_automorphism(l, gens[g as int]));
        let mut row: Vec<usize> = Vec::new();
        let mut k: usize = 0;
        while k < relations.len()
            invariant
                l == *lattice,
                l.wf(),
                t == table_of(relation_ids@),
                is_relation_list(l, relations@),
                ids_table(t, relations@, l.card()),
                is_automorphism(l, perm@),
                k <= relations@.len(),
                row@.len() == k,
                forall|q: int| 0 <= q < k ==> #[trigger] row@[q] < relations@.len() && relations@[row@[q] as int] == edge_image(perm@, relations@[q]),
            decreases relations@.len() - k,
        {
            let e = relations[k];
            assert(e.from < l.card() && e.to < l.card() && l.le(e.from as int, e.to as int));
            assert(crate::permutation_action::is_permutation(perm@, l.card() as int));
            assert(!crate::permutation_action::bad_at(perm@, l.card() as int, e.from as int));
            assert(!crate::permutation_action::bad_at(perm@, l.card() as int, e.to as int));
            let image = Edge::new(perm[e.from], perm[e.to]);
            proof {
                assert(l.le(image.from as int, image.to as int));
                assert(relations@.contains(image));
                assert(t[image.from as int] == relation_ids@[image.from as int]@);
            }
            match table_lookup(relation_ids, image) {
                Some(id) => {
                    row.push(id);
                },
                None => {
                    proof {
                        assert(t[image.from as int][image.to as int] is None);
                    }
                    return vstd::pervasive::unreached();
                },
            }
            k += 1;
        }
        result.push(row);
        g += 1;
    }
    proof {
        assert forall|h: int| 0 <= h < gens.len() implies #[trigger] relation_action(relations@, gens[h], seqs_of(result@)[h]) by {
            assert(seqs_of(result@)[h] == result@[h]@);
        }
    }
    result
}

/// A compact label for a relation orbit.
///
/// Labels are ordered by orbit id and remember the canonical representative,
/// so that output can refer back to an actual relation `x <= y` of the
/// underlying lattice.
#[derive(Debug, Clone, Copy, PartialEq, Eq, Structural, Hash, PartialOrd, Ord)]
pub struct RelationOrbitLabel {
    orbit_id: usize,
    canonical_relation_id: usize,
    canonical_representative: Edge,
}

impl RelationOrbitLabel {
    /// The orbit id.
    pub closed spec fn orbit_id_of(&self) -> usize {
        self.orbit_id
    }

    /// The id of the canonical representative.
    pub closed spec fn relation_id_of(&self) -> usize {
        self.canonical_relation_id
    }

    /// The canonical representative.
    pub closed spec fn representative_of(&self) -> Edge {
        self.canonical_representative
    }

    /// Constructs a relation-orbit label.
    pub fn new(orbit_id: usize, canonical_relation_id: usize, canonical_representative: Edge) -> (r: Self)
        ensures
            r.orbit_id_of() == orbit_id,
            r.relation_id_of() == canonical_relation_id,
            r.representative_of() == canonical_representative,
    {
        RelationOrbitLabel { orbit_id, canonical_relation_id, canonical_representative }
    }

    /// Returns the orbit id in the parent G-lattice.
    pub fn orbit_id(&self) -> (r: usize)
        ensures
            r == self.orbit_id_of(),
    {
        self.orbit_id
    }

    /// Returns the id of the canonical representative relation.
    pub fn canonical_relation_id(&self) -> (r: usize)
        ensures
            r == self.relation_id_of(),
    {
        self.canonical_relation_id
    }

    /// Returns the canonical representative relation.
    pub fn canonical_representative(&self) -> (r: Edge)
        ensures
            r == self.representative_of(),
    {
        self.canonical_representative
    }
}

/// One orbit of the group action on lattice relations.
///
/// Orbits include identity relations.  The canonical representative is the
/// relation with the smallest relation id in the orbit.
#[derive(Debug)]
pub struct RelationOrbit {
    canonical_relation_id: usize,
    canonical_representative: Edge,
    relation_ids: Vec<usize>,
    relations: Vec<Edge>,
}

impl RelationOrbit {
    /// The relation ids of the orbit, in increasing order.
    pub closed spec fn ids_of(&self) -> Seq<usize> {
        self.relation_ids@
    }

    /// The relations of the orbit, in relation-id order.
    pub closed spec fn relations_of(&self) -> Seq<Edge> {
        self.relations@
    }

    /// The id of the canonical representative.
    pub closed spec fn canonical_id_of(&self) -> usize {
        self.canonical_relation_id
    }

    /// The canonical representative.
    pub closed spec fn canonical_of(&self) -> Edge {
        self.canonical_representative
    }

    /// The record describes the ids `ids` of the relation list `r`: the
    /// relations are those ids looked up, and the canonical representative
    /// is the first of them.
    pub open spec fn describes(&self, r: Seq<Edge>, ids: Seq<usize>) -> bool {
        &&& ids.len() > 0
        &&& self.ids_of() == ids
        &&& self.relations_of() == ids.map_values(|k: usize| r[k as int])
        &&& self.canonical_id_of() == ids[0]
        &&& self.canonical_of() == r[ids[0] as int]
    }

    /// Returns the id of the canonical representative relation.
    pub fn canonical_relation_id(&self) -> (r: usize)
        ensures
            r == self.canonical_id_of(),
    {
        self.canonical_relation_id
    }

    /// Returns the canonical representative relation.
    pub fn canonical_representative(&self) -> (r: Edge)
        ensures
            r == self.canonical_of(),
    {
        self.canonical_representative
    }

    /// Returns the relation ids in this orbit.
    pub fn relation_ids(&self) -> (r: &[usize])
        ensures
            r@ == self.ids_of(),
    {
        &self.relation_ids
    }

    /// Returns the relations in this orbit.
    pub fn relations(&self) -> (r: &[Edge])
        ensures
            r@ == self.relations_of(),
    {
        &self.relations
    }
}

/// A finite lattice equipped with an action of a finite group.
///
/// The group is given by one permutation of the lattice elements for each
/// of its generators, each a lattice automorphism, so the action preserves
/// all order-theoretic structure.  The induced action on all relations of
/// the lattice is precomputed, together with the relation orbits.
#[derive(Debug)]
pub struct GLattice<A> {
    lattice: Arc<Lattice<A>>,
    element_generator_permutations: Vec<Vec<ElementId>>,
    relation_generator_permutations: Vec<Vec<usize>>,
    relations: Vec<Edge>,
    relation_ids: Vec<Vec<Option<usize>>>,
    relation_to_orbit: Vec<usize>,
    relation_orbits: Vec<RelationOrbit>,
}

impl<A> GLattice<A> {
    /// The underlying lattice.
    pub closed spec fn lattice_of(&self) -> Lattice<A> {
        *self.lattice
    }

    /// The generator permutations of the elements.
    pub closed spec fn generators_of(&self) -> Seq<Seq<usize>> {
        seqs_of(self.element_generator_permutations@)
    }

    /// All relations of the lattice, identities included, in row-major order.
    pub closed spec fn relations_of(&self) -> Seq<Edge> {
        self.relations@
    }

    /// The generator permutations of the relation ids.
    pub closed spec fn relation_generators_of(&self) -> Seq<Seq<usize>> {
        seqs_of(self.relation_generator_permutations@)
    }

    /// The orbit id of each relation.
    pub closed spec fn orbit_labels_of(&self) -> Seq<usize> {
        self.relation_to_orbit@
    }

    /// The orbit records.
    pub closed spec fn orbits_of(&self) -> Seq<RelationOrbit> {
        self.relation_orbits@
    }

    /// The relation ids of each orbit.
    pub open spec fn orbit_ids_of(&self) -> Seq<Seq<usize>> {
        Seq::new(self.orbits_of().len(), |c: int| self.orbits_of()[c].ids_of())
    }

    /// The position table of the relations.
    pub closed spec fn table_of(&self) -> Seq<Seq<Option<usize>>> {
        table_of(self.relation_ids@)
    }

    /// A well-formed G-lattice: the generators act by automorphisms, the
    /// relation generators are their actions on the relation ids, and the
    /// orbits are the classes of the orbit labelling, in order of their
    /// least relations.
    pub open spec fn wf(&self) -> bool {
        &&& self.lattice_of().card() * self.lattice_of().card() <= max_bits()
        &&& crate::order::row_major(self.relations_of())
        &&& orbit_setting(
            self.lattice_of(),
            self.generators_of(),
            self.relations_of(),
            self.relation_generators_of(),
            self.orbit_labels_of(),
        )
        &&& layers_partition(self.orbit_ids_of(), self.orbit_labels_of())
        &&& self.orbit_ids_of().len() == layer_count_of(self.orbit_labels_of())
        &&& increasing_layers(self.orbit_ids_of())
        &&& forall|c: int|
            0 <= c < self.orbits_of().len() ==> #[trigger] self.orbits_of()[c].describes(
                self.relations_of(),
                self.orbit_ids_of()[c],
            )
        &&& ids_table(self.table_of(), self.relations_of(), self.lattice_of().card())
    }

    /// Constructs a G-lattice from the images of the group generators.
    ///
    /// `generator_images` lists one zero-based permutation of the lattice
    /// element ids for each generator of the group.  Each is checked, in
    /// order, to be a permutation and a lattice automorphism; the first
    /// failure is reported.  The induced action on lattice relations and its
    /// orbits are then computed.
    pub fn from_generator_images(lattice: Arc<Lattice<A>>, generator_images: Vec<Vec<ElementId>>) -> (r: Result<
        Self,
        GLatticeError,
    >)
        requires
            lattice.wf(),
            lattice.card() * lattice.card() <= max_bits(),
        ensures
            match r {
                Ok(g) => g.wf() && g.lattice_of() == *lattice && g.generators_of() == seqs_of(generator_images@),
                Err(e) => exists|k: int|
                    0 <= k < generator_images@.len() && automorphism_error(*lattice, k as usize, generator_images@[k]@, e)
                        && forall|j: int| 0 <= j < k ==> #[trigger] is_automorphism(*lattice, generator_images@[j]@),
            },
    {
        let ghost l = crate::shared::shared_value(&lattice);
        let mut k: usize = 0;
        while k < generator_images.len()
            invariant
                l == *lattice,
                l.wf(),
                k <= generator_images@.len(),
                forall|j: int| 0 <= j < k ==> #[trigger] is_automorphism(l, generator_images@[j]@),
            decreases generator_images@.len() - k,
        {
            match validate_lattice_automorphism(k, &lattice, &generator_images[k]) {
                Ok(()) => {},
                Err(e) => {
                    return Err(e);
                },
            }
            k += 1;
        }
        let ghost gens = seqs_of(generator_images@);
        assert(acts_by_automorphisms(l, gens)) by {
            assert forall|g: int| 0 <= g < gens.len() implies #[trigger] is_automorphism(l, gens[g]) by {
                assert(gens[g] == generator_images@[g]@);
            }
        }
        let relations = lattice.as_poset().all_relations_iter();
        proof {
            assert(relations@.no_duplicates()) by {
                assert forall|a: int, b: int| 0 <= a < relations@.len() && 0 <= b < relations@.len() && a != b implies relations@[a] != relations@[b] by {
                    if a < b {
                        assert(crate::order::edge_lt(relations@[a], relations@[b]));
                    } else {
                        assert(crate::order::edge_lt(relations@[b], relations@[a]));
                    }
                }
            }
        }
        let relation_ids = relation_id_matrix(lattice.size(), &relations);
        let relation_generator_permutations = relation_generator_permutations(
            &lattice,
            &relations,
            &relation_ids,
            &generator_images,
        );
        let ghost rgens = seqs_of(relation_generator_permutations@);
        let count = relations.len();
        proof {
            assert(relation_generator_permutations@.map_values(|v: Vec<usize>| v@) =~= rgens);
            assert(generators_within(rgens, count as int)) by {
                assert forall|g: int| 0 <= g < rgens.len() implies (#[trigger] rgens[g]).len() == count && forall|q: int|
                    0 <= q < count ==> #[trigger] rgens[g][q] < count by {
                    assert(relation_action(relations@, gens[g], rgens[g]));
                }
            }
        }
        let relation_to_orbit = point_orbit_ids(count, &relation_generator_permutations);
        proof {
            crate::orbit_theory::lemma_labels_below(rgens, count as int, relation_to_orbit@);
        }
        let layers = orbit_points(&relation_to_orbit);
        let ghost labels = relation_to_orbit@;
        let ghost lay = seqs_of(layers@);
        let mut relation_orbits: Vec<RelationOrbit> = Vec::new();
        let mut c: usize = 0;
        while c < layers.len()
            invariant
                l == *lattice,
                orbit_setting(l, gens, relations@, rgens, labels),
                layers_partition(lay, labels),
                lay.len() == layer_count_of(labels),
                lay == seqs_of(layers@),
                c <= lay.len(),
                relation_orbits@.len() == c,
                forall|d: int| 0 <= d < c ==> #[trigger] relation_orbits@[d].describes(relations@, lay[d]),
            decreases lay.len() - c,
        {
            proof {
                lemma_layers_nonempty(l, gens, relations@, rgens, labels, lay, c as int);
            }
            let ids = crate::lattice_constructions::copy_ids(&layers[c]);
            assert(ids@ == lay[c as int]);
            let mut members: Vec<Edge> = Vec::new();
            let mut t: usize = 0;
            while t < ids.len()
                invariant
                    layers_partition(lay, labels),
                    labels.len() == relations@.len(),
                    c < lay.len(),
                    ids@ == lay[c as int],
                    t <= ids@.len(),
                    members@ == ids@.take(t as int).map_values(|k: usize| relations@[k as int]),
                decreases ids@.len() - t,
            {
                assert(lay[c as int][t as int] < labels.len());
                members.push(relations[ids[t]]);
                proof {
                    assert(ids@.take(t + 1) =~= ids@.take(t as int).push(ids@[t as int]));
                    assert(members@ =~= ids@.take(t + 1).map_values(|k: usize| relations@[k as int]));
                }
                t += 1;
            }
            assert(ids@.take(ids@.len() as int) =~= ids@);
            assert(lay[c as int][0] < labels.len());
            let first = ids[0];
            let orbit = RelationOrbit {
                canonical_relation_id: first,
                canonical_representative: relations[first],
                relation_ids: ids,
                relations: members,
            };
            relation_orbits.push(orbit);
            c += 1;
        }
        let ghost rels = relations@;
        let ghost records = relation_orbits@;
        assert(records.len() == lay.len());
        let r = GLattice {
            lattice,
            element_generator_permutations: generator_images,
            relation_generator_permutations,
            relations,
            relation_ids,
            relation_to_orbit,
            relation_orbits,
        };
        proof {
            assert forall|d: int| 0 <= d < lay.len() implies r.orbit_ids_of()[d] == lay[d] by {
                assert(records[d].describes(rels, lay[d]));
            }
            assert(r.orbit_ids_of() =~= lay);
            assert(r.relation_generators_of() == rgens);
        }
        Ok(r)
    }

    /// Returns the underlying lattice.
    pub fn lattice(&self) -> (r: &Arc<Lattice<A>>)
        ensures
            **r == self.lattice_of(),
    {
        &self.lattice
    }

    /// Returns the validated generator permutations on lattice elements.
    pub fn element_generator_permutations(&self) -> (r: &[Vec<ElementId>])
        ensures
            seqs_of(r@) == self.generators_of(),
    {
        &self.element_generator_permutations
    }

    /// Returns the induced generator permutations on relation ids.
    pub fn relation_generator_permutations(&self) -> (r: &[Vec<usize>])
        ensures
            seqs_of(r@) == self.relation_generators_of(),
    {
        &self.relation_generator_permutations
    }

    /// Returns all lattice relations, including identities, in row-major
    /// order.
    pub fn relations(&self) -> (r: &[Edge])
        ensures
            r@ == self.relations_of(),
    {
        &self.relations
    }

    /// Returns a relation by relation id.
    pub fn relation(&self, relation_id: usize) -> (r: Option<Edge>)
        ensures
            match r {
                Some(e) => relation_id < self.relations_of().len() && e == self.relations_of()[relation_id as int],
                None => relation_id >= self.relations_of().len(),
            },
    {
        if relation_id < self.relations.len() {
            Some(self.relations[relation_id])
        } else {
            None
        }
    }

    /// Returns the relation id of `relation`, if it is a relation of the
    /// lattice.
    pub fn relation_id(&self, relation: Edge) -> (r: Option<usize>)
        requires
            self.wf(),
        ensures
            match r {
                Some(k) => k < self.relations_of().len() && self.relations_of()[k as int] == relation,
                None => !self.relations_of().contains(relation),
            },
    {
        let ghost n = self.lattice_of().card();
        if relation.from < self.relation_ids.len() && relation.to < self.relation_ids[relation.from].len() {
            assert(self.table_of()[relation.from as int] == self.relation_ids@[relation.from as int]@);
            table_lookup(&self.relation_ids, relation)
        } else {
            proof {
                if self.relations_of().contains(relation) {
                    let k = choose|k: int| 0 <= k < self.relations_of().len() && self.relations_of()[k] == relation;
                    assert(is_relation_list(self.lattice_of(), self.relations_of()));
                    assert(self.table_of()[relation.from as int] == self.relation_ids@[relation.from as int]@);
                }
            }
            None
        }
    }

    /// Returns the orbits of the action on all relations.
    pub fn relation_orbits(&self) -> (r: &[RelationOrbit])
        ensures
            r@ == self.orbits_of(),
    {
        &self.relation_orbits
    }

    /// Returns the orbit containing the relation with the given relation id.
    pub fn relation_orbit_by_id(&self, relation_id: usize) -> (r: Option<&RelationOrbit>)
        requires
            self.wf(),
        ensures
            match r {
                Some(o) => relation_id < self.relations_of().len() && *o == self.orbits_of()[self.orbit_labels_of()[relation_id as int] as int],
                None => relation_id >= self.relations_of().len(),
            },
    {
        if relation_id < self.relation_to_orbit.len() {
            let orbit = self.relation_to_orbit[relation_id];
            Some(&self.relation_orbits[orbit])
        } else {
            None
        }
    }

    /// Returns the orbit containing a relation.
    pub fn relation_orbit(&self, relation: Edge) -> (r: Option<&RelationOrbit>)
        requires
            self.wf(),
        ensures
            match r {
                Some(o) => exists|k: int|
                    0 <= k < self.relations_of().len() && self.relations_of()[k] == relation && *o
                        == self.orbits_of()[self.orbit_labels_of()[k] as int],
                None => !self.relations_of().contains(relation),
            },
    {
        match self.relation_id(relation) {
            Some(k) => self.relation_orbit_by_id(k),
            None => None,
        }
    }
}

/// The layers below `c` whose first relation is not an identity, in
/// increasing order.
pub open spec fn proper_layers(r: Seq<Edge>, layers: Seq<Seq<usize>>, c: int) -> Seq<usize>
    decreases c,
{
    if c <= 0 {
        Seq::empty()
    } else if r[layers[c - 1][0] as int].from != r[layers[c - 1][0] as int].to {
        proper_layers(r, layers, c - 1).push((c - 1) as usize)
    } else {
        proper_layers(r, layers, c - 1)
    }
}

/// The proper layers below `c` are listed increasingly, each exactly when
/// its first relation is proper.
pub proof fn lemma_proper_layers(r: Seq<Edge>, layers: Seq<Seq<usize>>, c: int)
    requires
        0 <= c <= layers.len(),
        layers.len() <= usize::MAX,
    ensures
        forall|i: int, j: int|
            0 <= i < j < proper_layers(r, layers, c).len() ==> #[trigger] proper_layers(r, layers, c)[i]
                < #[trigger] proper_layers(r, layers, c)[j],
        forall|i: int| 0 <= i < proper_layers(r, layers, c).len() ==> #[trigger] proper_layers(r, layers, c)[i] < c,
        proper_layers(r, layers, c).len() <= c,
        forall|d: int|
            0 <= d < c ==> (proper_layers(r, layers, c).contains(d as usize) <==> (#[trigger] r[layers[d][0] as int]).from
                != r[layers[d][0] as int].to),
    decreases c,
{
    if c > 0 {
        lemma_proper_layers(r, layers, c - 1);
        let prev = proper_layers(r, layers, c - 1);
        let cur = proper_layers(r, layers, c);
        assert forall|i: int, j: int| 0 <= i < j < cur.len() implies #[trigger] cur[i] < #[trigger] cur[j] by {
            if j >= prev.len() {
                assert(cur[i] == prev[i]);
            } else {
                assert(cur[i] == prev[i] && cur[j] == prev[j]);
            }
        }
        assert forall|i: int| 0 <= i < cur.len() implies #[trigger] cur[i] < c by {
            if i < prev.len() {
                assert(cur[i] == prev[i]);
            }
        }
        assert forall|d: int| 0 <= d < c implies (cur.contains(d as usize) <==> (#[trigger] r[layers[d][0] as int]).from
            != r[layers[d][0] as int].to) by {
            if d < c - 1 {
                if cur.contains(d as usize) && !prev.contains(d as usize) {
                    let k = choose|k: int| 0 <= k < cur.len() && cur[k] == d as usize;
                    assert(k == prev.len());
                }
                if prev.contains(d as usize) {
                    let k = choose|k: int| 0 <= k < prev.len() && prev[k] == d as usize;
                    assert(cur[k] == d as usize);
                }
            } else {
                if cur.contains(d as usize) {
                    let k = choose|k: int| 0 <= k < cur.len() && cur[k] == d as usize;
                    if k < prev.len() {
                        assert(prev[k] < c - 1);
                    }
                }
                if r[layers[d][0] as int].from != r[layers[d][0] as int].to {
                    assert(cur[prev.len() as int] == d as usize);
                }
            }
        }
    }
}

/// The key by which relation-orbit labels are ordered as attributes:
/// target first, then source.
pub open spec fn attribute_before(a: RelationOrbitLabel, b: RelationOrbitLabel) -> bool {
    a.representative_of().to < b.representative_of().to || (a.representative_of().to == b.representative_of().to
        && a.representative_of().from <= b.representative_of().from)
}

/// `order` lists each of `0..len` once.
pub open spec fn is_arrangement(order: Seq<usize>, len: int) -> bool {
    &&& order.len() == len
    &&& order.no_duplicates()
    &&& forall|a: int| 0 <= a < order.len() ==> #[trigger] order[a] < len
}

/// An arrangement lists a permutation.
proof fn lemma_arrangement_permutation(order: Seq<usize>, len: int)
    requires
        is_arrangement(order, len),
    ensures
        is_permutation(order, len),
{
    assert forall|e: int| 0 <= e < len implies !#[trigger] crate::permutation_action::bad_at(order, len, e) by {
        if exists|f: int| 0 <= f < e && order[f] == order[e] {
            let f = choose|f: int| 0 <= f < e && order[f] == order[e];
        }
    }
}

/// The attribute coordinates in target-major order: the label positions
/// sorted by the target, then the source, of their representatives.
fn attribute_order(labels: &[RelationOrbitLabel]) -> (r: Vec<usize>)
    ensures
        is_permutation(r@, labels@.len() as int),
        forall|a: int, b: int|
            0 <= a < b < r@.len() ==> attribute_before(labels@[#[trigger] r@[a] as int], labels@[#[trigger] r@[b] as int]),
{
    let mut order: Vec<usize> = Vec::new();
    let mut i: usize = 0;
    while i < labels.len()
        invariant
            i <= labels@.len(),
            is_arrangement(order@, i as int),
            forall|a: int, b: int|
                0 <= a < b < order@.len() ==> attribute_before(labels@[#[trigger] order@[a] as int], labels@[#[trigger] order@[b] as int]),
        decreases labels@.len() - i,
    {
        let key = labels[i].canonical_representative();
        let mut pos: usize = 0;
        while pos < order.len()
            invariant
                i < labels@.len(),
                key == labels@[i as int].representative_of(),
                pos <= order@.len(),
                is_arrangement(order@, i as int),
                forall|a: int| 0 <= a < pos ==> attribute_before(labels@[#[trigger] order@[a] as int], labels@[i as int]),
            ensures
                pos <= order@.len(),
                forall|a: int| 0 <= a < pos ==> attribute_before(labels@[#[trigger] order@[a] as int], labels@[i as int]),
                pos < order@.len() ==> !attribute_before(labels@[order@[pos as int] as int], labels@[i as int]),
            decreases order@.len() - pos,
        {
            let other = labels[order[pos]].canonical_representative();
            if other.to < key.to || (other.to == key.to && other.from <= key.from) {
                pos += 1;
            } else {
                break;
            }
        }
        let ghost before = order@;
        proof {
            before.insert_ensures(pos as int, i);
        }
        order.insert(pos, i);
        proof {
            let now = order@;
            assert(now.len() == before.len() + 1);
            assert forall|a: int| 0 <= a < now.len() implies #[trigger] now[a] < i + 1 && (now[a] == i <==> a == pos) by {
                if a > pos {
                    assert(now[a] == before[a - 1]);
                }
            }
            assert(now.no_duplicates()) by {
                assert forall|a: int, b: int| 0 <= a < now.len() && 0 <= b < now.len() && a != b implies now[a] != now[b] by {
                    if a != pos && b != pos {
                        let a0 = if a < pos { a } else { a - 1 };
                        let b0 = if b < pos { b } else { b - 1 };
                        assert(now[a] == before[a0]);
                        assert(now[b] == before[b0]);
                    }
                }
            }
            assert forall|a: int, b: int| 0 <= a < b < now.len() implies attribute_before(labels@[#[trigger] now[a] as int], labels@[#[trigger] now[b] as int]) by {
                let a0 = if a < pos { a } else { a - 1 };
                let b0 = if b < pos { b } else { b - 1 };
                if a != pos && b != pos {
                    assert(now[a] == before[a0]);
                    assert(now[b] == before[b0]);
                    assert(attribute_before(labels@[before[a0] as int], labels@[before[b0] as int]));
                } else if a == pos {
                    assert(now[b] == before[b0]);
                    assert(b0 >= pos);
                    if b0 > pos {
                        assert(attribute_before(labels@[before[pos as int] as int], labels@[before[b0] as int]));
                    }
                } else {
                    assert(now[a] == before[a0]);
                }
            }
        }
        i += 1;
    }
    proof {
        lemma_arrangement_permutation(order@, labels@.len() as int);
    }
    order
}

/// The rows of a list of relation lists.
pub open spec fn edge_rows(v: Seq<Vec<Edge>>) -> Seq<Seq<Edge>> {
    Seq::new(v.len(), |i: int| v[i]@)
}

impl<A> GLattice<A> {
    /// The orbits, among all, whose relations are proper, in increasing
    /// order of orbit id.
    pub open spec fn proper_orbit_ids(&self) -> Seq<usize> {
        proper_layers(self.relations_of(), self.orbit_ids_of(), self.orbit_ids_of().len() as int)
    }

    /// The relations of the orbits of proper relations.
    pub open spec fn proper_orbits(&self) -> Seq<Seq<Edge>> {
        crate::orbit_theory::selected_orbits(self.relations_of(), self.orbit_ids_of(), self.proper_orbit_ids())
    }

    /// The orbits of proper relations form a uniform family of classes.
    pub proof fn lemma_proper_orbits(&self)
        requires
            self.wf(),
        ensures
            crate::orbit_theory::orbit_family(self.lattice_of(), self.proper_orbits()),
            crate::orbit_theory::uniform_family(self.lattice_of(), self.proper_orbits()),
            self.proper_orbits().len() <= max_bits(),
            forall|i: int| 0 <= i < self.proper_orbit_ids().len() ==> #[trigger] self.proper_orbit_ids()[i] < self.orbits_of().len(),
            forall|i: int| 0 <= i < self.proper_orbit_ids().len() ==> #[trigger] self.proper_orbits()[i] == self.orbits_of()[self.proper_orbit_ids()[i] as int].relations_of(),
    {
        let r = self.relations_of();
        let ids = self.orbit_ids_of();
        let labels = self.orbit_labels_of();
        let n = self.lattice_of().card();
        crate::orbit_theory::lemma_labels_below(self.relation_generators_of(), r.len() as int, labels);
        crate::tikz::layered::lemma_layer_count_bounds(labels);
        crate::transfer_lattice::lemma_row_major_bound(r, n);
        assert(ids.len() <= r.len());
        lemma_proper_layers(r, ids, ids.len() as int);
        crate::orbit_theory::lemma_setting_family(
            self.lattice_of(),
            self.generators_of(),
            r,
            self.relation_generators_of(),
            labels,
            ids,
            self.proper_orbit_ids(),
        );
        assert forall|i: int| 0 <= i < self.proper_orbit_ids().len() implies #[trigger] self.proper_orbits()[i] == self.orbits_of()[self.proper_orbit_ids()[i] as int].relations_of() by {
            let c = self.proper_orbit_ids()[i] as int;
            assert(self.orbits_of()[c].describes(r, ids[c]));
        }
    }

    /// Returns labels for the orbits of proper relations, in increasing
    /// order of orbit id.
    pub fn non_identity_relation_orbit_labels(&self) -> (r: Vec<RelationOrbitLabel>)
        requires
            self.wf(),
        ensures
            r@.len() == self.proper_orbit_ids().len(),
            forall|i: int|
                0 <= i < r@.len() ==> (#[trigger] r@[i]).orbit_id_of() == self.proper_orbit_ids()[i] && r@[i].relation_id_of()
                    == self.orbits_of()[self.proper_orbit_ids()[i] as int].canonical_id_of() && r@[i].representative_of()
                    == self.orbits_of()[self.proper_orbit_ids()[i] as int].canonical_of(),
    {
        let ghost rel = self.relations_of();
        let ghost ids = self.orbit_ids_of();
        let mut result: Vec<RelationOrbitLabel> = Vec::new();
        let mut c: usize = 0;
        while c < self.relation_orbits.len()
            invariant
                self.wf(),
                rel == self.relations_of(),
                ids == self.orbit_ids_of(),
                c <= ids.len(),
                result@.len() == proper_layers(rel, ids, c as int).len(),
                forall|i: int|
                    0 <= i < result@.len() ==> (#[trigger] result@[i]).orbit_id_of() == proper_layers(rel, ids, c as int)[i]
                        && result@[i].relation_id_of() == self.orbits_of()[proper_layers(rel, ids, c as int)[i] as int].canonical_id_of()
                        && result@[i].representative_of() == self.orbits_of()[proper_layers(rel, ids, c as int)[i] as int].canonical_of(),
            decreases ids.len() - c,
        {
            let orbit = &self.relation_orbits[c];
            assert(self.orbits_of()[c as int].describes(rel, ids[c as int]));
            let rep = orbit.canonical_representative();
            if !rep.is_identity() {
                result.push(RelationOrbitLabel::new(c, orbit.canonical_relation_id(), rep));
            }
            c += 1;
        }
        result
    }
}

/// `e` comes no later than `f` in target-major order: by target, then by
/// source.
pub open spec fn target_major_at_most(e: Edge, f: Edge) -> bool {
    e.to < f.to || (e.to == f.to && e.from <= f.from)
}

/// The first relation of each class: its representative.
pub open spec fn orbit_representatives(orbs: Seq<Seq<Edge>>) -> Seq<Edge> {
    Seq::new(orbs.len(), |i: int| orbs[i][0])
}

/// The representatives of the classes `attrs[0], attrs[1], ...`.
pub open spec fn attribute_representatives(orbs: Seq<Seq<Edge>>, attrs: Seq<usize>) -> Seq<Edge> {
    Seq::new(attrs.len(), |b: int| orbs[attrs[b] as int][0])
}

/// `attrs` lists the classes in target-major order of their
/// representatives.
pub open spec fn in_target_major_order(orbs: Seq<Seq<Edge>>, attrs: Seq<usize>) -> bool {
    forall|a: int, b: int|
        0 <= a < b < attrs.len() ==> target_major_at_most(
            orbs[#[trigger] attrs[a] as int][0],
            orbs[#[trigger] attrs[b] as int][0],
        )
}

/// The orbit context of a packed family of classes: object `a` is the class
/// of the `a`-th label, attribute `b` the class of label `attrs[b]`.
fn packed_g_transfer_context<A>(
    lattice: &Lattice<A>,
    labels: &Vec<RelationOrbitLabel>,
    relation_orbits: &Vec<Vec<Edge>>,
    attrs: &Vec<usize>,
) -> (r: fcars::FormalContext<Edge, Edge>)
    requires
        lattice.wf(),
        labels@.len() == relation_orbits@.len(),
        relation_orbits@.len() <= max_bits(),
        is_permutation(attrs@, relation_orbits@.len() as int),
        forall|i: int| 0 <= i < relation_orbits@.len() ==> (#[trigger] relation_orbits@[i])@.len() > 0 && labels@[i].representative_of() == relation_orbits@[i]@[0],
        forall|i: int, k: int|
            0 <= i < relation_orbits@.len() && 0 <= k < relation_orbits@[i]@.len() ==> (#[trigger] relation_orbits@[i]@[k]).from < lattice.card()
                && relation_orbits@[i]@[k].to < lattice.card(),
    ensures
        crate::concepts::context_incidence(r) == crate::orbit_theory::orbit_context(*lattice, edge_rows(relation_orbits@), attrs@),
        crate::concepts::context_attribute_count(r) == relation_orbits@.len(),
        crate::concepts::context_objects(r) == orbit_representatives(edge_rows(relation_orbits@)),
        crate::concepts::context_attributes(r) == attribute_representatives(edge_rows(relation_orbits@), attrs@),
{
    let ghost orbs = edge_rows(relation_orbits@);
    let count = relation_orbits.len();
    assert forall|b: int| 0 <= b < count implies #[trigger] attrs@[b] < count by {
        assert(!crate::permutation_action::bad_at(attrs@, count as int, b));
    }
    let mut matrix: Vec<Bits> = Vec::new();
    let mut objects: Vec<Edge> = Vec::new();
    let mut a: usize = 0;
    while a < count
        invariant
            lattice.wf(),
            orbs == edge_rows(relation_orbits@),
            count == relation_orbits@.len(),
            count <= max_bits(),
            labels@.len() == count,
            attrs@.len() == count,
            forall|b: int| 0 <= b < count ==> #[trigger] attrs@[b] < count,
            forall|i: int| 0 <= i < count ==> (#[trigger] relation_orbits@[i])@.len() > 0 && labels@[i].representative_of() == relation_orbits@[i]@[0],
            forall|i: int, k: int|
                0 <= i < count && 0 <= k < relation_orbits@[i]@.len() ==> (#[trigger] relation_orbits@[i]@[k]).from < lattice.card()
                    && relation_orbits@[i]@[k].to < lattice.card(),
            a <= count,
            matrix@.len() == a,
            objects@.len() == a,
            forall|i: int| 0 <= i < a ==> #[trigger] objects@[i] == orbs[i][0],
            forall|i: int| 0 <= i < a ==> (#[trigger] matrix@[i])@ == crate::orbit_theory::orbit_context(*lattice, orbs, attrs@)[i],
        decreases count - a,
    {
        let object = labels[a].canonical_representative();
        assert(object == orbs[a as int][0]);
        let mut row = Bits::repeat(false, count);
        let mut b: usize = 0;
        while b < count
            invariant
                lattice.wf(),
                orbs == edge_rows(relation_orbits@),
                count == relation_orbits@.len(),
                attrs@.len() == count,
                forall|b: int| 0 <= b < count ==> #[trigger] attrs@[b] < count,
                forall|i: int, k: int|
                    0 <= i < count && 0 <= k < relation_orbits@[i]@.len() ==> (#[trigger] relation_orbits@[i]@[k]).from < lattice.card()
                        && relation_orbits@[i]@[k].to < lattice.card(),
                a < count,
                object == orbs[a as int][0],
                object.from < lattice.card() && object.to < lattice.card(),
                b <= count,
                row@.len() == count,
                forall|j: int| 0 <= j < b ==> #[trigger] row@[j] == crate::orbit_theory::all_lift_into(*lattice, orbs[attrs@[j] as int], object),
            decreases count - b,
        {
            let attribute = &relation_orbits[attrs[b]];
            assert(attribute@ == orbs[attrs@[b as int] as int]);
            let mut all = true;
            let mut t: usize = 0;
            while t < attribute.len()
                invariant
                    lattice.wf(),
                    t <= attribute@.len(),
                    forall|k: int| 0 <= k < attribute@.len() ==> (#[trigger] attribute@[k]).from < lattice.card() && attribute@[k].to < lattice.card(),
                    object.from < lattice.card() && object.to < lattice.card(),
                    all == forall|k: int| 0 <= k < t ==> #[trigger] crate::order::lifts(lattice.order(), attribute@[k], object),
                decreases attribute@.len() - t,
            {
                let e = attribute[t];
                let lifts = !lattice.leq(e.from, object.from) || !lattice.leq(e.to, object.to) || lattice.leq(e.to, object.from);
                assert(lifts == crate::order::lifts(lattice.order(), attribute@[t as int], object));
                all = all && lifts;
                t += 1;
            }
            row.set(b, all);
            b += 1;
        }
        assert(row@ =~= crate::orbit_theory::orbit_context(*lattice, orbs, attrs@)[a as int]);
        matrix.push(row);
        objects.push(object);
        a += 1;
    }
    let mut attributes: Vec<Edge> = Vec::new();
    let mut b: usize = 0;
    while b < count
        invariant
            count == relation_orbits@.len(),
            labels@.len() == count,
            attrs@.len() == count,
            forall|b: int| 0 <= b < count ==> #[trigger] attrs@[b] < count,
            b <= count,
            attributes@.len() == b,
            orbs == edge_rows(relation_orbits@),
            forall|i: int| 0 <= i < count ==> (#[trigger] relation_orbits@[i])@.len() > 0 && labels@[i].representative_of() == relation_orbits@[i]@[0],
            forall|i: int| 0 <= i < b ==> #[trigger] attributes@[i] == orbs[attrs@[i] as int][0],
        decreases count - b,
    {
        assert(orbs[attrs@[b as int] as int] == relation_orbits@[attrs@[b as int] as int]@);
        attributes.push(labels[attrs[b]].canonical_representative());
        b += 1;
    }
    let r = crate::concepts::formal_context_new(objects, attributes, matrix);
    assert(crate::bits::matrix_of(matrix@) =~= crate::orbit_theory::orbit_context(*lattice, orbs, attrs@));
    assert(objects@ =~= orbit_representatives(orbs));
    assert(attributes@ =~= attribute_representatives(orbs, attrs@));
    r
}

/// `t[x][y]` names the class of `orbs` holding `x <= y`, when there is one.
pub open spec fn orbit_table(t: Seq<Seq<Option<usize>>>, orbs: Seq<Seq<Edge>>, n: nat) -> bool {
    &&& t.len() == n
    &&& forall|x: int| 0 <= x < n ==> (#[trigger] t[x]).len() == n
    &&& forall|x: int, y: int|
        0 <= x < n && 0 <= y < n ==> match #[trigger] t[x][y] {
            Some(i) => i < orbs.len() && orbs[i as int].contains(Edge { from: x as usize, to: y as usize }),
            None => !crate::orbit_theory::in_family(orbs, Edge { from: x as usize, to: y as usize }),
        }
}

/// The table naming the class of every relation of a family.
fn orbit_label_table(n: usize, relation_orbits: &Vec<Vec<Edge>>) -> (r: Vec<Vec<Option<usize>>>)
    ensures
        orbit_table(table_of(r@), edge_rows(relation_orbits@), n as nat),
{
    let ghost orbs = edge_rows(relation_orbits@);
    let mut result: Vec<Vec<Option<usize>>> = Vec::new();
    let mut x: usize = 0;
    while x < n
        invariant
            orbs == edge_rows(relation_orbits@),
            x <= n,
            result@.len() == x,
            forall|a: int| 0 <= a < x ==> (#[trigger] result@[a])@.len() == n,
            forall|a: int, y: int|
                0 <= a < x && 0 <= y < n ==> match #[trigger] result@[a]@[y] {
                    Some(i) => i < orbs.len() && orbs[i as int].contains(Edge { from: a as usize, to: y as usize }),
                    None => !crate::orbit_theory::in_family(orbs, Edge { from: a as usize, to: y as usize }),
                },
        decreases n - x,
    {
        let mut row: Vec<Option<usize>> = Vec::new();
        let mut y: usize = 0;
        while y < n
            invariant
                y <= n,
                row@.len() == y,
                forall|b: int| 0 <= b < y ==> #[trigger] row@[b] is None,
            decreases n - y,
        {
            row.push(None);
            y += 1;
        }
        let mut i: usize = 0;
        while i < relation_orbits.len()
            invariant
                orbs == edge_rows(relation_orbits@),
                x < n,
                i <= orbs.len(),
                row@.len() == n,
                forall|b: int|
                    0 <= b < n ==> match #[trigger] row@[b] {
                        Some(j) => j < orbs.len() && orbs[j as int].contains(Edge { from: x, to: b as usize }),
                        None => forall|j: int, k: int|
                            0 <= j < i && 0 <= k < orbs[j].len() ==> orbs[j][k] != Edge { from: x, to: b as usize },
                    },
            decreases orbs.len() - i,
        {
            let orbit = &relation_orbits[i];
            assert(orbit@ == orbs[i as int]);
            let mut k: usize = 0;
            while k < orbit.len()
                invariant
                    orbs == edge_rows(relation_orbits@),
                    orbit@ == orbs[i as int],
                    x < n,
                    i < orbs.len(),
                    k <= orbit@.len(),
                    row@.len() == n,
                    forall|b: int|
                        0 <= b < n ==> match #[trigger] row@[b] {
                            Some(j) => j < orbs.len() && orbs[j as int].contains(Edge { from: x, to: b as usize }),
                            None => forall|j: int, t: int|
                                ((0 <= j < i && 0 <= t < orbs[j].len()) || (j == i && 0 <= t < k)) ==> orbs[j][t] != Edge { from: x, to: b as usize },
                        },
                decreases orbit@.len() - k,
            {
                let e = orbit[k];
                if e.from == x && e.to < n {
                    row.set(e.to, Some(i));
                    proof {
                        assert(orbs[i as int][k as int] == e);
                        assert(orbs[i as int].contains(Edge { from: x, to: e.to }));
                    }
                }
                k += 1;
            }
            i += 1;
        }
        proof {
            assert forall|b: int| 0 <= b < n implies match #[trigger] row@[b] {
                Some(j) => j < orbs.len() && orbs[j as int].contains(Edge { from: x, to: b as usize }),
                None => !crate::orbit_theory::in_family(orbs, Edge { from: x, to: b as usize }),
            } by {
                if row@[b] is None && crate::orbit_theory::in_family(orbs, Edge { from: x, to: b as usize }) {
                    let (j, t) = choose|j: int, t: int| 0 <= j < orbs.len() && 0 <= t < orbs[j].len() && orbs[j][t] == Edge { from: x, to: b as usize };
                }
            }
        }
        result.push(row);
        x += 1;
    }
    proof {
        let t = table_of(result@);
        assert forall|a: int, y: int| 0 <= a < n && 0 <= y < n implies match #[trigger] t[a][y] {
            Some(i) => i < orbs.len() && orbs[i as int].contains(Edge { from: a as usize, to: y as usize }),
            None => !crate::orbit_theory::in_family(orbs, Edge { from: a as usize, to: y as usize }),
        } by {
            assert(t[a] == result@[a]@);
        }
    }
    result
}

/// A transfer system on a G-lattice, stored as one bit per orbit of proper
/// relations; identity relations are implicit.
#[derive(Debug)]
pub struct RawGTransferSystem {
    orbit_arrows: Bits,
}

impl RawGTransferSystem {
    /// The selected orbits.
    pub closed spec fn bits(&self) -> Seq<bool> {
        self.orbit_arrows@
    }

    /// Wraps a bit vector.
    pub(crate) fn new(orbit_arrows: Bits) -> (r: Self)
        ensures
            r.bits() == orbit_arrows@,
    {
        RawGTransferSystem { orbit_arrows }
    }

    /// Returns the bit vector of selected orbits: bit `i` stands for
    /// `universe.relation_orbit_labels()[i]`.
    pub fn orbit_arrows(&self) -> (r: &Bits)
        ensures
            r@ == self.bits(),
    {
        &self.orbit_arrows
    }
}

impl Clone for RawGTransferSystem {
    fn clone(&self) -> (r: Self)
        ensures
            r.bits() == self.bits(),
    {
        RawGTransferSystem { orbit_arrows: self.orbit_arrows.duplicate() }
    }
}

impl PartialEq for RawGTransferSystem {
    fn eq(&self, other: &Self) -> (r: bool) {
        crate::bits::equal_bits(&self.orbit_arrows, &other.orbit_arrows)
    }
}

impl Eq for RawGTransferSystem {
}

impl vstd::std_specs::cmp::PartialEqSpecImpl for RawGTransferSystem {
    open spec fn obeys_eq_spec() -> bool {
        true
    }

    open spec fn eq_spec(&self, other: &Self) -> bool {
        self.bits() == other.bits()
    }
}

/// Shared ambient data that gives raw G-transfer systems their meaning: the
/// underlying lattice, the ordered list of orbits of proper relations, and
/// the formal context whose closed object sets are the G-transfer systems.
///
/// It also keeps an ordinary transfer universe for the underlying lattice,
/// into which a G-transfer system expands.
pub struct GTransferUniverse<A> {
    underlying_transfer_universe: Arc<TransferUniverse<A>>,
    context: FormalContext<Edge, Edge>,
    labels: Vec<RelationOrbitLabel>,
    relation_orbits: Vec<Vec<Edge>>,
    relation_to_orbit_label: Vec<Vec<Option<usize>>>,
    attribute_order: Ghost<Seq<usize>>,
}

/// Errors that can occur while constructing an individual G-transfer system.
#[derive(Debug, Clone, Copy, PartialEq, Eq, Structural)]
pub enum GTransferSystemError {
    /// A generating relation references an element outside the lattice.
    EdgeOutOfBounds {
        /// The invalid generating relation.
        edge: Edge,
        /// The number of elements in the lattice.
        lattice_size: usize,
    },
    /// A non-identity generating relation is not present in the lattice order.
    NotLatticeRelation {
        /// The invalid generating relation.
        edge: Edge,
    },
    /// A raw bit vector does not have one bit for every proper relation orbit.
    WrongOrbitCount {
        /// The number of orbits of proper relations in the universe.
        expected: usize,
        /// The number of bits in the raw representation.
        actual: usize,
    },
    /// A raw bit vector is not closed under the G-transfer-system axioms.
    RawNotClosed,
}

impl<A> GTransferUniverse<A> {
    /// The ordinary transfer universe of the underlying lattice.
    pub closed spec fn underlying_of(&self) -> TransferUniverse<A> {
        *self.underlying_transfer_universe
    }

    /// The underlying lattice.
    pub open spec fn lattice_of(&self) -> Lattice<A> {
        self.underlying_of().lattice_of()
    }

    /// The orbits of proper relations, in bit order.
    pub closed spec fn orbits_of(&self) -> Seq<Seq<Edge>> {
        edge_rows(self.relation_orbits@)
    }

    /// The labels of the orbits, in bit order.
    pub closed spec fn labels_of(&self) -> Seq<RelationOrbitLabel> {
        self.labels@
    }

    /// The order in which the orbits serve as attributes of the context.
    pub closed spec fn attrs_of(&self) -> Seq<usize> {
        self.attribute_order@
    }

    /// The incidence rows of the orbit context.
    pub open spec fn context_rows(&self) -> Seq<Seq<bool>> {
        orbit_context(self.lattice_of(), self.orbits_of(), self.attrs_of())
    }

    /// `s` selects orbits closed under the G-transfer-system axioms.
    pub open spec fn is_system_bits(&self, s: Seq<bool>) -> bool {
        s.len() == self.orbits_of().len() && is_closed(self.context_rows(), self.attrs_of().len(), s)
    }

    /// A well-formed universe: its orbits partition the proper relations and
    /// lifting against an orbit is constant along every orbit (as for the
    /// orbits of a group of automorphisms), and its context is the orbit
    /// context.
    pub open spec fn wf(&self) -> bool {
        &&& self.underlying_of().wf()
        &&& self.lattice_of().card() * self.lattice_of().card() <= max_bits()
        &&& orbit_family(self.lattice_of(), self.orbits_of())
        &&& uniform_family(self.lattice_of(), self.orbits_of())
        &&& is_permutation(self.attrs_of(), self.orbits_of().len() as int)
        &&& self.orbits_of().len() <= max_bits()
        &&& self.labels_of().len() == self.orbits_of().len()
        &&& forall|i: int| 0 <= i < self.labels_of().len() ==> (#[trigger] self.labels_of()[i]).representative_of() == self.orbits_of()[i][0]
        &&& self.storage_wf()
    }

    /// The stored context and lookup table agree with the orbits.
    pub closed spec fn storage_wf(&self) -> bool {
        &&& context_incidence(self.context) == self.context_rows()
        &&& context_attribute_count(self.context) == self.orbits_of().len()
        &&& context_objects(self.context) == orbit_representatives(self.orbits_of())
        &&& context_attributes(self.context) == attribute_representatives(self.orbits_of(), self.attrs_of())
        &&& in_target_major_order(self.orbits_of(), self.attrs_of())
        &&& orbit_table(table_of(self.relation_to_orbit_label@), self.orbits_of(), self.lattice_of().card())
    }

    fn from_packed_orbits(
        lattice: Arc<Lattice<A>>,
        labels: Vec<RelationOrbitLabel>,
        relation_orbits: Vec<Vec<Edge>>,
        attrs: Vec<usize>,
    ) -> (r: Self)
        requires
            lattice.wf(),
            lattice.card() * lattice.card() <= max_bits(),
            orbit_family(*lattice, edge_rows(relation_orbits@)),
            uniform_family(*lattice, edge_rows(relation_orbits@)),
            is_permutation(attrs@, relation_orbits@.len() as int),
            in_target_major_order(edge_rows(relation_orbits@), attrs@),
            relation_orbits@.len() <= max_bits(),
            labels@.len() == relation_orbits@.len(),
            forall|i: int| 0 <= i < labels@.len() ==> (#[trigger] labels@[i]).representative_of() == relation_orbits@[i]@[0],
        ensures
            r.wf(),
            r.lattice_of() == *lattice,
            r.orbits_of() == edge_rows(relation_orbits@),
            r.labels_of() == labels@,
    {
        let ghost orbs = edge_rows(relation_orbits@);
        proof {
            assert forall|i: int| 0 <= i < relation_orbits@.len() implies (#[trigger] relation_orbits@[i])@.len() > 0 by {
                assert(orbs[i] == relation_orbits@[i]@);
            }
            assert forall|i: int, k: int| 0 <= i < relation_orbits@.len() && 0 <= k < relation_orbits@[i]@.len() implies (#[trigger] relation_orbits@[i]@[k]).from < lattice.card()
                && relation_orbits@[i]@[k].to < lattice.card() by {
                assert(orbs[i] == relation_orbits@[i]@);
                assert(crate::orbit_theory::is_proper(*lattice, orbs[i][k]));
            }
        }
        let context = packed_g_transfer_context(&lattice, &labels, &relation_orbits, &attrs);
        let table = orbit_label_table(lattice.size(), &relation_orbits);
        let underlying = Arc::new(TransferUniverse::new(lattice));
        GTransferUniverse {
            underlying_transfer_universe: underlying,
            context,
            labels,
            relation_orbits,
            relation_to_orbit_label: table,
            attribute_order: Ghost(attrs@),
        }
    }

    /// Constructs the transfer-system universe of a G-lattice from its
    /// orbits of proper relations.
    pub fn new(g_lattice: &GLattice<A>) -> (r: Self)
        requires
            g_lattice.wf(),
        ensures
            r.wf(),
            r.lattice_of() == g_lattice.lattice_of(),
            r.orbits_of() == g_lattice.proper_orbits(),
    {
        proof {
            g_lattice.lemma_proper_orbits();
        }
        let labels = g_lattice.non_identity_relation_orbit_labels();
        let ghost sel = g_lattice.proper_orbit_ids();
        let mut relation_orbits: Vec<Vec<Edge>> = Vec::new();
        let mut i: usize = 0;
        while i < labels.len()
            invariant
                g_lattice.wf(),
                sel == g_lattice.proper_orbit_ids(),
                labels@.len() == sel.len(),
                forall|j: int| 0 <= j < labels@.len() ==> (#[trigger] labels@[j]).orbit_id_of() == sel[j],
                forall|j: int| 0 <= j < sel.len() ==> #[trigger] sel[j] < g_lattice.orbits_of().len(),
                i <= labels@.len(),
                relation_orbits@.len() == i,
                forall|j: int| 0 <= j < i ==> (#[trigger] relation_orbits@[j])@ == g_lattice.orbits_of()[sel[j] as int].relations_of(),
            decreases labels@.len() - i,
        {
            let orbit_id = labels[i].orbit_id();
            let orbit = &g_lattice.relation_orbits()[orbit_id];
            relation_orbits.push(crate::edges::copy_edges(orbit.relations()));
            i += 1;
        }
        let attrs = attribute_order(&labels);
        let ghost rel = g_lattice.relations_of();
        let ghost ids = g_lattice.orbit_ids_of();
        proof {
            assert(edge_rows(relation_orbits@) =~= g_lattice.proper_orbits()) by {
                assert forall|j: int| 0 <= j < sel.len() implies edge_rows(relation_orbits@)[j] == g_lattice.proper_orbits()[j] by {
                    assert(relation_orbits@[j]@ == g_lattice.orbits_of()[sel[j] as int].relations_of());
                }
            }
            assert forall|j: int| 0 <= j < labels@.len() implies (#[trigger] labels@[j]).representative_of() == relation_orbits@[j]@[0] by {
                let c = sel[j] as int;
                assert(g_lattice.orbits_of()[c].describes(rel, ids[c]));
            }
            let orbs = edge_rows(relation_orbits@);
            assert forall|a: int, b: int| 0 <= a < b < attrs@.len() implies target_major_at_most(
                orbs[#[trigger] attrs@[a] as int][0],
                orbs[#[trigger] attrs@[b] as int][0],
            ) by {
                assert(attribute_before(labels@[attrs@[a] as int], labels@[attrs@[b] as int]));
                assert(!crate::permutation_action::bad_at(attrs@, labels@.len() as int, a));
                assert(!crate::permutation_action::bad_at(attrs@, labels@.len() as int, b));
                assert(labels@[attrs@[a] as int].representative_of() == relation_orbits@[attrs@[a] as int]@[0]);
                assert(labels@[attrs@[b] as int].representative_of() == relation_orbits@[attrs@[b] as int]@[0]);
            }
        }
        Self::from_packed_orbits(crate::shared::arc_clone(g_lattice.lattice()), labels, relation_orbits, attrs)
    }

    /// The transfer universe of the induced action on the opposite lattice:
    /// the same element ids with the order reversed, and every orbit of
    /// proper relations reversed, in the same position and with the id of
    /// the same orbit.  A reversed orbit is led, and labelled, by its first
    /// relation in row-major order, with the position of that relation among
    /// all relations of the opposite lattice.
    pub fn opposite(&self) -> (r: GTransferUniverse<ElementId>)
        requires
            self.wf(),
        ensures
            r.wf(),
            crate::cotransfer_lattice::is_opposite(r.lattice_of(), self.lattice_of()),
            r.lattice_of().labels() == Seq::new(self.lattice_of().card(), |i: int| i as usize),
            r.orbits_of().len() == self.orbits_of().len(),
            forall|i: int| 0 <= i < self.orbits_of().len() ==> #[trigger] is_reversed_orbit(r.orbits_of()[i], self.orbits_of()[i]),
            forall|i: int|
                0 <= i < self.orbits_of().len() ==> (#[trigger] r.labels_of()[i]).orbit_id_of() == self.labels_of()[i].orbit_id_of(),
            exists|rels: Seq<Edge>|
                lists_relations(r.lattice_of(), rels) && forall|i: int|
                    0 <= i < self.orbits_of().len() ==> (#[trigger] r.labels_of()[i]).relation_id_of() < rels.len()
                        && rels[r.labels_of()[i].relation_id_of() as int] == r.orbits_of()[i][0],
    {
        let ghost l = self.lattice_of();
        let ghost orbs = self.orbits_of();
        let lattice = self.lattice();
        let op = crate::cotransfer_lattice::opposite_lattice_with_id_labels(&**lattice);
        let rels = op.as_poset().all_relations_iter();
        proof {
            assert(rels@.no_duplicates()) by {
                assert forall|a: int, b: int| 0 <= a < rels@.len() && 0 <= b < rels@.len() && a != b implies rels@[a] != rels@[b] by {
                    if a < b {
                        assert(crate::order::edge_lt(rels@[a], rels@[b]));
                    } else {
                        assert(crate::order::edge_lt(rels@[b], rels@[a]));
                    }
                }
            }
        }
        let n = op.size();
        let ids = relation_id_matrix(n, &rels);
        let count = self.relation_orbits.len();
        let mut orbits: Vec<Vec<Edge>> = Vec::new();
        let mut labels: Vec<RelationOrbitLabel> = Vec::new();
        let ghost mut ms: Seq<int> = Seq::empty();
        let mut i: usize = 0;
        while i < count
            invariant
                self.wf(),
                l == self.lattice_of(),
                orbs == self.orbits_of(),
                count == orbs.len(),
                crate::cotransfer_lattice::is_opposite(op, l),
                n == op.card(),
                lists_relations(op, rels@),
                ids_table(table_of(ids@), rels@, n as nat),
                i <= count,
                orbits@.len() == i,
                labels@.len() == i,
                ms.len() == i,
                forall|q: int|
                    0 <= q < i ==> 0 <= #[trigger] ms[q] < orbs[q].len() && orbits@[q]@ == exchanged_reversal(orbs[q], ms[q]),
                forall|q: int| 0 <= q < i ==> #[trigger] is_reversed_orbit(orbits@[q]@, orbs[q]),
                forall|q: int|
                    0 <= q < i ==> (#[trigger] labels@[q]).orbit_id_of() == self.labels_of()[q].orbit_id_of()
                        && labels@[q].representative_of() == orbits@[q]@[0] && labels@[q].relation_id_of() < rels@.len()
                        && rels@[labels@[q].relation_id_of() as int] == orbits@[q]@[0],
            decreases count - i,
        {
            let orbit = &self.relation_orbits[i];
            assert(orbit@ == orbs[i as int]);
            proof {
                assert(orbs[i as int].len() > 0);
                assert forall|a: int, b: int| 0 <= a < orbit@.len() && 0 <= b < orbit@.len() && a != b implies orbit@[a] != orbit@[b] by {
                    if orbit@[a] == orbit@[b] {
                        assert(orbs[i as int][a] == orbs[i as int][b]);
                    }
                }
            }
            let m = least_reversal(orbit);
            let o = reversed_orbit(orbit, m);
            let rep = o[0];
            proof {
                assert(rep == reversed(orbs[i as int][m as int]));
                assert(is_proper(l, orbs[i as int][m as int]));
                assert(op.le(rep.from as int, rep.to as int) == l.le(rep.to as int, rep.from as int));
                assert(rels@.contains(rep));
            }
            assert(table_of(ids@)[rep.from as int] == ids@[rep.from as int]@);
            let found = table_lookup(&ids, rep);
            let id = match found {
                Some(k) => k,
                None => {
                    proof {
                        assert(table_of(ids@)[rep.from as int][rep.to as int] is None);
                        assert(!rels@.contains(Edge { from: rep.from, to: rep.to }));
                    }
                    vstd::pervasive::unreached()
                },
            };
            let label = RelationOrbitLabel::new(self.labels[i].orbit_id(), id, rep);
            proof {
                assert(is_reversed_orbit(o@, orbs[i as int]));
            }
            labels.push(label);
            orbits.push(o);
            proof {
                ms = ms.push(m as int);
            }
            i += 1;
        }
        let attrs = attribute_order(&labels);
        let ghost rorbs = edge_rows(orbits@);
        proof {
            assert forall|q: int| 0 <= q < orbs.len() implies 0 <= #[trigger] ms[q] < orbs[q].len() && rorbs[q] == exchanged_reversal(orbs[q], ms[q]) by {
                assert(rorbs[q] == orbits@[q]@);
            }
            lemma_reversed_family(l, op, orbs, rorbs, ms);
            assert forall|a: int, b: int| 0 <= a < b < attrs@.len() implies target_major_at_most(
                rorbs[#[trigger] attrs@[a] as int][0],
                rorbs[#[trigger] attrs@[b] as int][0],
            ) by {
                assert(attribute_before(labels@[attrs@[a] as int], labels@[attrs@[b] as int]));
                assert(!crate::permutation_action::bad_at(attrs@, labels@.len() as int, a));
                assert(!crate::permutation_action::bad_at(attrs@, labels@.len() as int, b));
                assert(rorbs[attrs@[a] as int] == orbits@[attrs@[a] as int]@);
                assert(rorbs[attrs@[b] as int] == orbits@[attrs@[b] as int]@);
            }
        }
        let r = GTransferUniverse::<ElementId>::from_packed_orbits(Arc::new(op), labels, orbits, attrs);
        proof {
            assert forall|q: int| 0 <= q < orbs.len() implies #[trigger] is_reversed_orbit(r.orbits_of()[q], orbs[q]) by {
                assert(r.orbits_of()[q] == orbits@[q]@);
            }
            assert forall|q: int| 0 <= q < orbs.len() implies (#[trigger] r.labels_of()[q]).relation_id_of() < rels@.len()
                && rels@[r.labels_of()[q].relation_id_of() as int] == r.orbits_of()[q][0] by {
                assert(r.orbits_of()[q] == orbits@[q]@);
            }
        }
        r
    }

    /// Returns the underlying lattice, forgetting the group action.
    pub fn lattice(&self) -> (r: &Arc<Lattice<A>>)
        requires
            self.wf(),
        ensures
            **r == self.lattice_of(),
    {
        self.underlying_transfer_universe.lattice()
    }

    /// Returns the ordinary transfer universe of the underlying lattice.
    pub fn underlying_transfer_universe(&self) -> (r: &Arc<TransferUniverse<A>>)
        ensures
            **r == self.underlying_of(),
    {
        &self.underlying_transfer_universe
    }

    /// Returns the formal context whose closed object sets are the
    /// G-transfer systems; its objects are the representatives of the
    /// orbits.
    pub fn context(&self) -> (r: &FormalContext<Edge, Edge>)
        requires
            self.wf(),
        ensures
            context_incidence(*r) == self.context_rows(),
            context_attribute_count(*r) == self.orbits_of().len(),
            context_objects(*r) == orbit_representatives(self.orbits_of()),
            context_attributes(*r) == attribute_representatives(self.orbits_of(), self.attrs_of()),
            in_target_major_order(self.orbits_of(), self.attrs_of()),
    {
        &self.context
    }

    /// Returns the labels of the orbits of proper relations, in bit order.
    pub fn relation_orbit_labels(&self) -> (r: &[RelationOrbitLabel])
        ensures
            r@ == self.labels_of(),
    {
        &self.labels
    }

    /// Returns all relations of the orbit with the given label position.
    pub fn relation_orbit_relations(&self, orbit_label_id: usize) -> (r: Option<&[Edge]>)
        ensures
            match r {
                Some(es) => orbit_label_id < self.orbits_of().len() && es@ == self.orbits_of()[orbit_label_id as int],
                None => orbit_label_id >= self.orbits_of().len(),
            },
    {
        if orbit_label_id < self.relation_orbits.len() {
            Some(self.relation_orbits[orbit_label_id].as_slice())
        } else {
            None
        }
    }

    /// The position of the orbit holding `relation`, if any.
    pub(crate) fn relation_orbit_label_id(&self, relation: Edge) -> (r: Option<usize>)
        requires
            self.wf(),
        ensures
            match r {
                Some(i) => i < self.orbits_of().len() && self.orbits_of()[i as int].contains(relation),
                None => !crate::orbit_theory::in_family(self.orbits_of(), relation),
            },
    {
        let ghost t = table_of(self.relation_to_orbit_label@);
        let n = self.lattice().size();
        if relation.from < n && relation.to < n {
            assert(t[relation.from as int] == self.relation_to_orbit_label@[relation.from as int]@);
            table_lookup(&self.relation_to_orbit_label, relation)
        } else {
            proof {
                if crate::orbit_theory::in_family(self.orbits_of(), relation) {
                    let (i, k) = choose|i: int, k: int| 0 <= i < self.orbits_of().len() && 0 <= k < self.orbits_of()[i].len() && self.orbits_of()[i][k] == relation;
                    assert(crate::orbit_theory::is_proper(self.lattice_of(), self.orbits_of()[i][k]));
                }
            }
            None
        }
    }

    /// Closes a correctly sized orbit bit vector: the extent of its intent
    /// in the orbit context.
    pub(crate) fn close_orbit_arrows(&self, orbit_arrows: &Bits) -> (r: Bits)
        requires
            self.wf(),
            orbit_arrows@.len() == self.orbits_of().len(),
        ensures
            r@ == closure_of(self.context_rows(), self.attrs_of().len(), orbit_arrows@),
    {
        let intent = formal_context_induce_r(&self.context, orbit_arrows);
        formal_context_induce_l(&self.context, &intent)
    }
}

/// A transfer system on a G-lattice together with the universe that
/// interprets it.
pub struct GTransferSystem<A> {
    raw: RawGTransferSystem,
    universe: Arc<GTransferUniverse<A>>,
}

impl<A> GTransferSystem<A> {
    /// The universe that interprets this system.
    pub closed spec fn universe_of(&self) -> GTransferUniverse<A> {
        *self.universe
    }

    /// Pairs a closed selection of orbits with its universe.
    pub(crate) fn from_raw_parts(raw: RawGTransferSystem, universe: Arc<GTransferUniverse<A>>) -> (r: Self)
        requires
            universe.wf(),
            universe.is_system_bits(raw.bits()),
        ensures
            r.wf(),
            r.universe_of() == *universe,
            r.bits() == raw.bits(),
    {
        GTransferSystem { raw, universe }
    }

    /// The selected orbits.
    pub closed spec fn bits(&self) -> Seq<bool> {
        self.raw.bits()
    }

    /// The relations of the system: the identities and the selected orbits.
    pub open spec fn relation_set(&self) -> Set<Edge> {
        system_of_orbits(self.universe_of().orbits_of(), self.bits(), self.universe_of().lattice_of().card())
    }

    /// A well-formed G-transfer system: a closed selection of orbits.
    pub open spec fn wf(&self) -> bool {
        &&& self.universe_of().wf()
        &&& self.universe_of().is_system_bits(self.bits())
    }

    /// Returns the raw bit vector representation.
    pub fn raw(&self) -> (r: &RawGTransferSystem)
        ensures
            r.bits() == self.bits(),
    {
        &self.raw
    }

    /// Returns the ambient universe.
    pub fn universe(&self) -> (r: &Arc<GTransferUniverse<A>>)
        ensures
            **r == self.universe_of(),
    {
        &self.universe
    }

    /// Returns the underlying lattice, forgetting the group action.
    pub fn lattice(&self) -> (r: &Arc<Lattice<A>>)
        requires
            self.wf(),
        ensures
            **r == self.universe_of().lattice_of(),
    {
        self.universe.lattice()
    }

    /// Returns whether a relation belongs to this G-transfer system: every
    /// in-range identity does; a proper relation does when its orbit is
    /// selected; non-relations and out-of-range edges do not.
    pub fn contains_relation(&self, relation: Edge) -> (r: bool)
        requires
            self.wf(),
        ensures
            r == self.relation_set().contains(relation),
    {
        let ghost orbs = self.universe_of().orbits_of();
        if relation.is_identity() {
            proof {
                if self.relation_set().contains(relation) && relation.from >= self.universe_of().lattice_of().card() {
                    let i = choose|i: int| 0 <= i < orbs.len() && self.bits()[i] && #[trigger] orbs[i].contains(relation);
                    let k = choose|k: int| 0 <= k < orbs[i].len() && orbs[i][k] == relation;
                    assert(crate::orbit_theory::is_proper(self.universe_of().lattice_of(), orbs[i][k]));
                }
            }
            return relation.from < self.lattice().size();
        }
        match self.universe.relation_orbit_label_id(relation) {
            Some(i) => {
                let b = self.raw.orbit_arrows().bit(i);
                proof {
                    if self.relation_set().contains(relation) {
                        let j = choose|j: int| 0 <= j < orbs.len() && self.bits()[j] && #[trigger] orbs[j].contains(relation);
                        let k = choose|k: int| 0 <= k < orbs[j].len() && orbs[j][k] == relation;
                        let t = choose|t: int| 0 <= t < orbs[i as int].len() && orbs[i as int][t] == relation;
                        assert(orbs[j][k] == orbs[i as int][t]);
                    }
                }
                b
            },
            None => {
                proof {
                    if self.relation_set().contains(relation) {
                        let j = choose|j: int| 0 <= j < orbs.len() && self.bits()[j] && #[trigger] orbs[j].contains(relation);
                        let k = choose|k: int| 0 <= k < orbs[j].len() && orbs[j][k] == relation;
                        assert(crate::orbit_theory::in_family(orbs, relation));
                    }
                }
                false
            },
        }
    }
}

/// The relations of a well-formed G-transfer system form a transfer system
/// on the underlying lattice, made of whole orbits.
pub proof fn lemma_g_transfer_system_valid<A>(ts: GTransferSystem<A>)
    requires
        ts.wf(),
    ensures
        is_transfer_system(ts.universe_of().lattice_of(), ts.relation_set()),
{
    let u = ts.universe_of();
    lemma_orbit_closed_iff(u.lattice_of(), u.underlying_of().edges_of(), u.orbits_of(), u.attrs_of(), ts.bits());
}

/// The labels of the selected orbits below `j`, in order.
pub open spec fn selected_labels(labels: Seq<RelationOrbitLabel>, bits: Seq<bool>, j: int) -> Seq<RelationOrbitLabel>
    decreases j,
{
    if j <= 0 {
        Seq::empty()
    } else if bits[j - 1] {
        selected_labels(labels, bits, j - 1).push(labels[j - 1])
    } else {
        selected_labels(labels, bits, j - 1)
    }
}

/// `q` holds either all or none of the relations of each orbit.
pub open spec fn orbit_closed(orbs: Seq<Seq<Edge>>, q: Set<Edge>) -> bool {
    forall|i: int, k: int, t: int|
        0 <= i < orbs.len() && 0 <= k < orbs[i].len() && 0 <= t < orbs[i].len() && #[trigger] q.contains(orbs[i][k])
            ==> #[trigger] q.contains(orbs[i][t])
}

/// The generators up to `k` select orbit `i`.
pub open spec fn selected_by(orbs: Seq<Seq<Edge>>, generators: Seq<Edge>, k: int, i: int) -> bool {
    exists|j: int| 0 <= j < k && generators[j].from != generators[j].to && #[trigger] orbs[i].contains(generators[j])
}

impl<A> GTransferUniverse<A> {
    /// The orbits selected by the proper generators; the first generator
    /// outside the lattice, or proper but not a relation, is reported.
    fn generator_orbit_bits(&self, generators: &Vec<Edge>) -> (r: Result<Bits, GTransferSystemError>)
        requires
            self.wf(),
        ensures
            match r {
                Ok(arrows) => {
                    &&& arrows@.len() == self.orbits_of().len()
                    &&& forall|j: int| 0 <= j < generators@.len() ==> #[trigger] generator_ok(self.lattice_of(), generators@[j])
                    &&& forall|i: int| 0 <= i < arrows@.len() ==> (arrows@[i] <==> #[trigger] selected_by(self.orbits_of(), generators@, generators@.len() as int, i))
                },
                Err(GTransferSystemError::EdgeOutOfBounds { edge, lattice_size }) => {
                    &&& lattice_size == self.lattice_of().card()
                    &&& (edge.from >= lattice_size || edge.to >= lattice_size)
                    &&& exists|k: int| 0 <= k < generators@.len() && generators@[k] == edge && forall|j: int|
                        0 <= j < k ==> #[trigger] generator_ok(self.lattice_of(), generators@[j])
                },
                Err(GTransferSystemError::NotLatticeRelation { edge }) => {
                    &&& edge.from < self.lattice_of().card()
                    &&& edge.to < self.lattice_of().card()
                    &&& edge.from != edge.to
                    &&& !self.lattice_of().le(edge.from as int, edge.to as int)
                    &&& exists|k: int| 0 <= k < generators@.len() && generators@[k] == edge && forall|j: int|
                        0 <= j < k ==> #[trigger] generator_ok(self.lattice_of(), generators@[j])
                },
                Err(_) => false,
            },
    {
        let ghost l = self.lattice_of();
        let ghost orbs = self.orbits_of();
        let lattice_size = self.lattice().size();
        let count = self.relation_orbits.len();
        let mut arrows = Bits::repeat(false, count);
        let mut k: usize = 0;
        while k < generators.len()
            invariant
                self.wf(),
                l == self.lattice_of(),
                orbs == self.orbits_of(),
                lattice_size == l.card(),
                count == orbs.len(),
                k <= generators@.len(),
                arrows@.len() == count,
                forall|j: int| 0 <= j < k ==> #[trigger] generator_ok(l, generators@[j]),
                forall|i: int| 0 <= i < count ==> (arrows@[i] <==> #[trigger] selected_by(orbs, generators@, k as int, i)),
            decreases generators@.len() - k,
        {
            let edge = generators[k];
            if edge.from >= lattice_size || edge.to >= lattice_size {
                return Err(GTransferSystemError::EdgeOutOfBounds { edge, lattice_size });
            }
            let ghost before = arrows@;
            if !edge.is_identity() {
                match self.relation_orbit_label_id(edge) {
                    None => {
                        proof {
                            if l.le(edge.from as int, edge.to as int) {
                                assert(crate::orbit_theory::is_proper(l, edge));
                            }
                        }
                        return Err(GTransferSystemError::NotLatticeRelation { edge });
                    },
                    Some(id) => {
                        arrows.set(id, true);
                        proof {
                            let t = choose|t: int| 0 <= t < orbs[id as int].len() && orbs[id as int][t] == edge;
                            assert(crate::orbit_theory::is_proper(l, orbs[id as int][t]));
                            assert forall|i: int| 0 <= i < count implies (arrows@[i] <==> #[trigger] selected_by(orbs, generators@, k + 1, i)) by {
                                if selected_by(orbs, generators@, k + 1, i) && !selected_by(orbs, generators@, k as int, i) {
                                    let j = choose|j: int| 0 <= j < k + 1 && generators@[j].from != generators@[j].to && #[trigger] orbs[i].contains(generators@[j]);
                                    assert(j == k);
                                    let u = choose|u: int| 0 <= u < orbs[i].len() && orbs[i][u] == edge;
                                    assert(orbs[i][u] == orbs[id as int][t]);
                                }
                                if i == id {
                                    assert(orbs[i].contains(generators@[k as int]));
                                }
                                if selected_by(orbs, generators@, k as int, i) {
                                    let j = choose|j: int| 0 <= j < k && generators@[j].from != generators@[j].to && #[trigger] orbs[i].contains(generators@[j]);
                                    assert(0 <= j < k + 1);
                                }
                            }
                        }
                    },
                }
            } else {
                proof {
                    assert forall|i: int| 0 <= i < count implies (arrows@[i] <==> #[trigger] selected_by(orbs, generators@, k + 1, i)) by {
                        if selected_by(orbs, generators@, k + 1, i) {
                            let j = choose|j: int| 0 <= j < k + 1 && generators@[j].from != generators@[j].to && #[trigger] orbs[i].contains(generators@[j]);
                            assert(j < k);
                        }
                        if selected_by(orbs, generators@, k as int, i) {
                            let j = choose|j: int| 0 <= j < k && generators@[j].from != generators@[j].to && #[trigger] orbs[i].contains(generators@[j]);
                            assert(0 <= j < k + 1);
                        }
                    }
                }
            }
            k += 1;
        }
        Ok(arrows)
    }

    /// Constructs the G-transfer system generated by the supplied relations.
    ///
    /// Identity relations may be supplied; they belong to every system.  A
    /// proper relation selects its whole orbit.  Every generator must lie in
    /// the lattice, and every non-identity generator must be a relation of
    /// its order; the first generator that fails is reported.  The result is
    /// the least transfer system made of whole orbits that contains the
    /// generators.
    pub fn generated_by(self: &Arc<Self>, generators: Vec<Edge>) -> (r: Result<GTransferSystem<A>, GTransferSystemError>)
        requires
            self.wf(),
        ensures
            match r {
                Ok(ts) => {
                    &&& ts.wf()
                    &&& ts.universe_of() == **self
                    &&& is_transfer_system(self.lattice_of(), ts.relation_set())
                    &&& orbit_closed(self.orbits_of(), ts.relation_set())
                    &&& forall|k: int| 0 <= k < generators@.len() ==> ts.relation_set().contains(#[trigger] generators@[k])
                    &&& forall|q: Set<Edge>|
                        #[trigger] is_transfer_system(self.lattice_of(), q) && orbit_closed(self.orbits_of(), q) && (forall|k: int|
                            0 <= k < generators@.len() ==> q.contains(#[trigger] generators@[k])) ==> ts.relation_set().subset_of(q)
                },
                Err(GTransferSystemError::EdgeOutOfBounds { edge, lattice_size }) => {
                    &&& lattice_size == self.lattice_of().card()
                    &&& (edge.from >= lattice_size || edge.to >= lattice_size)
                    &&& exists|k: int| 0 <= k < generators@.len() && generators@[k] == edge && forall|j: int|
                        0 <= j < k ==> #[trigger] generator_ok(self.lattice_of(), generators@[j])
                },
                Err(GTransferSystemError::NotLatticeRelation { edge }) => {
                    &&& edge.from < self.lattice_of().card()
                    &&& edge.to < self.lattice_of().card()
                    &&& edge.from != edge.to
                    &&& !self.lattice_of().le(edge.from as int, edge.to as int)
                    &&& exists|k: int| 0 <= k < generators@.len() && generators@[k] == edge && forall|j: int|
                        0 <= j < k ==> #[trigger] generator_ok(self.lattice_of(), generators@[j])
                },
                Err(_) => false,
            },
    {
        let arrows = match self.generator_orbit_bits(&generators) {
            Ok(a) => a,
            Err(e) => {
                return Err(e);
            },
        };
        let ghost l = self.lattice_of();
        let ghost orbs = self.orbits_of();
        let ghost k = generators@.len();
        let closed = self.close_orbit_arrows(&arrows);
        let ghost sel = arrows@;
        let ghost c = closed@;
        let ghost n = l.card();
        let ghost p = self.underlying_of().edges_of();
        proof {
            let mm = self.context_rows();
            lemma_orbit_closure_least(l, p, orbs, self.attrs_of(), sel);
            crate::transfer_theory::lemma_closure_idempotent(mm, self.attrs_of().len(), sel);
            assert(orbit_closed(orbs, system_of_orbits(orbs, c, n))) by {
                assert forall|i: int, a: int, b: int|
                    0 <= i < orbs.len() && 0 <= a < orbs[i].len() && 0 <= b < orbs[i].len() && #[trigger] system_of_orbits(orbs, c, n).contains(orbs[i][a])
                        implies #[trigger] system_of_orbits(orbs, c, n).contains(orbs[i][b]) by {
                    assert(crate::orbit_theory::is_proper(l, orbs[i][a]));
                    let j = choose|j: int| 0 <= j < orbs.len() && c[j] && #[trigger] orbs[j].contains(orbs[i][a]);
                    let u = choose|u: int| 0 <= u < orbs[j].len() && orbs[j][u] == orbs[i][a];
                    assert(orbs[j][u] == orbs[i][a]);
                    assert(orbs[i].contains(orbs[i][b]));
                }
            }
            assert forall|g: int| 0 <= g < generators@.len() implies system_of_orbits(orbs, c, n).contains(#[trigger] generators@[g]) by {
                let e = generators@[g];
                assert(generator_ok(l, e));
                if e.from != e.to {
                    assert(crate::orbit_theory::is_proper(l, e));
                    let (i, t) = crate::orbit_theory::lemma_locate(l, orbs, e);
                    assert(orbs[i].contains(e));
                    assert(selected_by(orbs, generators@, k as int, i));
                    assert(sel[i]);
                }
            }
            assert forall|q: Set<Edge>|
                #[trigger] is_transfer_system(l, q) && orbit_closed(orbs, q) && (forall|g: int|
                    0 <= g < generators@.len() ==> q.contains(#[trigger] generators@[g])) implies system_of_orbits(orbs, c, n).subset_of(q) by {
                assert forall|e: Edge| system_of_orbits(orbs, sel, n).contains(e) implies q.contains(e) by {
                    if e.from == e.to && e.from < n {
                        crate::transfer_theory::lemma_ts_identity(l, q, e.from as usize);
                    } else {
                        let i = choose|i: int| 0 <= i < orbs.len() && sel[i] && #[trigger] orbs[i].contains(e);
                        assert(selected_by(orbs, generators@, k as int, i));
                        let j = choose|j: int| 0 <= j < k && generators@[j].from != generators@[j].to && #[trigger] orbs[i].contains(generators@[j]);
                        let a = choose|a: int| 0 <= a < orbs[i].len() && orbs[i][a] == generators@[j];
                        let b = choose|b: int| 0 <= b < orbs[i].len() && orbs[i][b] == e;
                        assert(q.contains(orbs[i][a]));
                    }
                }
            }
        }
        let raw = RawGTransferSystem::new(closed);
        Ok(GTransferSystem { raw, universe: crate::shared::arc_clone(self) })
    }

    /// Validates raw orbit data and pairs it with this universe: the vector
    /// must have one bit per orbit of proper relations and must already be
    /// closed under the G-transfer-system axioms.
    pub fn try_from_raw(self: &Arc<Self>, raw: RawGTransferSystem) -> (r: Result<GTransferSystem<A>, GTransferSystemError>)
        requires
            self.wf(),
        ensures
            match r {
                Ok(ts) => ts.wf() && ts.universe_of() == **self && ts.bits() == raw.bits(),
                Err(GTransferSystemError::WrongOrbitCount { expected, actual }) => expected == self.orbits_of().len() && actual
                    == raw.bits().len() && expected != actual,
                Err(GTransferSystemError::RawNotClosed) => raw.bits().len() == self.orbits_of().len() && !is_transfer_system(
                    self.lattice_of(),
                    system_of_orbits(self.orbits_of(), raw.bits(), self.lattice_of().card()),
                ),
                Err(_) => false,
            },
    {
        let expected = self.relation_orbits.len();
        let actual = raw.orbit_arrows().len();
        if actual != expected {
            return Err(GTransferSystemError::WrongOrbitCount { expected, actual });
        }
        let closed = self.close_orbit_arrows(raw.orbit_arrows());
        proof {
            lemma_orbit_closed_iff(self.lattice_of(), self.underlying_of().edges_of(), self.orbits_of(), self.attrs_of(), raw.bits());
        }
        if !crate::bits::equal_bits(&closed, raw.orbit_arrows()) {
            return Err(GTransferSystemError::RawNotClosed);
        }
        Ok(GTransferSystem { raw, universe: crate::shared::arc_clone(self) })
    }

    /// Enumerates all G-transfer systems in this universe, each once.
    pub fn transfer_systems(self: &Arc<Self>) -> (r: Vec<GTransferSystem<A>>)
        requires
            self.wf(),
        ensures
            forall|i: int| 0 <= i < r@.len() ==> (#[trigger] r@[i]).wf() && r@[i].universe_of() == **self,
            forall|i: int, j: int| 0 <= i < j < r@.len() ==> (#[trigger] r@[i]).bits() != (#[trigger] r@[j]).bits(),
            forall|s: Seq<bool>| #[trigger] self.is_system_bits(s) ==> exists|i: int| 0 <= i < r@.len() && (#[trigger] r@[i]).bits() == s,
    {
        let extents = formal_context_concept_extents(&self.context);
        let mut result: Vec<GTransferSystem<A>> = Vec::new();
        let mut i: usize = 0;
        while i < extents.len()
            invariant
                self.wf(),
                i <= extents@.len(),
                result@.len() == i,
                forall|k: int|
                    0 <= k < extents@.len() ==> (#[trigger] extents@[k])@.len() == context_incidence(self.context).len()
                        && is_closed(context_incidence(self.context), context_attribute_count(self.context), extents@[k]@),
                forall|k: int| 0 <= k < i ==> (#[trigger] result@[k]).wf() && result@[k].universe_of() == **self && result@[k].bits() == extents@[k]@,
            decreases extents@.len() - i,
        {
            let raw = RawGTransferSystem::new(extents[i].duplicate());
            result.push(GTransferSystem { raw, universe: crate::shared::arc_clone(self) });
            i += 1;
        }
        proof {
            assert forall|a: int, b: int| 0 <= a < b < result@.len() implies (#[trigger] result@[a]).bits() != (#[trigger] result@[b]).bits() by {
                assert(extents@[a]@ != extents@[b]@);
            }
            assert forall|s: Seq<bool>| #[trigger] self.is_system_bits(s) implies exists|i: int| 0 <= i < result@.len() && (#[trigger] result@[i]).bits() == s by {
                assert(is_closed(context_incidence(self.context), context_attribute_count(self.context), s));
                let i = choose|i: int| 0 <= i < extents@.len() && (#[trigger] extents@[i])@ == s;
                assert(result@[i].bits() == s);
            }
        }
        result
    }
}

impl<A> GTransferSystem<A> {
    /// Returns the labels of the selected orbits, in bit order.
    pub fn relation_orbit_labels(&self) -> (r: Vec<RelationOrbitLabel>)
        requires
            self.wf(),
        ensures
            r@ == selected_labels(self.universe_of().labels_of(), self.bits(), self.bits().len() as int),
    {
        let arrows = self.raw.orbit_arrows();
        let labels = self.universe.relation_orbit_labels();
        let mut result: Vec<RelationOrbitLabel> = Vec::new();
        let mut j: usize = 0;
        while j < arrows.len()
            invariant
                self.wf(),
                arrows@ == self.bits(),
                labels@ == self.universe_of().labels_of(),
                labels@.len() == arrows@.len(),
                j <= arrows@.len(),
                result@ == selected_labels(labels@, arrows@, j as int),
            decreases arrows@.len() - j,
        {
            if arrows.bit(j) {
                result.push(labels[j]);
            }
            j += 1;
        }
        result
    }

    /// Returns the relations of this G-transfer system, with the identities
    /// `x <= x` when `include_identities` holds.
    pub fn relations(&self, include_identities: bool) -> (r: EdgeSet)
        requires
            self.wf(),
        ensures
            forall|e: Edge| #[trigger] r@.contains(e) <==> (self.relation_set().contains(e) && (include_identities || e.from != e.to)),
    {
        let ghost orbs = self.universe_of().orbits_of();
        let ghost n = self.universe_of().lattice_of().card();
        let mut result = EdgeSet::new();
        if include_identities {
            let size = self.lattice().size();
            let mut id: usize = 0;
            while id < size
                invariant
                    size == n,
                    id <= size,
                    forall|e: Edge| #[trigger] result@.contains(e) <==> (e.from == e.to && e.from < id),
                decreases size - id,
            {
                result.insert(Edge::new(id, id));
                id += 1;
            }
        }
        let arrows = self.raw.orbit_arrows();
        let mut i: usize = 0;
        while i < arrows.len()
            invariant
                self.wf(),
                orbs == self.universe_of().orbits_of(),
                n == self.universe_of().lattice_of().card(),
                arrows@ == self.bits(),
                arrows@.len() == orbs.len(),
                i <= orbs.len(),
                forall|e: Edge| #[trigger] result@.contains(e) <==> ((include_identities && e.from == e.to && e.from < n) || exists|j: int|
                    0 <= j < i && arrows@[j] && #[trigger] orbs[j].contains(e)),
            decreases orbs.len() - i,
        {
            if arrows.bit(i) {
                let orbit = self.universe.relation_orbit_relations(i).unwrap();
                let mut k: usize = 0;
                while k < orbit.len()
                    invariant
                        orbit@ == orbs[i as int],
                        i < orbs.len(),
                        arrows@[i as int],
                        k <= orbit@.len(),
                        forall|e: Edge| #[trigger] result@.contains(e) <==> ((include_identities && e.from == e.to && e.from < n) || (exists|j: int|
                            0 <= j < i && arrows@[j] && #[trigger] orbs[j].contains(e)) || exists|t: int| 0 <= t < k && orbit@[t] == e),
                    decreases orbit@.len() - k,
                {
                    result.insert(orbit[k]);
                    k += 1;
                }
                proof {
                    assert forall|e: Edge| #[trigger] result@.contains(e) <==> ((include_identities && e.from == e.to && e.from < n) || exists|j: int|
                        0 <= j < i + 1 && arrows@[j] && #[trigger] orbs[j].contains(e)) by {
                        if exists|t: int| 0 <= t < orbit@.len() && orbit@[t] == e {
                            assert(orbs[i as int].contains(e));
                        }
                        if exists|j: int| 0 <= j < i + 1 && arrows@[j] && #[trigger] orbs[j].contains(e) {
                            let j = choose|j: int| 0 <= j < i + 1 && arrows@[j] && #[trigger] orbs[j].contains(e);
                            if j == i {
                                let t = choose|t: int| 0 <= t < orbs[j].len() && orbs[j][t] == e;
                                assert(orbit@[t] == e);
                            }
                        }
                    }
                }
            } else {
                proof {
                    assert forall|e: Edge| #[trigger] result@.contains(e) <==> ((include_identities && e.from == e.to && e.from < n) || exists|j: int|
                        0 <= j < i + 1 && arrows@[j] && #[trigger] orbs[j].contains(e)) by {
                        if exists|j: int| 0 <= j < i + 1 && arrows@[j] && #[trigger] orbs[j].contains(e) {
                            let j = choose|j: int| 0 <= j < i + 1 && arrows@[j] && #[trigger] orbs[j].contains(e);
                            assert(j != i);
                        }
                    }
                }
            }
            i += 1;
        }
        proof {
            assert forall|e: Edge| #[trigger] result@.contains(e) <==> (self.relation_set().contains(e) && (include_identities || e.from != e.to)) by {
                if exists|j: int| 0 <= j < orbs.len() && self.bits()[j] && #[trigger] orbs[j].contains(e) {
                    let j = choose|j: int| 0 <= j < orbs.len() && self.bits()[j] && #[trigger] orbs[j].contains(e);
                    let t = choose|t: int| 0 <= t < orbs[j].len() && orbs[j][t] == e;
                    assert(crate::orbit_theory::is_proper(self.universe_of().lattice_of(), orbs[j][t]));
                }
            }
        }
        result
    }
}

/// The position that exchanging positions `0` and `m` sends `k` to.
pub open spec fn exchanged(k: int, m: int) -> int {
    if k == 0 {
        m
    } else if k == m {
        0
    } else {
        k
    }
}

/// The relations of `orbit`, reversed, with positions `0` and `m`
/// exchanged.
pub open spec fn exchanged_reversal(orbit: Seq<Edge>, m: int) -> Seq<Edge> {
    Seq::new(orbit.len(), |k: int| crate::cotransfer_lattice::reversed(orbit[exchanged(k, m)]))
}

/// `o` is `orbit` with every relation reversed, led by the reversal that
/// comes first in row-major order: the reversals, with the first and the
/// leading one exchanged.
pub open spec fn is_reversed_orbit(o: Seq<Edge>, orbit: Seq<Edge>) -> bool {
    exists|m: int|
        0 <= m < orbit.len() && o == exchanged_reversal(orbit, m) && forall|k: int|
            0 <= k < orbit.len() && k != m ==> crate::order::edge_lt(
                crate::cotransfer_lattice::reversed(orbit[m]),
                #[trigger] crate::cotransfer_lattice::reversed(orbit[k]),
            )
}

/// `rels` lists every relation of `l` once, in row-major order.
pub open spec fn lists_relations<A>(l: Lattice<A>, rels: Seq<Edge>) -> bool {
    &&& crate::order::row_major(rels)
    &&& forall|k: int| 0 <= k < rels.len() ==> (#[trigger] rels[k]).from < l.card() && rels[k].to < l.card() && l.le(rels[k].from as int, rels[k].to as int)
    &&& forall|e: Edge| e.from < l.card() && e.to < l.card() && l.le(e.from as int, e.to as int) ==> rels.contains(e)
}

/// The position in `orbit` whose reversal comes first in row-major order.
fn least_reversal(orbit: &Vec<Edge>) -> (m: usize)
    requires
        orbit@.len() > 0,
        forall|a: int, b: int| 0 <= a < orbit@.len() && 0 <= b < orbit@.len() && a != b ==> orbit@[a] != orbit@[b],
    ensures
        m < orbit@.len(),
        forall|k: int|
            0 <= k < orbit@.len() && k != m ==> crate::order::edge_lt(reversed(orbit@[m as int]), #[trigger] reversed(orbit@[k])),
{
    let mut m: usize = 0;
    let mut k: usize = 1;
    while k < orbit.len()
        invariant
            1 <= k <= orbit@.len(),
            m < k,
            forall|a: int, b: int| 0 <= a < orbit@.len() && 0 <= b < orbit@.len() && a != b ==> orbit@[a] != orbit@[b],
            forall|q: int| 0 <= q < k && q != m ==> crate::order::edge_lt(reversed(orbit@[m as int]), #[trigger] reversed(orbit@[q])),
        decreases orbit@.len() - k,
    {
        let candidate = orbit[k];
        let current = orbit[m];
        if candidate.to < current.to || (candidate.to == current.to && candidate.from < current.from) {
            m = k;
        } else {
            assert(orbit@[k as int] != orbit@[m as int]);
        }
        k += 1;
    }
    m
}

/// The relations of `orbit`, reversed, with positions `0` and `m`
/// exchanged.
fn reversed_orbit(orbit: &Vec<Edge>, m: usize) -> (r: Vec<Edge>)
    requires
        m < orbit@.len(),
    ensures
        r@ == exchanged_reversal(orbit@, m as int),
{
    let mut r: Vec<Edge> = Vec::new();
    let mut k: usize = 0;
    while k < orbit.len()
        invariant
            m < orbit@.len(),
            k <= orbit@.len(),
            r@.len() == k,
            forall|q: int| 0 <= q < k ==> #[trigger] r@[q] == reversed(orbit@[exchanged(q, m as int)]),
        decreases orbit@.len() - k,
    {
        let source = if k == 0 {
            m
        } else if k == m {
            0
        } else {
            k
        };
        r.push(crate::cotransfer_lattice::reverse(orbit[source]));
        k += 1;
    }
    assert(r@ =~= exchanged_reversal(orbit@, m as int));
    r
}

/// Lifting in the opposite lattice is lifting in the lattice with the
/// sides exchanged.
proof fn lemma_opposite_lifts<A, B>(l: Lattice<A>, op: Lattice<B>, a: Edge, b: Edge)
    requires
        crate::cotransfer_lattice::is_opposite(op, l),
        a.from < l.card() && a.to < l.card(),
        b.from < l.card() && b.to < l.card(),
    ensures
        crate::order::lifts(op.order(), crate::cotransfer_lattice::reversed(a), crate::cotransfer_lattice::reversed(b))
            == crate::order::lifts(l.order(), b, a),
{
    assert(op.le(a.to as int, b.to as int) == l.le(b.to as int, a.to as int));
    assert(op.le(a.from as int, b.from as int) == l.le(b.from as int, a.from as int));
    assert(op.le(a.from as int, b.to as int) == l.le(b.to as int, a.from as int));
}

/// Reversing every relation of a family of orbits, with one exchange of
/// positions in each class, gives a family of orbits of the opposite
/// lattice with the same uniformity of lifting.
proof fn lemma_reversed_family<A, B>(l: Lattice<A>, op: Lattice<B>, orbs: Seq<Seq<Edge>>, rorbs: Seq<Seq<Edge>>, ms: Seq<int>)
    requires
        crate::cotransfer_lattice::is_opposite(op, l),
        orbit_family(l, orbs),
        uniform_family(l, orbs),
        rorbs.len() == orbs.len(),
        ms.len() == orbs.len(),
        forall|i: int| 0 <= i < orbs.len() ==> 0 <= #[trigger] ms[i] < orbs[i].len() && rorbs[i] == exchanged_reversal(orbs[i], ms[i]),
    ensures
        orbit_family(op, rorbs),
        uniform_family(op, rorbs),
{
    assert forall|i: int, k: int| 0 <= i < rorbs.len() && 0 <= k < rorbs[i].len() implies (#[trigger] rorbs[i][k]
        == reversed(orbs[i][exchanged(k, ms[i])]) && 0 <= exchanged(k, ms[i]) < orbs[i].len()) by {
        assert(0 <= ms[i] < orbs[i].len());
    }
    assert forall|i: int| 0 <= i < rorbs.len() implies (#[trigger] rorbs[i]).len() > 0 by {
        assert(orbs[i].len() > 0);
        assert(0 <= ms[i] < orbs[i].len());
    }
    assert forall|i: int, k: int| 0 <= i < rorbs.len() && 0 <= k < rorbs[i].len() implies is_proper(op, #[trigger] rorbs[i][k]) by {
        let e = orbs[i][exchanged(k, ms[i])];
        assert(is_proper(l, e));
        assert(op.le(e.to as int, e.from as int) == l.le(e.from as int, e.to as int));
    }
    assert forall|i: int, j: int, k: int, t: int|
        0 <= i < rorbs.len() && 0 <= j < rorbs.len() && 0 <= k < rorbs[i].len() && 0 <= t < rorbs[j].len()
            && #[trigger] rorbs[i][k] == #[trigger] rorbs[j][t] implies i == j && k == t by {
        let a = orbs[i][exchanged(k, ms[i])];
        let b = orbs[j][exchanged(t, ms[j])];
        assert(reversed(a) == reversed(b));
        assert(a == b);
        assert(orbs[i][exchanged(k, ms[i])] == orbs[j][exchanged(t, ms[j])]);
    }
    assert forall|e: Edge| is_proper(op, e) implies #[trigger] in_family(rorbs, e) by {
        let f = reversed(e);
        assert(op.le(e.from as int, e.to as int) == l.le(e.to as int, e.from as int));
        assert(is_proper(l, f));
        assert(in_family(orbs, f));
        let (i, k) = choose|i: int, k: int| 0 <= i < orbs.len() && 0 <= k < orbs[i].len() && orbs[i][k] == f;
        let q = exchanged(k, ms[i]);
        assert(exchanged(q, ms[i]) == k);
        assert(rorbs[i][q] == e);
    }
    assert forall|i: int, j: int| 0 <= i < rorbs.len() && 0 <= j < rorbs.len() implies #[trigger] uniform_pair(op, rorbs, i, j) by {
        assert(uniform_pair(l, orbs, i, j));
        assert forall|k: int| 0 <= k < rorbs[j].len() implies (all_lift_into(op, rorbs[i], #[trigger] rorbs[j][k])
            == lifts_into_all(l, orbs[j][exchanged(k, ms[j])], orbs[i])) && (lifts_into_all(op, rorbs[j][k], rorbs[i])
            == all_lift_into(l, orbs[i], orbs[j][exchanged(k, ms[j])])) by {
            let b = orbs[j][exchanged(k, ms[j])];
            assert(is_proper(l, b));
            assert forall|q: int| 0 <= q < rorbs[i].len() implies #[trigger] crate::order::lifts(op.order(), rorbs[i][q], rorbs[j][k])
                == crate::order::lifts(l.order(), b, orbs[i][exchanged(q, ms[i])]) by {
                assert(is_proper(l, orbs[i][exchanged(q, ms[i])]));
                lemma_opposite_lifts(l, op, orbs[i][exchanged(q, ms[i])], b);
            }
            assert forall|q: int| 0 <= q < rorbs[i].len() implies #[trigger] crate::order::lifts(op.order(), rorbs[j][k], rorbs[i][q])
                == crate::order::lifts(l.order(), orbs[i][exchanged(q, ms[i])], b) by {
                assert(is_proper(l, orbs[i][exchanged(q, ms[i])]));
                lemma_opposite_lifts(l, op, b, orbs[i][exchanged(q, ms[i])]);
            }
            if all_lift_into(op, rorbs[i], rorbs[j][k]) {
                assert forall|q: int| 0 <= q < orbs[i].len() implies #[trigger] crate::order::lifts(l.order(), b, orbs[i][q]) by {
                    let p = exchanged(q, ms[i]);
                    assert(exchanged(p, ms[i]) == q);
                    assert(crate::order::lifts(op.order(), rorbs[i][p], rorbs[j][k]));
                }
            }
            if lifts_into_all(l, b, orbs[i]) {
                assert forall|q: int| 0 <= q < rorbs[i].len() implies #[trigger] crate::order::lifts(op.order(), rorbs[i][q], rorbs[j][k]) by {
                    assert(crate::order::lifts(l.order(), b, orbs[i][exchanged(q, ms[i])]));
                }
            }
            if lifts_into_all(op, rorbs[j][k], rorbs[i]) {
                assert forall|q: int| 0 <= q < orbs[i].len() implies #[trigger] crate::order::lifts(l.order(), orbs[i][q], b) by {
                    let p = exchanged(q, ms[i]);
                    assert(exchanged(p, ms[i]) == q);
                    assert(crate::order::lifts(op.order(), rorbs[j][k], rorbs[i][p]));
                }
            }
            if all_lift_into(l, orbs[i], b) {
                assert forall|q: int| 0 <= q < rorbs[i].len() implies #[trigger] crate::order::lifts(op.order(), rorbs[j][k], rorbs[i][q]) by {
                    assert(crate::order::lifts(l.order(), orbs[i][exchanged(q, ms[i])], b));
                }
            }
        }
        assert forall|k: int, t: int|
            #![trigger rorbs[j][k], rorbs[j][t]]
            0 <= k < rorbs[j].len() && 0 <= t < rorbs[j].len() implies (all_lift_into(op, rorbs[i], rorbs[j][k])
            <==> all_lift_into(op, rorbs[i], rorbs[j][t])) && (lifts_into_all(op, rorbs[j][k], rorbs[i]) <==> lifts_into_all(
            op,
            rorbs[j][t],
            rorbs[i],
        )) by {
            let k2 = exchanged(k, ms[j]);
            let t2 = exchanged(t, ms[j]);
            assert(orbs[j][k2] == orbs[j][k2] && orbs[j][t2] == orbs[j][t2]);
        }
    }
}

impl<A> GLattice<A> {
    /// Builds the shared universe used to enumerate transfer systems on this
    /// G-lattice.
    pub fn transfer_universe(&self) -> (r: Arc<GTransferUniverse<A>>)
        requires
            self.wf(),
        ensures
            r.wf(),
            r.lattice_of() == self.lattice_of(),
            r.orbits_of() == self.proper_orbits(),
    {
        Arc::new(GTransferUniverse::new(self))
    }

    /// Constructs the formal context whose closed object sets are the
    /// G-transfer systems: objects and attributes are the orbits of proper
    /// relations, labelled by their representatives; the objects in orbit
    /// order, the attributes in target-major order of their representatives.
    pub fn transfer_context(&self) -> (r: FormalContext<Edge, Edge>)
        requires
            self.wf(),
        ensures
            exists|attrs: Seq<usize>|
                is_permutation(attrs, self.proper_orbits().len() as int) && in_target_major_order(
                    self.proper_orbits(),
                    attrs,
                ) && context_incidence(r) == orbit_context(self.lattice_of(), self.proper_orbits(), attrs)
                    && context_attributes(r) == attribute_representatives(self.proper_orbits(), attrs),
            context_objects(r) == orbit_representatives(self.proper_orbits()),
            context_attribute_count(r) == self.proper_orbits().len(),
    {
        let universe = GTransferUniverse::new(self);
        let ghost attrs = universe.attrs_of();
        let GTransferUniverse { context, .. } = universe;
        context
    }
}

/// All closed selections of length `rows` in the context `m`.
pub open spec fn closed_sets(m: Seq<Seq<bool>>, cols: nat) -> Set<Seq<bool>> {
    Set::new(|s: Seq<bool>| s.len() == m.len() && is_closed(m, cols, s))
}

/// A list of every closed selection, each once, is as long as there are
/// closed selections.
pub proof fn lemma_listed_closed_sets(m: Seq<Seq<bool>>, cols: nat, labels: Seq<Seq<bool>>)
    requires
        lists_closed_sets(m, cols, labels),
    ensures
        closed_sets(m, cols).finite(),
        labels.len() == closed_sets(m, cols).len(),
{
    assert(labels.no_duplicates()) by {
        assert forall|i: int, j: int| 0 <= i < labels.len() && 0 <= j < labels.len() && i != j implies labels[i] != labels[j] by {
            if i < j {
                assert(labels[i] != labels[j]);
            } else {
                assert(labels[j] != labels[i]);
            }
        }
    }
    labels.unique_seq_to_set();
    assert(labels.to_set() =~= closed_sets(m, cols)) by {
        assert forall|s: Seq<bool>| #[trigger] closed_sets(m, cols).contains(s) implies labels.to_set().contains(s) by {
            let i = choose|i: int| 0 <= i < labels.len() && #[trigger] labels[i] == s;
            assert(labels.contains(s));
        }
        assert forall|s: Seq<bool>| #[trigger] labels.to_set().contains(s) implies closed_sets(m, cols).contains(s) by {
            assert(labels.contains(s));
        }
    }
    vstd::seq_lib::seq_to_set_is_finite(labels);
}

/// The bits of a sequence of raw G-transfer systems.
pub open spec fn raw_g_bits(systems: Seq<RawGTransferSystem>) -> Seq<Seq<bool>> {
    Seq::new(systems.len(), |i: int| systems[i].bits())
}

/// A lattice of transfer systems on a fixed G-lattice, ordered by
/// containment: meet is intersection, join the closure of the union.
pub struct GTransferLattice<A> {
    universe: Arc<GTransferUniverse<A>>,
    lattice: Lattice<RawGTransferSystem>,
}

impl<A> GTransferLattice<A> {
    /// The universe shared by all systems of the lattice.
    pub closed spec fn universe_of(&self) -> GTransferUniverse<A> {
        *self.universe
    }

    /// The lattice whose labels are the raw systems.
    pub closed spec fn lattice_of(&self) -> Lattice<RawGTransferSystem> {
        self.lattice
    }

    /// The bits of the system with each element id.
    pub open spec fn system_bits(&self) -> Seq<Seq<bool>> {
        raw_g_bits(self.lattice_of().labels())
    }

    /// A well-formed containment lattice: every G-transfer system once,
    /// ordered by inclusion.
    pub open spec fn wf(&self) -> bool {
        &&& self.universe_of().wf()
        &&& self.lattice_of().wf()
        &&& lists_closed_sets(self.universe_of().context_rows(), self.universe_of().attrs_of().len(), self.system_bits())
        &&& forall|i: int, j: int|
            0 <= i < self.lattice_of().card() && 0 <= j < self.lattice_of().card() ==> #[trigger] self.lattice_of().le(i, j)
                == subset_bits(self.system_bits()[i], self.system_bits()[j])
    }

    /// Returns the universe shared by all systems in this lattice.
    pub fn universe(&self) -> (r: &Arc<GTransferUniverse<A>>)
        ensures
            **r == self.universe_of(),
    {
        &self.universe
    }

    /// Returns the raw lattice whose labels are bit-vector G-transfer systems.
    pub fn raw_lattice(&self) -> (r: &Lattice<RawGTransferSystem>)
        ensures
            *r == self.lattice_of(),
    {
        &self.lattice
    }

    /// Returns the underlying poset of the G-transfer-system lattice.
    pub fn as_poset(&self) -> (r: &crate::poset::Poset<RawGTransferSystem>)
        ensures
            *r == self.lattice_of().poset_of(),
    {
        self.lattice.as_poset()
    }

    /// Returns the number of G-transfer systems.
    pub fn size(&self) -> (r: usize)
        requires
            self.wf(),
        ensures
            r == self.lattice_of().card(),
    {
        self.lattice.size()
    }

    /// The meets and joins of the lattice are intersections and closed unions.
    proof fn lemma_bounds(&self, i: int, j: int, k: int)
        requires
            self.wf(),
            0 <= i < self.lattice_of().card(),
            0 <= j < self.lattice_of().card(),
            0 <= k < self.lattice_of().card(),
        ensures
            crate::order::is_meet(self.lattice_of().order(), self.lattice_of().card(), i, j, k) <==> self.system_bits()[k] == meet_bits(
                self.system_bits()[i],
                self.system_bits()[j],
            ),
            crate::order::is_join(self.lattice_of().order(), self.lattice_of().card(), i, j, k) <==> self.system_bits()[k] == closure_of(
                self.universe_of().context_rows(),
                self.universe_of().attrs_of().len(),
                join_bits(self.system_bits()[i], self.system_bits()[j]),
            ),
    {
        let u = self.universe_of();
        let ord = self.lattice_of().order();
        let labels = self.system_bits();
        assert forall|a: int, b: int| 0 <= a < labels.len() && 0 <= b < labels.len() implies #[trigger] ord[a][b] == subset_bits(labels[a], labels[b]) by {
            assert(self.lattice_of().le(a, b) == subset_bits(labels[a], labels[b]));
        }
        lemma_closed_sets_lattice(u.context_rows(), u.attrs_of().len(), labels, ord);
    }

    /// Returns the meet of two G-transfer systems by element id: their
    /// intersection.
    pub fn meet_id(&self, left: ElementId, right: ElementId) -> (r: ElementId)
        requires
            self.wf(),
            left < self.lattice_of().card(),
            right < self.lattice_of().card(),
        ensures
            r < self.lattice_of().card(),
            self.system_bits()[r as int] == meet_bits(self.system_bits()[left as int], self.system_bits()[right as int]),
    {
        let r = self.lattice.meet_id(left, right);
        proof {
            self.lemma_bounds(left as int, right as int, r as int);
        }
        r
    }

    /// Returns the join of two G-transfer systems by element id: the closure
    /// of their union.
    pub fn join_id(&self, left: ElementId, right: ElementId) -> (r: ElementId)
        requires
            self.wf(),
            left < self.lattice_of().card(),
            right < self.lattice_of().card(),
        ensures
            r < self.lattice_of().card(),
            self.system_bits()[r as int] == closure_of(
                self.universe_of().context_rows(),
                self.universe_of().attrs_of().len(),
                join_bits(self.system_bits()[left as int], self.system_bits()[right as int]),
            ),
    {
        let r = self.lattice.join_id(left, right);
        proof {
            self.lemma_bounds(left as int, right as int, r as int);
        }
        r
    }

    /// Returns the bottom G-transfer system.
    pub fn bottom(&self) -> (r: ElementId)
        requires
            self.wf(),
        ensures
            r == self.lattice_of().bottom_of(),
    {
        self.lattice.bottom()
    }

    /// Returns the top G-transfer system.
    pub fn top(&self) -> (r: ElementId)
        requires
            self.wf(),
        ensures
            r == self.lattice_of().top_of(),
    {
        self.lattice.top()
    }

    /// Returns a G-transfer system by element id.
    pub fn system(&self, id: ElementId) -> (r: Option<GTransferSystem<A>>)
        requires
            self.wf(),
        ensures
            match r {
                Some(ts) => id < self.lattice_of().card() && ts.wf() && ts.universe_of() == self.universe_of() && ts.bits()
                    == self.system_bits()[id as int],
                None => id >= self.lattice_of().card(),
            },
    {
        match self.lattice.element(id) {
            Some(raw) => {
                assert(self.system_bits()[id as int] == raw.bits());
                Some(GTransferSystem { raw: raw.clone(), universe: crate::shared::arc_clone(&self.universe) })
            },
            None => None,
        }
    }

    /// Lists all G-transfer systems in element-id order.
    pub fn systems(&self) -> (r: Vec<GTransferSystem<A>>)
        requires
            self.wf(),
        ensures
            r@.len() == self.lattice_of().card(),
            forall|i: int| 0 <= i < r@.len() ==> (#[trigger] r@[i]).wf() && r@[i].universe_of() == self.universe_of() && r@[i].bits() == self.system_bits()[i],
    {
        let elements = self.lattice.elements();
        let mut result: Vec<GTransferSystem<A>> = Vec::new();
        let mut i: usize = 0;
        while i < elements.len()
            invariant
                self.wf(),
                elements@ == self.lattice_of().labels(),
                i <= elements@.len(),
                result@.len() == i,
                forall|k: int| 0 <= k < i ==> (#[trigger] result@[k]).wf() && result@[k].universe_of() == self.universe_of() && result@[k].bits() == self.system_bits()[k],
            decreases elements@.len() - i,
        {
            assert(self.system_bits()[i as int] == elements@[i as int].bits());
            result.push(GTransferSystem { raw: elements[i].clone(), universe: crate::shared::arc_clone(&self.universe) });
            i += 1;
        }
        result
    }
}

impl<A> GTransferUniverse<A> {
    /// The raw G-transfer systems: every closed selection of orbits once.
    pub(crate) fn all_g_transfer_systems(&self) -> (r: Vec<RawGTransferSystem>)
        requires
            self.wf(),
        ensures
            lists_closed_sets(self.context_rows(), self.attrs_of().len(), raw_g_bits(r@)),
    {
        let extents = formal_context_concept_extents(&self.context);
        let mut result: Vec<RawGTransferSystem> = Vec::new();
        let mut i: usize = 0;
        while i < extents.len()
            invariant
                i <= extents@.len(),
                result@.len() == i,
                forall|k: int| 0 <= k < i ==> (#[trigger] result@[k]).bits() == extents@[k]@,
            decreases extents@.len() - i,
        {
            result.push(RawGTransferSystem::new(extents[i].duplicate()));
            i += 1;
        }
        proof {
            let m = self.context_rows();
            let labels = raw_g_bits(result@);
            assert forall|s: Seq<bool>| s.len() == m.len() && #[trigger] is_closed(m, self.attrs_of().len(), s) implies exists|i: int|
                0 <= i < labels.len() && #[trigger] labels[i] == s by {
                let i = choose|i: int| 0 <= i < extents@.len() && (#[trigger] extents@[i])@ == s;
                assert(labels[i] == s);
            }
            assert forall|i: int, j: int| 0 <= i < j < labels.len() implies #[trigger] labels[i] != #[trigger] labels[j] by {
                assert(extents@[i]@ != extents@[j]@);
            }
        }
        result
    }

    /// Counts the G-transfer systems without storing them.
    pub fn transfer_system_count(&self) -> (r: usize)
        requires
            self.wf(),
        ensures
            r == closed_sets(self.context_rows(), self.attrs_of().len()).len(),
    {
        crate::concepts::formal_context_concept_count(&self.context)
    }

    /// Constructs the lattice of G-transfer systems ordered by containment.
    pub fn containment_lattice(self: &Arc<Self>) -> (r: Result<GTransferLattice<A>, GLatticeError>)
        requires
            self.wf(),
            closed_sets(self.context_rows(), self.attrs_of().len()).len() <= max_bits(),
        ensures
            r matches Ok(tl) && tl.wf() && tl.universe_of() == **self,
    {
        let systems = self.all_g_transfer_systems();
        let ghost labels = raw_g_bits(systems@);
        let ghost m = self.context_rows();
        let ghost cols = self.attrs_of().len();
        let n = systems.len();
        proof {
            lemma_listed_closed_sets(m, cols, labels);
        }
        let mut relation: Vec<Bits> = Vec::new();
        let mut i: usize = 0;
        while i < n
            invariant
                n == systems@.len(),
                n <= max_bits(),
                labels == raw_g_bits(systems@),
                i <= n,
                relation@.len() == i,
                forall|a: int| 0 <= a < i ==> (#[trigger] relation@[a])@.len() == n,
                forall|a: int, b: int| 0 <= a < i && 0 <= b < n ==> #[trigger] relation@[a]@[b] == subset_bits(labels[a], labels[b]),
            decreases n - i,
        {
            let mut row = Bits::repeat(false, n);
            let mut j: usize = 0;
            while j < n
                invariant
                    n == systems@.len(),
                    labels == raw_g_bits(systems@),
                    i < n,
                    j <= n,
                    row@.len() == n,
                    forall|b: int| 0 <= b < j ==> #[trigger] row@[b] == subset_bits(labels[i as int], labels[b]),
                decreases n - j,
            {
                let b = crate::bits::is_subset(systems[i].orbit_arrows(), systems[j].orbit_arrows());
                row.set(j, b);
                j += 1;
            }
            relation.push(row);
            i += 1;
        }
        let ghost ord = crate::bits::matrix_of(relation@);
        proof {
            assert(crate::order::is_square(ord, n as nat)) by {
                assert forall|a: int| 0 <= a < n implies (#[trigger] ord[a]).len() == n by {
                    assert(ord[a] == relation@[a]@);
                }
            }
            assert forall|a: int, b: int| 0 <= a < n && 0 <= b < n implies #[trigger] ord[a][b] == subset_bits(labels[a], labels[b]) by {
                assert(ord[a] == relation@[a]@);
            }
            lemma_closed_sets_lattice(m, cols, labels, ord);
        }
        let poset = crate::poset::Poset::from_validated(systems, relation);
        let ghost pm = poset.order();
        let lattice = match Lattice::new(poset) {
            Ok(l) => l,
            Err(e) => {
                proof {
                    if let LatticeError::NotALattice { left, right } = e {
                        assert(crate::order::has_meet(pm, n as nat, left as int, right as int));
                        assert(crate::order::has_join(pm, n as nat, left as int, right as int));
                    }
                }
                return Err(GLatticeError::Lattice(e));
            },
        };
        let r = GTransferLattice { universe: crate::shared::arc_clone(self), lattice };
        proof {
            assert(r.system_bits() =~= labels);
        }
        Ok(r)
    }
}

impl<A> GLattice<A> {
    /// Constructs the lattice of G-transfer systems ordered by containment.
    pub fn transfer_systems_containment(&self) -> (r: Result<GTransferLattice<A>, GLatticeError>)
        requires
            self.wf(),
            forall|attrs: Seq<usize>| is_permutation(attrs, self.proper_orbits().len() as int) ==> #[trigger] closed_sets(orbit_context(self.lattice_of(), self.proper_orbits(), attrs), self.proper_orbits().len()).len() <= max_bits(),
        ensures
            r matches Ok(tl) && tl.wf() && tl.universe_of().lattice_of() == self.lattice_of(),
    {
        let universe = self.transfer_universe();
        proof {
            assert(closed_sets(orbit_context(self.lattice_of(), self.proper_orbits(), universe.attrs_of()), self.proper_orbits().len()).len() <= max_bits());
        }
        universe.containment_lattice()
    }

    /// Counts the G-transfer systems without storing them.
    pub fn transfer_system_count(&self) -> (r: usize)
        requires
            self.wf(),
        ensures
            exists|attrs: Seq<usize>| is_permutation(attrs, self.proper_orbits().len() as int) && r == closed_sets(
                orbit_context(self.lattice_of(), self.proper_orbits(), attrs),
                self.proper_orbits().len(),
            ).len(),
    {
        let universe = GTransferUniverse::new(self);
        universe.transfer_system_count()
    }
}

impl<A> GTransferSystem<A> {
    /// Expands this G-transfer system to an ordinary transfer system on the
    /// underlying lattice: the union of the selected orbits, which the group
    /// leaves fixed.
    pub fn underlying_transfer_system(&self) -> (r: crate::transfer_lattice::TransferSystem<A>)
        requires
            self.wf(),
        ensures
            r.wf(),
            r.universe_of() == self.universe_of().underlying_of(),
            r.relations() == self.relation_set(),
    {
        let ghost u = self.universe_of();
        let ghost l = u.lattice_of();
        let ghost orbs = u.orbits_of();
        let ghost sel = self.bits();
        let underlying = self.universe.underlying_transfer_universe();
        let ghost p = underlying.edges_of();
        let index = underlying.relation_index();
        let count = underlying.proper_edges().len();
        let mut arrows = Bits::repeat(false, count);
        let selected = self.raw.orbit_arrows();
        let mut i: usize = 0;
        while i < selected.len()
            invariant
                self.wf(),
                u == self.universe_of(),
                l == u.lattice_of(),
                orbs == u.orbits_of(),
                sel == self.bits(),
                selected@ == sel,
                sel.len() == orbs.len(),
                **underlying == u.underlying_of(),
                p == u.underlying_of().edges_of(),
                **index == u.underlying_of().index_of(),
                count == p.len(),
                arrows@.len() == count,
                i <= orbs.len(),
                forall|x: int| 0 <= x < count ==> (arrows@[x] <==> exists|j: int| 0 <= j < i && sel[j] && #[trigger] orbs[j].contains(p[x])),
            decreases orbs.len() - i,
        {
            if selected.bit(i) {
                let orbit = self.universe.relation_orbit_relations(i).unwrap();
                let mut k: usize = 0;
                while k < orbit.len()
                    invariant
                        u.wf(),
                        l == u.lattice_of(),
                        orbs == u.orbits_of(),
                        orbit@ == orbs[i as int],
                        i < orbs.len(),
                        sel.len() == orbs.len(),
                        sel[i as int],
                        p == u.underlying_of().edges_of(),
                        **index == u.underlying_of().index_of(),
                        count == p.len(),
                        arrows@.len() == count,
                        k <= orbit@.len(),
                        forall|x: int| 0 <= x < count ==> (arrows@[x] <==> ((exists|j: int| 0 <= j < i && sel[j] && #[trigger] orbs[j].contains(p[x]))
                            || exists|t: int| 0 <= t < k && orbit@[t] == p[x])),
                    decreases orbit@.len() - k,
                {
                    let e = orbit[k];
                    assert(crate::orbit_theory::is_proper(l, orbs[i as int][k as int]));
                    match index.proper_edge_id(e) {
                        Some(id) => {
                            let ghost before = arrows@;
                            arrows.set(id, true);
                            proof {
                                assert forall|x: int| 0 <= x < count implies (arrows@[x] <==> ((exists|j: int| 0 <= j < i && sel[j] && #[trigger] orbs[j].contains(p[x]))
                                    || exists|t: int| 0 <= t < k + 1 && orbit@[t] == p[x])) by {
                                    if x == id {
                                        assert(orbit@[k as int] == p[x]);
                                    } else {
                                        assert(p.no_duplicates());
                                        if exists|t: int| 0 <= t < k + 1 && orbit@[t] == p[x] {
                                            let t = choose|t: int| 0 <= t < k + 1 && orbit@[t] == p[x];
                                            if t == k {
                                                assert(p[x] == p[id as int]);
                                            }
                                        }
                                    }
                                }
                            }
                        },
                        None => {
                            proof {
                                assert(p.contains(e));
                            }
                            return vstd::pervasive::unreached();
                        },
                    }
                    k += 1;
                }
                proof {
                    assert forall|x: int| 0 <= x < count implies (arrows@[x] <==> exists|j: int| 0 <= j < i + 1 && sel[j] && #[trigger] orbs[j].contains(p[x])) by {
                        if exists|t: int| 0 <= t < orbit@.len() && orbit@[t] == p[x] {
                            assert(orbs[i as int].contains(p[x]));
                        }
                        if exists|j: int| 0 <= j < i + 1 && sel[j] && #[trigger] orbs[j].contains(p[x]) {
                            let j = choose|j: int| 0 <= j < i + 1 && sel[j] && #[trigger] orbs[j].contains(p[x]);
                            if j == i {
                                let t = choose|t: int| 0 <= t < orbs[j].len() && orbs[j][t] == p[x];
                                assert(orbit@[t] == p[x]);
                            }
                        }
                    }
                }
            } else {
                proof {
                    assert forall|x: int| 0 <= x < count implies (arrows@[x] <==> exists|j: int| 0 <= j < i + 1 && sel[j] && #[trigger] orbs[j].contains(p[x])) by {
                        if exists|j: int| 0 <= j < i + 1 && sel[j] && #[trigger] orbs[j].contains(p[x]) {
                            let j = choose|j: int| 0 <= j < i + 1 && sel[j] && #[trigger] orbs[j].contains(p[x]);
                            assert(j != i);
                        }
                    }
                }
            }
            i += 1;
        }
        proof {
            assert(arrows@ =~= crate::orbit_theory::expanded(orbs, sel, p));
            crate::orbit_theory::lemma_orbit_closure(l, p, orbs, u.attrs_of(), sel);
            crate::orbit_theory::lemma_expanded_system(l, p, orbs, sel);
        }
        let raw = crate::transfer_lattice::RawTransferSystem::new(arrows);
        crate::transfer_lattice::TransferSystem::new(raw, crate::shared::arc_clone(underlying))
    }
}

/// Saturation at one relation and one middle element: `e = (k, h)` in `q`
/// and `k <= m <= h`, `m != h`, force `(m, h)` into `q`.
pub open spec fn saturated_at<A>(l: Lattice<A>, q: Set<Edge>, e: Edge, m: int) -> bool {
    (0 <= m < l.card() && l.le(e.from as int, m) && l.le(m, e.to as int) && m != e.to) ==> q.contains(
        Edge { from: m as usize, to: e.to },
    )
}

/// A saturated set of relations: `K -> H` and `K <= L <= H` imply `L -> H`.
pub open spec fn is_saturated_set<A>(l: Lattice<A>, q: Set<Edge>) -> bool {
    forall|e: Edge, m: int| #[trigger] q.contains(e) && e.from != e.to ==> #[trigger] saturated_at(l, q, e, m)
}

impl<A> GTransferSystem<A> {
    /// Returns whether this G-transfer system is saturated: `K -> H` and
    /// `K <= L <= H` imply `L -> H`.
    pub fn is_saturated(&self) -> (r: bool)
        requires
            self.wf(),
        ensures
            r == is_saturated_set(self.universe_of().lattice_of(), self.relation_set()),
    {
        let ghost u = self.universe_of();
        let ghost l = u.lattice_of();
        let ghost orbs = u.orbits_of();
        let ghost q = self.relation_set();
        let lattice = self.lattice();
        let n = lattice.size();
        let selected = self.raw.orbit_arrows();
        let mut i: usize = 0;
        while i < selected.len()
            invariant
                self.wf(),
                u == self.universe_of(),
                l == u.lattice_of(),
                **lattice == l,
                n == l.card(),
                orbs == u.orbits_of(),
                q == self.relation_set(),
                selected@ == self.bits(),
                selected@.len() == orbs.len(),
                i <= orbs.len(),
                forall|j: int, k: int, m: int|
                    0 <= j < i && selected@[j] && 0 <= k < orbs[j].len() ==> #[trigger] saturated_at(l, q, orbs[j][k], m),
            decreases orbs.len() - i,
        {
            if selected.bit(i) {
                let orbit = self.universe.relation_orbit_relations(i).unwrap();
                let mut k: usize = 0;
                while k < orbit.len()
                    invariant
                        self.wf(),
                        u == self.universe_of(),
                        l == u.lattice_of(),
                        **lattice == l,
                        n == l.card(),
                        orbs == u.orbits_of(),
                        q == self.relation_set(),
                        selected@ == self.bits(),
                        selected@.len() == orbs.len(),
                        i < orbs.len(),
                        selected@[i as int],
                        orbit@ == orbs[i as int],
                        k <= orbit@.len(),
                        forall|j: int, t: int, m: int|
                            ((0 <= j < i && selected@[j]) || (j == i && t < k)) && 0 <= t < orbs[j].len() ==> #[trigger] saturated_at(l, q, orbs[j][t], m),
                    decreases orbit@.len() - k,
                {
                    let relation = orbit[k];
                    assert(crate::orbit_theory::is_proper(l, orbs[i as int][k as int]));
                    assert(orbs[i as int].contains(relation));
                    assert(q.contains(relation));
                    let mut middle: usize = 0;
                    while middle < n
                        invariant
                            self.wf(),
                            u == self.universe_of(),
                            l == u.lattice_of(),
                            **lattice == l,
                            n == l.card(),
                            orbs == u.orbits_of(),
                            q == self.relation_set(),
                            selected@ == self.bits(),
                            selected@.len() == orbs.len(),
                            i < orbs.len(),
                            selected@[i as int],
                            k < orbs[i as int].len(),
                            relation == orbs[i as int][k as int],
                            q.contains(relation),
                            relation.from != relation.to,
                            relation.from < n && relation.to < n,
                            middle <= n,
                            forall|m: int| 0 <= m < middle ==> #[trigger] saturated_at(l, q, relation, m),
                        decreases n - middle,
                    {
                        if lattice.leq(relation.from, middle) && lattice.leq(middle, relation.to) && middle != relation.to {
                            let required = Edge::new(middle, relation.to);
                            match self.universe.relation_orbit_label_id(required) {
                                Some(o) => {
                                    if !selected.bit(o) {
                                        proof {
                                            if q.contains(required) {
                                                let j = choose|j: int| 0 <= j < orbs.len() && self.bits()[j] && #[trigger] orbs[j].contains(required);
                                                let a = choose|a: int| 0 <= a < orbs[j].len() && orbs[j][a] == required;
                                                let b = choose|b: int| 0 <= b < orbs[o as int].len() && orbs[o as int][b] == required;
                                                assert(orbs[j][a] == orbs[o as int][b]);
                                            }
                                            assert(!saturated_at(l, q, relation, middle as int));
                                        }
                                        return false;
                                    }
                                    proof {
                                        assert(q.contains(required));
                                    }
                                },
                                None => {
                                    proof {
                                        assert(crate::orbit_theory::is_proper(l, required));
                                    }
                                    return false;
                                },
                            }
                        }
                        middle += 1;
                    }
                    k += 1;
                }
            }
            i += 1;
        }
        proof {
            assert forall|e: Edge, m: int| #[trigger] q.contains(e) && e.from != e.to implies #[trigger] saturated_at(l, q, e, m) by {
                let j = choose|j: int| 0 <= j < orbs.len() && self.bits()[j] && #[trigger] orbs[j].contains(e);
                let t = choose|t: int| 0 <= t < orbs[j].len() && orbs[j][t] == e;
                assert(saturated_at(l, q, orbs[j][t], m));
            }
        }
        true
    }

    /// Returns whether the supplied relations generate this G-transfer
    /// system.
    pub fn is_generated_by(&self, generators: Vec<Edge>) -> (r: Result<bool, GTransferSystemError>)
        requires
            self.wf(),
        ensures
            match r {
                Ok(b) => b == (exists|ts: GTransferSystem<A>| #[trigger] ts.wf() && ts.universe_of() == self.universe_of()
                    && ts.bits() == self.bits() && (forall|k: int| 0 <= k < generators@.len() ==> ts.relation_set().contains(#[trigger] generators@[k]))
                    && forall|q: Set<Edge>|
                        #[trigger] is_transfer_system(self.universe_of().lattice_of(), q) && orbit_closed(self.universe_of().orbits_of(), q)
                            && (forall|k: int| 0 <= k < generators@.len() ==> q.contains(#[trigger] generators@[k])) ==> ts.relation_set().subset_of(q)),
                Err(_) => exists|k: int| 0 <= k < generators@.len() && !generator_ok(self.universe_of().lattice_of(), #[trigger] generators@[k]),
            },
    {
        match self.universe.generated_by(generators) {
            Ok(generated) => {
                let b = crate::bits::equal_bits(generated.raw.orbit_arrows(), self.raw.orbit_arrows());
                proof {
                    let u = self.universe_of();
                    if !b {
                        if exists|ts: GTransferSystem<A>| #[trigger] ts.wf() && ts.universe_of() == u
                            && ts.bits() == self.bits() && (forall|k: int| 0 <= k < generators@.len() ==> ts.relation_set().contains(#[trigger] generators@[k]))
                            && forall|q: Set<Edge>|
                                #[trigger] is_transfer_system(u.lattice_of(), q) && orbit_closed(u.orbits_of(), q)
                                    && (forall|k: int| 0 <= k < generators@.len() ==> q.contains(#[trigger] generators@[k])) ==> ts.relation_set().subset_of(q) {
                            let ts = choose|ts: GTransferSystem<A>| #[trigger] ts.wf() && ts.universe_of() == u
                                && ts.bits() == self.bits() && (forall|k: int| 0 <= k < generators@.len() ==> ts.relation_set().contains(#[trigger] generators@[k]))
                                && forall|q: Set<Edge>|
                                    #[trigger] is_transfer_system(u.lattice_of(), q) && orbit_closed(u.orbits_of(), q)
                                        && (forall|k: int| 0 <= k < generators@.len() ==> q.contains(#[trigger] generators@[k])) ==> ts.relation_set().subset_of(q);
                            lemma_g_transfer_system_valid(ts);
                            lemma_relation_set_orbit_closed(ts);
                            assert(ts.relation_set().subset_of(generated.relation_set()));
                            assert(generated.relation_set().subset_of(ts.relation_set()));
                            assert(ts.relation_set() =~= generated.relation_set());
                            lemma_relation_set_injective(ts, generated);
                        }
                    }
                }
                Ok(b)
            },
            Err(e) => {
                proof {
                    match e {
                        GTransferSystemError::EdgeOutOfBounds { edge, lattice_size } => {
                            let k = choose|k: int| 0 <= k < generators@.len() && generators@[k] == edge && forall|j: int|
                                0 <= j < k ==> #[trigger] generator_ok(self.universe_of().lattice_of(), generators@[j]);
                            assert(!generator_ok(self.universe_of().lattice_of(), generators@[k]));
                        },
                        GTransferSystemError::NotLatticeRelation { edge } => {
                            let k = choose|k: int| 0 <= k < generators@.len() && generators@[k] == edge && forall|j: int|
                                0 <= j < k ==> #[trigger] generator_ok(self.universe_of().lattice_of(), generators@[j]);
                            assert(!generator_ok(self.universe_of().lattice_of(), generators@[k]));
                        },
                        _ => {},
                    }
                }
                Err(e)
            },
        }
    }
}

/// The relations of a G-transfer system are made of whole orbits.
pub proof fn lemma_relation_set_orbit_closed<A>(ts: GTransferSystem<A>)
    requires
        ts.wf(),
    ensures
        orbit_closed(ts.universe_of().orbits_of(), ts.relation_set()),
{
    let u = ts.universe_of();
    let orbs = u.orbits_of();
    let q = ts.relation_set();
    assert forall|i: int, a: int, b: int|
        0 <= i < orbs.len() && 0 <= a < orbs[i].len() && 0 <= b < orbs[i].len() && #[trigger] q.contains(orbs[i][a]) implies #[trigger] q.contains(orbs[i][b]) by {
        assert(crate::orbit_theory::is_proper(u.lattice_of(), orbs[i][a]));
        let j = choose|j: int| 0 <= j < orbs.len() && ts.bits()[j] && #[trigger] orbs[j].contains(orbs[i][a]);
        let t = choose|t: int| 0 <= t < orbs[j].len() && orbs[j][t] == orbs[i][a];
        assert(orbs[j][t] == orbs[i][a]);
        assert(orbs[i].contains(orbs[i][b]));
    }
}

/// Two G-transfer systems of one universe with the same relations have the
/// same bits.
pub proof fn lemma_relation_set_injective<A>(a: GTransferSystem<A>, b: GTransferSystem<A>)
    requires
        a.wf(),
        b.wf(),
        a.universe_of() == b.universe_of(),
        a.relation_set() == b.relation_set(),
    ensures
        a.bits() == b.bits(),
{
    let u = a.universe_of();
    let orbs = u.orbits_of();
    assert forall|i: int| 0 <= i < orbs.len() implies a.bits()[i] == b.bits()[i] by {
        let e = orbs[i][0];
        assert(crate::orbit_theory::is_proper(u.lattice_of(), e));
        assert(orbs[i].contains(e));
        if a.bits()[i] {
            assert(b.relation_set().contains(e));
            let j = choose|j: int| 0 <= j < orbs.len() && b.bits()[j] && #[trigger] orbs[j].contains(e);
            let t = choose|t: int| 0 <= t < orbs[j].len() && orbs[j][t] == e;
            assert(orbs[j][t] == orbs[i][0]);
        }
        if b.bits()[i] {
            assert(a.relation_set().contains(e));
            let j = choose|j: int| 0 <= j < orbs.len() && a.bits()[j] && #[trigger] orbs[j].contains(e);
            let t = choose|t: int| 0 <= t < orbs[j].len() && orbs[j][t] == e;
            assert(orbs[j][t] == orbs[i][0]);
        }
    }
    assert(a.bits() =~= b.bits());
}

/// A concrete obstruction to compatibility of two G-transfer systems; the
/// receiver is the additive system, the argument the multiplicative one.
#[derive(Debug, Clone, Copy, PartialEq, Eq, Structural)]
pub enum GCompatibilityFailure {
    /// The two systems use different ambient G-transfer universes.
    DifferentUniverses,
    /// A multiplicative transfer is absent from the additive system.
    MultiplicativeNotAdditive {
        /// The multiplicative relation missing from the additive system.
        relation: Edge,
    },
    /// The distributivity condition fails for the displayed relations.
    Distributivity {
        /// A multiplicative relation `K -> H`.
        multiplicative: Edge,
        /// The additive relation `(K /\ L) -> K`.
        additive: Edge,
        /// The required additive relation `L -> H`.
        required: Edge,
    },
}

/// The distributivity condition for the multiplicative relation `(k, h)`
/// and the element `x <= h`: if `(k /\ x) -> k` is additive, so is `x -> h`.
pub open spec fn distributes_at<A>(l: Lattice<A>, additive: Set<Edge>, e: Edge, x: int) -> bool {
    (0 <= x < l.card() && l.le(x, e.to as int) && additive.contains(
        Edge { from: l.meet_of(e.from as int, x) as usize, to: e.from },
    )) ==> additive.contains(Edge { from: x as usize, to: e.to })
}

/// `(additive, multiplicative)` is a compatible pair: every multiplicative
/// relation is additive, and distributivity holds.
pub open spec fn compatible_sets<A>(l: Lattice<A>, additive: Set<Edge>, multiplicative: Set<Edge>) -> bool {
    &&& forall|e: Edge| #[trigger] multiplicative.contains(e) ==> additive.contains(e)
    &&& forall|e: Edge, x: int| #[trigger] multiplicative.contains(e) ==> #[trigger] distributes_at(l, additive, e, x)
}

impl<A> GTransferSystem<A> {
    /// Returns a witness when `(self, multiplicative)` is not compatible.
    ///
    /// The receiver is the additive transfer system.  Compatibility requires
    /// every multiplicative transfer to be additive and the distributivity
    /// implication from compatible indexing systems.  Systems that do not
    /// hold the same universe handle are reported as `DifferentUniverses`;
    /// whether two handles to equal universes are the same handle is not
    /// stated.
    pub fn compatibility_failure(&self, multiplicative: &GTransferSystem<A>) -> (r: Option<GCompatibilityFailure>)
        requires
            self.wf(),
            multiplicative.wf(),
        ensures
            self.universe_of() != multiplicative.universe_of() ==> r == Some(GCompatibilityFailure::DifferentUniverses),
            r != Some(GCompatibilityFailure::DifferentUniverses) ==> self.universe_of() == multiplicative.universe_of() && (r is None
                <==> compatible_sets(self.universe_of().lattice_of(), self.relation_set(), multiplicative.relation_set())),
            r is None ==> self.universe_of() == multiplicative.universe_of() && compatible_sets(
                self.universe_of().lattice_of(),
                self.relation_set(),
                multiplicative.relation_set(),
            ),
            r matches Some(GCompatibilityFailure::MultiplicativeNotAdditive { relation }) ==> multiplicative.relation_set().contains(
                relation,
            ) && !self.relation_set().contains(relation),
            r matches Some(GCompatibilityFailure::Distributivity { multiplicative: m, additive: a, required: q }) ==> {
                &&& self.universe_of() == multiplicative.universe_of()
                &&& multiplicative.relation_set().contains(m)
                &&& q.from < self.universe_of().lattice_of().card()
                &&& q.to == m.to
                &&& self.universe_of().lattice_of().le(q.from as int, m.to as int)
                &&& a == Edge { from: self.universe_of().lattice_of().meet_of(m.from as int, q.from as int) as usize, to: m.from }
                &&& self.relation_set().contains(a)
                &&& !self.relation_set().contains(q)
            },
    {
        let shared = crate::shared::arc_ptr_eq(&self.universe, &multiplicative.universe);
        self.compatibility_failure_for_handles(multiplicative, shared)
    }

    /// The compatibility check once it is known whether the two systems
    /// hold the same universe handle (`shared`): `DifferentUniverses` when
    /// they do not; otherwise no failure exactly for a compatible pair, and
    /// else a witness, a multiplicative relation that is not additive first.
    pub fn compatibility_failure_for_handles(&self, multiplicative: &GTransferSystem<A>, shared: bool) -> (r: Option<
        GCompatibilityFailure,
    >)
        requires
            self.wf(),
            multiplicative.wf(),
            shared ==> self.universe_of() == multiplicative.universe_of(),
        ensures
            !shared ==> r == Some(GCompatibilityFailure::DifferentUniverses),
            shared ==> r != Some(GCompatibilityFailure::DifferentUniverses) && (r is None <==> compatible_sets(
                self.universe_of().lattice_of(),
                self.relation_set(),
                multiplicative.relation_set(),
            )),
            r matches Some(GCompatibilityFailure::MultiplicativeNotAdditive { relation }) ==> multiplicative.relation_set().contains(
                relation,
            ) && !self.relation_set().contains(relation),
            r matches Some(GCompatibilityFailure::Distributivity { multiplicative: m, additive: a, required: q }) ==> {
                &&& self.universe_of() == multiplicative.universe_of()
                &&& multiplicative.relation_set().contains(m)
                &&& q.from < self.universe_of().lattice_of().card()
                &&& q.to == m.to
                &&& self.universe_of().lattice_of().le(q.from as int, m.to as int)
                &&& a == Edge { from: self.universe_of().lattice_of().meet_of(m.from as int, q.from as int) as usize, to: m.from }
                &&& self.relation_set().contains(a)
                &&& !self.relation_set().contains(q)
            },
    {
        if !shared {
            return Some(GCompatibilityFailure::DifferentUniverses);
        }
        let ghost l = self.universe_of().lattice_of();
        let ghost add = self.relation_set();
        let ghost mul = multiplicative.relation_set();
        let proper = multiplicative.relations(false);
        let list = proper.as_slice();
        let mut k: usize = 0;
        while k < list.len()
            invariant
                shared,
                self.wf(),
                multiplicative.wf(),
                add == self.relation_set(),
                mul == multiplicative.relation_set(),
                list@.to_set() == proper@,
                forall|e: Edge| #[trigger] proper@.contains(e) <==> (mul.contains(e) && e.from != e.to),
                k <= list@.len(),
                forall|t: int| 0 <= t < k ==> add.contains(#[trigger] list@[t]),
            decreases list@.len() - k,
        {
            let relation = list[k];
            assert(list@.to_set().contains(relation));
            if !self.contains_relation(relation) {
                return Some(GCompatibilityFailure::MultiplicativeNotAdditive { relation });
            }
            k += 1;
        }
        proof {
            assert forall|e: Edge| #[trigger] mul.contains(e) implies add.contains(e) by {
                if e.from != e.to {
                    assert(list@.to_set().contains(e));
                    let t = choose|t: int| 0 <= t < list@.len() && list@[t] == e;
                    assert(add.contains(list@[t]));
                } else {
                    if !(e.from < l.card()) {
                        let j = choose|j: int| 0 <= j < multiplicative.universe_of().orbits_of().len() && multiplicative.bits()[j] && #[trigger] multiplicative.universe_of().orbits_of()[j].contains(e);
                        let orbs = multiplicative.universe_of().orbits_of();
                        let t = choose|t: int| 0 <= t < orbs[j].len() && orbs[j][t] == e;
                        assert(crate::orbit_theory::is_proper(l, orbs[j][t]));
                    }
                }
            }
        }
        let lattice = self.lattice();
        let n = lattice.size();
        let all = multiplicative.relations(true);
        let every = all.as_slice();
        let mut k: usize = 0;
        while k < every.len()
            invariant
                shared,
                self.wf(),
                multiplicative.wf(),
                self.universe_of() == multiplicative.universe_of(),
                l == self.universe_of().lattice_of(),
                **lattice == l,
                n == l.card(),
                add == self.relation_set(),
                mul == multiplicative.relation_set(),
                every@.to_set() == all@,
                forall|e: Edge| #[trigger] all@.contains(e) <==> mul.contains(e),
                k <= every@.len(),
                forall|t: int, x: int| 0 <= t < k ==> #[trigger] distributes_at(l, add, every@[t], x),
            decreases every@.len() - k,
        {
            let relation = every[k];
            assert(every@.to_set().contains(relation));
            assert(mul.contains(relation));
            proof {
                if !(relation.from < n && relation.to < n) {
                    let j = choose|j: int| 0 <= j < multiplicative.universe_of().orbits_of().len() && multiplicative.bits()[j] && #[trigger] multiplicative.universe_of().orbits_of()[j].contains(relation);
                    let orbs = multiplicative.universe_of().orbits_of();
                    let t = choose|t: int| 0 <= t < orbs[j].len() && orbs[j][t] == relation;
                    assert(crate::orbit_theory::is_proper(l, orbs[j][t]));
                }
            }
            let mut x: usize = 0;
            while x < n
                invariant
                    shared,
                    self.wf(),
                    l == self.universe_of().lattice_of(),
                    **lattice == l,
                    n == l.card(),
                    add == self.relation_set(),
                    multiplicative.wf(),
                    self.universe_of() == multiplicative.universe_of(),
                    mul == multiplicative.relation_set(),
                    mul.contains(relation),
                    relation.from < n && relation.to < n,
                    x <= n,
                    forall|y: int| 0 <= y < x ==> #[trigger] distributes_at(l, add, relation, y),
                decreases n - x,
            {
                if lattice.leq(x, relation.to) {
                    let additive = Edge::new(lattice.meet_id(relation.from, x), relation.from);
                    let required = Edge::new(x, relation.to);
                    if self.contains_relation(additive) && !self.contains_relation(required) {
                        proof {
                            assert(!distributes_at(l, add, relation, x as int));
                        }
                        return Some(GCompatibilityFailure::Distributivity { multiplicative: relation, additive, required });
                    }
                }
                x += 1;
            }
            k += 1;
        }
        proof {
            assert forall|e: Edge, x: int| #[trigger] mul.contains(e) implies #[trigger] distributes_at(l, add, e, x) by {
                assert(all@.contains(e));
                let t = choose|t: int| 0 <= t < every@.len() && every@[t] == e;
                assert(distributes_at(l, add, every@[t], x));
            }
        }
        None
    }

    /// Returns whether `(self, multiplicative)` is a compatible pair.
    pub fn is_compatible_with(&self, multiplicative: &GTransferSystem<A>) -> (r: bool)
        requires
            self.wf(),
            multiplicative.wf(),
        ensures
            r ==> self.universe_of() == multiplicative.universe_of() && compatible_sets(
                self.universe_of().lattice_of(),
                self.relation_set(),
                multiplicative.relation_set(),
            ),
            self.universe_of() != multiplicative.universe_of() ==> !r,
    {
        self.compatibility_failure(multiplicative).is_none()
    }
}

/// Every relation of a G-transfer system is a valid generator.
pub proof fn lemma_relation_set_generators<A>(ts: GTransferSystem<A>, e: Edge)
    requires
        ts.wf(),
        ts.relation_set().contains(e),
    ensures
        generator_ok(ts.universe_of().lattice_of(), e),
{
    let u = ts.universe_of();
    let orbs = u.orbits_of();
    if !(e.from == e.to && e.from < u.lattice_of().card()) {
        let j = choose|j: int| 0 <= j < orbs.len() && ts.bits()[j] && #[trigger] orbs[j].contains(e);
        let t = choose|t: int| 0 <= t < orbs[j].len() && orbs[j][t] == e;
        assert(crate::orbit_theory::is_proper(u.lattice_of(), orbs[j][t]));
    }
}

/// The relations of `q` whose target is `top`.
pub open spec fn into_top(q: Set<Edge>, top: int) -> Set<Edge> {
    Set::new(|e: Edge| q.contains(e) && e.to == top)
}

impl<A> GTransferSystem<A> {
    /// Returns the greatest cosaturated G-transfer system contained in this
    /// one: the system generated by the relations of this one whose target
    /// is the top element.
    pub fn cosaturated_coclosure(&self) -> (r: GTransferSystem<A>)
        requires
            self.wf(),
        ensures
            r.wf(),
            r.universe_of() == self.universe_of(),
            is_transfer_system(self.universe_of().lattice_of(), r.relation_set()),
            into_top(self.relation_set(), self.universe_of().lattice_of().top_of()).subset_of(r.relation_set()),
            r.relation_set().subset_of(self.relation_set()),
            forall|q: Set<Edge>|
                #[trigger] is_transfer_system(self.universe_of().lattice_of(), q) && orbit_closed(self.universe_of().orbits_of(), q)
                    && into_top(self.relation_set(), self.universe_of().lattice_of().top_of()).subset_of(q) ==> r.relation_set().subset_of(q),
    {
        let ghost l = self.universe_of().lattice_of();
        let ghost q0 = self.relation_set();
        let lattice = self.lattice();
        let top = lattice.top();
        let n = lattice.size();
        let mut generators: Vec<Edge> = Vec::new();
        let mut source: usize = 0;
        while source < n
            invariant
                self.wf(),
                l == self.universe_of().lattice_of(),
                q0 == self.relation_set(),
                **lattice == l,
                n == l.card(),
                top == l.top_of(),
                source <= n,
                forall|t: int| 0 <= t < generators@.len() ==> q0.contains(#[trigger] generators@[t]) && generators@[t].to == top,
                forall|e: Edge| #[trigger] q0.contains(e) && e.to == top && e.from < source ==> generators@.contains(e),
            decreases n - source,
        {
            let edge = Edge::new(source, top);
            let ghost before = generators@;
            if self.contains_relation(edge) {
                generators.push(edge);
                proof {
                    assert(generators@[generators@.len() - 1] == edge);
                    assert forall|e: Edge| #[trigger] q0.contains(e) && e.to == top && e.from < source + 1 implies generators@.contains(e) by {
                        if e.from == source {
                            assert(e == edge);
                            assert(generators@[generators@.len() - 1] == e);
                        } else {
                            assert(before.contains(e));
                            let t = choose|t: int| 0 <= t < before.len() && before[t] == e;
                            assert(generators@[t] == e);
                        }
                    }
                }
            } else {
                proof {
                    assert forall|e: Edge| #[trigger] q0.contains(e) && e.to == top && e.from < source + 1 implies generators@.contains(e) by {
                        if e.from == source {
                            assert(e == edge);
                        }
                    }
                }
            }
            source += 1;
        }
        proof {
            assert forall|e: Edge| #[trigger] q0.contains(e) && e.to == top implies generators@.contains(e) by {
                lemma_relation_set_generators(*self, e);
            }
        }
        let ghost gens = generators@;
        match self.universe.generated_by(generators) {
            Ok(ts) => {
                proof {
                    lemma_g_transfer_system_valid(*self);
                    lemma_relation_set_orbit_closed(*self);
                    assert(ts.relation_set().subset_of(q0));
                    assert forall|e: Edge| #[trigger] into_top(q0, top as int).contains(e) implies ts.relation_set().contains(e) by {
                        let t = choose|t: int| 0 <= t < gens.len() && gens[t] == e;
                        assert(ts.relation_set().contains(gens[t]));
                    }
                    assert forall|q: Set<Edge>|
                        #[trigger] is_transfer_system(l, q) && orbit_closed(self.universe_of().orbits_of(), q) && into_top(q0, top as int).subset_of(q)
                        implies ts.relation_set().subset_of(q) by {
                        assert forall|t: int| 0 <= t < gens.len() implies q.contains(#[trigger] gens[t]) by {
                            assert(into_top(q0, top as int).contains(gens[t]));
                        }
                    }
                }
                ts
            },
            Err(e) => {
                proof {
                    match e {
                        GTransferSystemError::EdgeOutOfBounds { edge, lattice_size } => {
                            let k = choose|k: int| 0 <= k < gens.len() && gens[k] == edge && forall|j: int|
                                0 <= j < k ==> #[trigger] generator_ok(l, gens[j]);
                            lemma_relation_set_generators(*self, gens[k]);
                        },
                        GTransferSystemError::NotLatticeRelation { edge } => {
                            let k = choose|k: int| 0 <= k < gens.len() && gens[k] == edge && forall|j: int|
                                0 <= j < k ==> #[trigger] generator_ok(l, gens[j]);
                            lemma_relation_set_generators(*self, gens[k]);
                        },
                        _ => {},
                    }
                }
                vstd::pervasive::unreached()
            },
        }
    }

    /// Returns whether this G-transfer system is cosaturated: generated by
    /// its relations into the top element.
    pub fn is_cosaturated(&self) -> (r: bool)
        requires
            self.wf(),
        ensures
            r == (self.relation_set() == self.cosaturated_set()),
    {
        let coclosure = self.cosaturated_coclosure();
        let r = crate::bits::equal_bits(coclosure.raw.orbit_arrows(), self.raw.orbit_arrows());
        proof {
            self.lemma_cosaturated_set(coclosure);
            if !r && self.relation_set() == coclosure.relation_set() {
                lemma_relation_set_injective(*self, coclosure);
            }
        }
        r
    }

    /// Returns whether this G-transfer system is disklike, that is,
    /// cosaturated.
    pub fn is_disklike(&self) -> (r: bool)
        requires
            self.wf(),
        ensures
            r == (self.relation_set() == self.cosaturated_set()),
    {
        self.is_cosaturated()
    }

    /// The relations of the least transfer system made of whole orbits that
    /// contains the relations of this one into the top element.
    pub open spec fn cosaturated_set(&self) -> Set<Edge> {
        let l = self.universe_of().lattice_of();
        let qs = Set::new(|q: Set<Edge>| is_transfer_system(l, q) && orbit_closed(self.universe_of().orbits_of(), q) && into_top(
            self.relation_set(),
            l.top_of(),
        ).subset_of(q));
        choose|c: Set<Edge>| qs.contains(c) && forall|q: Set<Edge>| #[trigger] qs.contains(q) ==> c.subset_of(q)
    }

    /// The coclosure has the relations of the cosaturated set.
    proof fn lemma_cosaturated_set(&self, c: GTransferSystem<A>)
        requires
            self.wf(),
            c.wf(),
            c.universe_of() == self.universe_of(),
            is_transfer_system(self.universe_of().lattice_of(), c.relation_set()),
            into_top(self.relation_set(), self.universe_of().lattice_of().top_of()).subset_of(c.relation_set()),
            forall|q: Set<Edge>|
                #[trigger] is_transfer_system(self.universe_of().lattice_of(), q) && orbit_closed(self.universe_of().orbits_of(), q)
                    && into_top(self.relation_set(), self.universe_of().lattice_of().top_of()).subset_of(q) ==> c.relation_set().subset_of(q),
        ensures
            self.cosaturated_set() == c.relation_set(),
    {
        let l = self.universe_of().lattice_of();
        let qs = Set::new(|q: Set<Edge>| is_transfer_system(l, q) && orbit_closed(self.universe_of().orbits_of(), q) && into_top(
            self.relation_set(),
            l.top_of(),
        ).subset_of(q));
        lemma_relation_set_orbit_closed(c);
        assert(qs.contains(c.relation_set()));
        let d = self.cosaturated_set();
        assert(qs.contains(d) && forall|q: Set<Edge>| #[trigger] qs.contains(q) ==> d.subset_of(q));
        assert(d.subset_of(c.relation_set()));
        assert(c.relation_set().subset_of(d));
        assert(d =~= c.relation_set());
    }
}

impl<A> GTransferUniverse<A> {
    /// Enumerates the compatible `(additive, multiplicative)` pairs of
    /// G-transfer systems.
    #[verifier::rlimit(40)]
    pub fn compatible_pairs(self: &Arc<Self>) -> (r: Vec<(GTransferSystem<A>, GTransferSystem<A>)>)
        requires
            self.wf(),
        ensures
            forall|i: int| 0 <= i < r@.len() ==> (#[trigger] r@[i]).0.wf() && r@[i].1.wf() && r@[i].0.universe_of() == **self
                && r@[i].1.universe_of() == **self && compatible_sets(self.lattice_of(), r@[i].0.relation_set(), r@[i].1.relation_set()),
            forall|x: GTransferSystem<A>, y: GTransferSystem<A>|
                x.wf() && y.wf() && x.universe_of() == **self && y.universe_of() == **self && #[trigger] compatible_sets(
                    self.lattice_of(),
                    x.relation_set(),
                    y.relation_set(),
                ) ==> listed_pair(r@, x.bits(), y.bits()),
    {
        let systems = self.transfer_systems();
        let mut pairs: Vec<(GTransferSystem<A>, GTransferSystem<A>)> = Vec::new();
        let mut a: usize = 0;
        while a < systems.len()
            invariant
                self.wf(),
                a <= systems@.len(),
                forall|i: int| 0 <= i < systems@.len() ==> (#[trigger] systems@[i]).wf() && systems@[i].universe_of() == **self,
                forall|i: int| 0 <= i < pairs@.len() ==> (#[trigger] pairs@[i]).0.wf() && pairs@[i].1.wf() && pairs@[i].0.universe_of() == **self
                    && pairs@[i].1.universe_of() == **self && compatible_sets(self.lattice_of(), pairs@[i].0.relation_set(), pairs@[i].1.relation_set()),
                forall|p: int, q: int|
                    0 <= p < a && 0 <= q < systems@.len() && compatible_sets(
                        self.lattice_of(),
                        (#[trigger] systems@[p]).relation_set(),
                        (#[trigger] systems@[q]).relation_set(),
                    ) ==> listed_pair(pairs@, systems@[p].bits(), systems@[q].bits()),
            decreases systems@.len() - a,
        {
            let mut b: usize = 0;
            while b < systems.len()
                invariant
                    self.wf(),
                    a < systems@.len(),
                    b <= systems@.len(),
                    forall|i: int| 0 <= i < systems@.len() ==> (#[trigger] systems@[i]).wf() && systems@[i].universe_of() == **self,
                    forall|i: int| 0 <= i < pairs@.len() ==> (#[trigger] pairs@[i]).0.wf() && pairs@[i].1.wf() && pairs@[i].0.universe_of() == **self
                        && pairs@[i].1.universe_of() == **self && compatible_sets(self.lattice_of(), pairs@[i].0.relation_set(), pairs@[i].1.relation_set()),
                    forall|p: int, q: int|
                        ((0 <= p < a && 0 <= q < systems@.len()) || (p == a && 0 <= q < b)) && compatible_sets(
                            self.lattice_of(),
                            (#[trigger] systems@[p]).relation_set(),
                            (#[trigger] systems@[q]).relation_set(),
                        ) ==> listed_pair(pairs@, systems@[p].bits(), systems@[q].bits()),
                decreases systems@.len() - b,
            {
                let additive = &systems[a];
                let multiplicative = &systems[b];
                let ghost before = pairs@;
                if additive.compatibility_failure_for_handles(multiplicative, true).is_none() {
                    let left = GTransferSystem { raw: additive.raw.clone(), universe: crate::shared::arc_clone(&additive.universe) };
                    let right = GTransferSystem { raw: multiplicative.raw.clone(), universe: crate::shared::arc_clone(&multiplicative.universe) };
                    pairs.push((left, right));
                    proof {
                        let last = pairs@.len() - 1;
                        assert(pairs@[last].0.bits() == systems@[a as int].bits());
                        assert forall|p: int, q: int|
                            ((0 <= p < a && 0 <= q < systems@.len()) || (p == a && 0 <= q < b + 1)) && compatible_sets(
                                self.lattice_of(),
                                (#[trigger] systems@[p]).relation_set(),
                                (#[trigger] systems@[q]).relation_set(),
                            ) implies listed_pair(pairs@, systems@[p].bits(), systems@[q].bits()) by {
                            if p == a && q == b {
                                assert(pairs@[last].0.bits() == systems@[p].bits() && pairs@[last].1.bits() == systems@[q].bits());
                                assert(listed_pair(pairs@, systems@[p].bits(), systems@[q].bits()));
                            } else {
                                assert(listed_pair(before, systems@[p].bits(), systems@[q].bits()));
                                let i = choose|i: int| 0 <= i < before.len() && (#[trigger] before[i]).0.bits() == systems@[p].bits() && before[i].1.bits() == systems@[q].bits();
                                assert(pairs@[i] == before[i]);
                            }
                        }
                    }
                }
                b += 1;
            }
            a += 1;
        }
        proof {
            assert forall|x: GTransferSystem<A>, y: GTransferSystem<A>|
                x.wf() && y.wf() && x.universe_of() == **self && y.universe_of() == **self && #[trigger] compatible_sets(
                    self.lattice_of(),
                    x.relation_set(),
                    y.relation_set(),
                ) implies listed_pair(pairs@, x.bits(), y.bits()) by {
                assert(self.is_system_bits(x.bits()));
                assert(self.is_system_bits(y.bits()));
                let p = choose|k: int| 0 <= k < systems@.len() && (#[trigger] systems@[k]).bits() == x.bits();
                let q = choose|k: int| 0 <= k < systems@.len() && (#[trigger] systems@[k]).bits() == y.bits();
                assert(systems@[p].relation_set() == x.relation_set());
                assert(systems@[q].relation_set() == y.relation_set());
                assert(listed_pair(pairs@, systems@[p].bits(), systems@[q].bits()));
            }
        }
        pairs
    }
}

/// Some listed pair has the selections `a` and `b`.
pub open spec fn listed_pair<A>(pairs: Seq<(GTransferSystem<A>, GTransferSystem<A>)>, a: Seq<bool>, b: Seq<bool>) -> bool {
    exists|i: int| 0 <= i < pairs.len() && (#[trigger] pairs[i]).0.bits() == a && pairs[i].1.bits() == b
}

/// `basis` is an irredundant generating selection for the closed selection
/// `s`: it lies inside `s`, closes to `s`, and closes to less than `s` once
/// any one of its orbits is dropped.
pub open spec fn is_minimal_basis(m: Seq<Seq<bool>>, cols: nat, basis: Seq<bool>, s: Seq<bool>) -> bool {
    &&& basis.len() == s.len()
    &&& forall|a: int| 0 <= a < basis.len() && #[trigger] basis[a] ==> s[a]
    &&& closure_of(m, cols, basis) == s
    &&& forall|t: int| 0 <= t < basis.len() && #[trigger] basis[t] ==> closure_of(m, cols, basis.update(t, false)) != s
}

impl<A> GTransferSystem<A> {
    /// A minimal generating selection, found by dropping orbits from the
    /// last to the first while the rest still generates.
    fn minimal_basis(&self) -> (r: Bits)
        requires
            self.wf(),
        ensures
            is_minimal_basis(self.universe_of().context_rows(), self.universe_of().attrs_of().len(), r@, self.bits()),
    {
        let ghost m = self.universe_of().context_rows();
        let ghost cols = self.universe_of().attrs_of().len();
        let ghost s = self.bits();
        let target = self.raw.orbit_arrows();
        let mut basis = target.duplicate();
        let count = target.len();
        proof {
            assert(m.len() == s.len());
        }
        let mut j: usize = count;
        while j > 0
            invariant
                self.wf(),
                m == self.universe_of().context_rows(),
                cols == self.universe_of().attrs_of().len(),
                s == self.bits(),
                target@ == s,
                count == s.len(),
                m.len() == s.len(),
                forall|a: int| 0 <= a < m.len() ==> (#[trigger] m[a]).len() == cols,
                j <= count,
                basis@.len() == count,
                forall|a: int| 0 <= a < count && #[trigger] basis@[a] ==> s[a],
                forall|a: int| 0 <= a < j ==> #[trigger] basis@[a] == s[a],
                closure_of(m, cols, basis@) == s,
                forall|t: int| j <= t < count && #[trigger] basis@[t] ==> closure_of(m, cols, basis@.update(t, false)) != s,
            decreases j,
        {
            j -= 1;
            if basis.bit(j) {
                let ghost before = basis@;
                basis.set(j, false);
                let closed = self.universe.close_orbit_arrows(&basis);
                if crate::bits::equal_bits(&closed, target) {
                    proof {
                        assert forall|t: int| j <= t < count && #[trigger] basis@[t] implies closure_of(m, cols, basis@.update(t, false)) != s by {
                            assert(t != j);
                            assert(before[t]);
                            crate::transfer_theory::lemma_closure_monotone(m, cols, basis@.update(t, false), before.update(t, false));
                            crate::transfer_theory::lemma_closure_monotone(m, cols, before.update(t, false), s);
                            if closure_of(m, cols, basis@.update(t, false)) == s {
                                assert(closure_of(m, cols, before.update(t, false)) =~= s);
                            }
                        }
                    }
                } else {
                    basis.set(j, true);
                    proof {
                        assert(basis@ =~= before);
                        assert(before.update(j as int, false) =~= basis@.update(j as int, false));
                    }
                }
            }
        }
        basis
    }

    /// Returns a deterministic minimal set of relation-orbit generators.
    ///
    /// Each returned label stands for its whole orbit.  All minimal bases of
    /// a transfer system have the same cardinality.
    pub fn minimal_generating_set(&self) -> (r: Vec<RelationOrbitLabel>)
        requires
            self.wf(),
        ensures
            exists|basis: Seq<bool>|
                is_minimal_basis(self.universe_of().context_rows(), self.universe_of().attrs_of().len(), basis, self.bits())
                    && r@ == selected_labels(self.universe_of().labels_of(), basis, basis.len() as int),
    {
        let basis = self.minimal_basis();
        let labels = self.universe.relation_orbit_labels();
        let mut result: Vec<RelationOrbitLabel> = Vec::new();
        let mut j: usize = 0;
        while j < basis.len()
            invariant
                self.wf(),
                labels@ == self.universe_of().labels_of(),
                labels@.len() == basis@.len(),
                basis@.len() == self.bits().len(),
                j <= basis@.len(),
                result@ == selected_labels(labels@, basis@, j as int),
            decreases basis@.len() - j,
        {
            if basis.bit(j) {
                result.push(labels[j]);
            }
            j += 1;
        }
        result
    }

    /// Returns a minimum-cardinality relation-orbit generating set: the
    /// minimal generating set, since all minimal bases have one size.
    pub fn minimum_generating_set(&self) -> (r: Vec<RelationOrbitLabel>)
        requires
            self.wf(),
        ensures
            exists|basis: Seq<bool>|
                is_minimal_basis(self.universe_of().context_rows(), self.universe_of().attrs_of().len(), basis, self.bits())
                    && r@ == selected_labels(self.universe_of().labels_of(), basis, basis.len() as int),
    {
        self.minimal_generating_set()
    }

    /// Returns the common cardinality of the minimal generating sets.
    pub fn generator_complexity(&self) -> (r: usize)
        requires
            self.wf(),
        ensures
            exists|basis: Seq<bool>|
                is_minimal_basis(self.universe_of().context_rows(), self.universe_of().attrs_of().len(), basis, self.bits())
                    && r == crate::bits::count_true(basis),
    {
        let basis = self.minimal_basis();
        basis.count_ones()
    }
}

impl<A> GTransferUniverse<A> {
    /// Returns the largest generator complexity among all G-transfer
    /// systems: the size of the minimal basis found for each system is at
    /// most the result, and the result is attained (or zero).
    pub fn complexity(self: &Arc<Self>) -> (r: usize)
        requires
            self.wf(),
        ensures
            forall|ts: GTransferSystem<A>| #[trigger] ts.wf() && ts.universe_of() == **self ==> exists|basis: Seq<bool>|
                is_minimal_basis(self.context_rows(), self.attrs_of().len(), basis, ts.bits()) && crate::bits::count_true(basis) <= r,
            r == 0 || exists|s: Seq<bool>, basis: Seq<bool>|
                self.is_system_bits(s) && is_minimal_basis(self.context_rows(), self.attrs_of().len(), basis, s) && crate::bits::count_true(basis) == r,
    {
        let ghost m = self.context_rows();
        let ghost cols = self.attrs_of().len();
        let systems = self.transfer_systems();
        let mut best: usize = 0;
        let ghost mut bases: Seq<Seq<bool>> = Seq::empty();
        let mut i: usize = 0;
        while i < systems.len()
            invariant
                self.wf(),
                m == self.context_rows(),
                cols == self.attrs_of().len(),
                i <= systems@.len(),
                forall|k: int| 0 <= k < systems@.len() ==> (#[trigger] systems@[k]).wf() && systems@[k].universe_of() == **self,
                bases.len() == i,
                forall|k: int| 0 <= k < i ==> is_minimal_basis(m, cols, #[trigger] bases[k], systems@[k].bits()) && crate::bits::count_true(bases[k]) <= best,
                best == 0 || exists|k: int| 0 <= k < i && crate::bits::count_true(#[trigger] bases[k]) == best,
            decreases systems@.len() - i,
        {
            let basis = systems[i].minimal_basis();
            let c = basis.count_ones();
            let ghost old_bases = bases;
            proof {
                bases = bases.push(basis@);
                assert(bases[i as int] == basis@);
            }
            if c > best {
                best = c;
                proof {
                    assert(crate::bits::count_true(bases[i as int]) == best);
                }
            } else {
                proof {
                    if best != 0 {
                        let k = choose|k: int| 0 <= k < i && crate::bits::count_true(#[trigger] old_bases[k]) == best;
                        assert(bases[k] == old_bases[k]);
                    }
                }
            }
            i += 1;
        }
        proof {
            assert forall|ts: GTransferSystem<A>| #[trigger] ts.wf() && ts.universe_of() == **self implies exists|basis: Seq<bool>|
                is_minimal_basis(m, cols, basis, ts.bits()) && crate::bits::count_true(basis) <= best by {
                assert(self.is_system_bits(ts.bits()));
                let k = choose|k: int| 0 <= k < systems@.len() && (#[trigger] systems@[k]).bits() == ts.bits();
                assert(is_minimal_basis(m, cols, bases[k], systems@[k].bits()));
            }
            if best != 0 {
                let k = choose|k: int| 0 <= k < systems@.len() && crate::bits::count_true(#[trigger] bases[k]) == best;
                assert(is_minimal_basis(m, cols, bases[k], systems@[k].bits()));
                assert(self.is_system_bits(systems@[k].bits()));
            }
        }
        best
    }

    /// Returns the generator complexity of the complete G-transfer system,
    /// the closure of all orbits.
    pub fn width(self: &Arc<Self>) -> (r: usize)
        requires
            self.wf(),
        ensures
            exists|basis: Seq<bool>|
                is_minimal_basis(
                    self.context_rows(),
                    self.attrs_of().len(),
                    basis,
                    closure_of(self.context_rows(), self.attrs_of().len(), Seq::new(self.orbits_of().len(), |_i: int| true)),
                ) && r == crate::bits::count_true(basis),
    {
        let all = Bits::repeat(true, self.relation_orbits.len());
        let closed = self.close_orbit_arrows(&all);
        proof {
            crate::transfer_theory::lemma_closure_idempotent(self.context_rows(), self.attrs_of().len(), all@);
        }
        let top = GTransferSystem { raw: RawGTransferSystem::new(closed), universe: crate::shared::arc_clone(self) };
        top.generator_complexity()
    }
}

impl<A> GLattice<A> {
    /// Returns the largest generator complexity among the G-transfer
    /// systems of this G-lattice.
    pub fn transfer_system_complexity(&self) -> (r: usize)
        requires
            self.wf(),
        ensures
            exists|u: GTransferUniverse<A>| {
                &&& u.wf()
                &&& u.lattice_of() == self.lattice_of()
                &&& u.orbits_of() == self.proper_orbits()
                &&& forall|ts: GTransferSystem<A>| #[trigger] ts.wf() && ts.universe_of() == u ==> exists|basis: Seq<bool>|
                    is_minimal_basis(u.context_rows(), u.attrs_of().len(), basis, ts.bits()) && crate::bits::count_true(basis) <= r
                &&& r == 0 || exists|s: Seq<bool>, basis: Seq<bool>|
                    u.is_system_bits(s) && is_minimal_basis(u.context_rows(), u.attrs_of().len(), basis, s) && crate::bits::count_true(basis) == r
            },
    {
        let universe = self.transfer_universe();
        universe.complexity()
    }

    /// Returns the generator complexity of the complete G-transfer system of
    /// this G-lattice.
    pub fn transfer_system_width(&self) -> (r: usize)
        requires
            self.wf(),
        ensures
            exists|u: GTransferUniverse<A>, basis: Seq<bool>| u.wf() && u.lattice_of() == self.lattice_of() && u.orbits_of() == self.proper_orbits()
                && is_minimal_basis(
                u.context_rows(),
                u.attrs_of().len(),
                basis,
                closure_of(u.context_rows(), u.attrs_of().len(), Seq::new(u.orbits_of().len(), |_i: int| true)),
            ) && r == crate::bits::count_true(basis),
    {
        let universe = self.transfer_universe();
        universe.width()
    }
}

impl<A> GTransferUniverse<A> {
    /// Enumerates the saturated G-transfer systems of this universe, each
    /// once.
    pub fn saturated_transfer_systems(self: &Arc<Self>) -> (r: Vec<GTransferSystem<A>>)
        requires
            self.wf(),
        ensures
            forall|i: int| 0 <= i < r@.len() ==> (#[trigger] r@[i]).wf() && r@[i].universe_of() == **self && is_saturated_set(
                self.lattice_of(),
                r@[i].relation_set(),
            ),
            forall|i: int, j: int| 0 <= i < j < r@.len() ==> (#[trigger] r@[i]).bits() != (#[trigger] r@[j]).bits(),
            forall|ts: GTransferSystem<A>|
                #[trigger] ts.wf() && ts.universe_of() == **self && is_saturated_set(self.lattice_of(), ts.relation_set()) ==> exists|i: int|
                    0 <= i < r@.len() && (#[trigger] r@[i]).bits() == ts.bits(),
    {
        let systems = self.transfer_systems();
        let mut result: Vec<GTransferSystem<A>> = Vec::new();
        let ghost mut picked: Seq<int> = Seq::empty();
        let mut i: usize = 0;
        while i < systems.len()
            invariant
                self.wf(),
                i <= systems@.len(),
                forall|k: int| 0 <= k < systems@.len() ==> (#[trigger] systems@[k]).wf() && systems@[k].universe_of() == **self,
                forall|a: int, b: int| 0 <= a < b < systems@.len() ==> (#[trigger] systems@[a]).bits() != (#[trigger] systems@[b]).bits(),
                picked.len() == result@.len(),
                forall|k: int| 0 <= k < picked.len() ==> 0 <= #[trigger] picked[k] < i && result@[k].bits() == systems@[picked[k]].bits(),
                forall|a: int, b: int| 0 <= a < b < picked.len() ==> #[trigger] picked[a] < #[trigger] picked[b],
                forall|k: int| 0 <= k < result@.len() ==> (#[trigger] result@[k]).wf() && result@[k].universe_of() == **self && is_saturated_set(
                    self.lattice_of(),
                    result@[k].relation_set(),
                ),
                forall|k: int| 0 <= k < i && is_saturated_set(self.lattice_of(), (#[trigger] systems@[k]).relation_set()) ==> exists|t: int|
                    0 <= t < picked.len() && picked[t] == k,
            decreases systems@.len() - i,
        {
            if systems[i].is_saturated() {
                let copy = GTransferSystem { raw: systems[i].raw.clone(), universe: crate::shared::arc_clone(&systems[i].universe) };
                result.push(copy);
                let ghost old_picked = picked;
                proof {
                    picked = picked.push(i as int);
                    assert forall|k: int| 0 <= k < i + 1 && is_saturated_set(self.lattice_of(), (#[trigger] systems@[k]).relation_set()) implies exists|t: int|
                        0 <= t < picked.len() && picked[t] == k by {
                        if k == i {
                            assert(picked[picked.len() - 1] == k);
                        } else {
                            let t = choose|t: int| 0 <= t < old_picked.len() && old_picked[t] == k;
                            assert(picked[t] == k);
                        }
                    }
                }
            }
            i += 1;
        }
        proof {
            assert forall|a: int, b: int| 0 <= a < b < result@.len() implies (#[trigger] result@[a]).bits() != (#[trigger] result@[b]).bits() by {
                assert(picked[a] < picked[b]);
                assert(systems@[picked[a]].bits() != systems@[picked[b]].bits());
            }
            assert forall|ts: GTransferSystem<A>|
                #[trigger] ts.wf() && ts.universe_of() == **self && is_saturated_set(self.lattice_of(), ts.relation_set()) implies exists|i: int|
                    0 <= i < result@.len() && (#[trigger] result@[i]).bits() == ts.bits() by {
                assert(self.is_system_bits(ts.bits()));
                let k = choose|k: int| 0 <= k < systems@.len() && (#[trigger] systems@[k]).bits() == ts.bits();
                assert(systems@[k].relation_set() == ts.relation_set());
                let t = choose|t: int| 0 <= t < picked.len() && picked[t] == k;
                assert(result@[t].bits() == ts.bits());
            }
        }
        result
    }
}

/// Adding bits never lowers the count, and adding at least one raises it.
proof fn lemma_count_true_grows(a: Seq<bool>, b: Seq<bool>)
    requires
        a.len() == b.len(),
        forall|i: int| 0 <= i < a.len() && #[trigger] a[i] ==> b[i],
    ensures
        crate::bits::count_true(a) <= crate::bits::count_true(b),
        a != b ==> crate::bits::count_true(a) < crate::bits::count_true(b),
        crate::bits::count_true(b) <= b.len(),
    decreases a.len(),
{
    crate::bits::lemma_count_true_full(b);
    if a.len() > 0 {
        let a0 = a.drop_last();
        let b0 = b.drop_last();
        assert forall|i: int| 0 <= i < a0.len() && #[trigger] a0[i] implies b0[i] by {
            assert(a[i]);
        }
        lemma_count_true_grows(a0, b0);
        if a != b && a0 == b0 {
            assert(a.last() != b.last()) by {
                if a.last() == b.last() {
                    assert(a =~= b) by {
                        assert forall|i: int| 0 <= i < a.len() implies a[i] == b[i] by {
                            if i < a0.len() {
                                assert(a0[i] == b0[i]);
                            }
                        }
                    }
                }
            }
        }
    } else {
        assert(a =~= b);
    }
}

impl<A> GTransferSystem<A> {
    /// Returns the least saturated G-transfer system containing this one:
    /// the required orbits are added and the result closed, until nothing
    /// changes.
    pub fn saturated_closure(&self) -> (r: GTransferSystem<A>)
        requires
            self.wf(),
        ensures
            r.wf(),
            r.universe_of() == self.universe_of(),
            self.relation_set().subset_of(r.relation_set()),
            is_transfer_system(self.universe_of().lattice_of(), r.relation_set()),
            is_saturated_set(self.universe_of().lattice_of(), r.relation_set()),
            forall|q: Set<Edge>|
                #[trigger] is_transfer_system(self.universe_of().lattice_of(), q) && orbit_closed(self.universe_of().orbits_of(), q)
                    && is_saturated_set(self.universe_of().lattice_of(), q) && self.relation_set().subset_of(q) ==> r.relation_set().subset_of(q),
    {
        let ghost u = self.universe_of();
        let ghost l = u.lattice_of();
        let ghost orbs = u.orbits_of();
        let ghost n = l.card();
        let ghost m = u.context_rows();
        let ghost cols = u.attrs_of().len();
        let ghost p = u.underlying_of().edges_of();
        let lattice = self.lattice();
        let size = lattice.size();
        let count = self.universe.relation_orbits.len();
        let mut current = self.raw.orbit_arrows().duplicate();
        loop
            invariant
                self.wf(),
                u == self.universe_of(),
                l == u.lattice_of(),
                orbs == u.orbits_of(),
                n == l.card(),
                m == u.context_rows(),
                cols == u.attrs_of().len(),
                p == u.underlying_of().edges_of(),
                **lattice == l,
                size == n,
                count == orbs.len(),
                current@.len() == count,
                u.is_system_bits(current@),
                forall|i: int| 0 <= i < count && #[trigger] self.bits()[i] ==> current@[i],
                forall|q: Set<Edge>|
                    #[trigger] is_transfer_system(l, q) && orbit_closed(orbs, q) && is_saturated_set(l, q) && self.relation_set().subset_of(q)
                        ==> system_of_orbits(orbs, current@, n).subset_of(q),
            decreases count - crate::bits::count_true(current@),
        {
            let ghost cs = system_of_orbits(orbs, current@, n);
            let mut generators = current.duplicate();
            let mut i: usize = 0;
            while i < count
                invariant
                    self.wf(),
                    u == self.universe_of(),
                    l == u.lattice_of(),
                    orbs == u.orbits_of(),
                    n == l.card(),
                    **lattice == l,
                    size == n,
                    count == orbs.len(),
                    current@.len() == count,
                    cs == system_of_orbits(orbs, current@, n),
                    generators@.len() == count,
                    i <= count,
                    forall|a: int| 0 <= a < count && #[trigger] current@[a] ==> generators@[a],
                    forall|q: Set<Edge>|
                        #[trigger] is_transfer_system(l, q) && orbit_closed(orbs, q) && is_saturated_set(l, q) && cs.subset_of(q)
                            ==> system_of_orbits(orbs, generators@, n).subset_of(q),
                    forall|j: int, k: int, x: int|
                        0 <= j < i && current@[j] && 0 <= k < orbs[j].len() ==> #[trigger] saturated_at(l, system_of_orbits(orbs, generators@, n), orbs[j][k], x),
                decreases count - i,
            {
                if current.bit(i) {
                    let orbit = self.universe.relation_orbit_relations(i).unwrap();
                    let mut k: usize = 0;
                    while k < orbit.len()
                        invariant
                            self.wf(),
                            u == self.universe_of(),
                            l == u.lattice_of(),
                            orbs == u.orbits_of(),
                            n == l.card(),
                            **lattice == l,
                            size == n,
                            count == orbs.len(),
                            current@.len() == count,
                            cs == system_of_orbits(orbs, current@, n),
                            generators@.len() == count,
                            i < count,
                            current@[i as int],
                            orbit@ == orbs[i as int],
                            k <= orbit@.len(),
                            forall|a: int| 0 <= a < count && #[trigger] current@[a] ==> generators@[a],
                            forall|q: Set<Edge>|
                                #[trigger] is_transfer_system(l, q) && orbit_closed(orbs, q) && is_saturated_set(l, q) && cs.subset_of(q)
                                    ==> system_of_orbits(orbs, generators@, n).subset_of(q),
                            forall|j: int, t: int, x: int|
                                ((0 <= j < i && current@[j]) || (j == i && 0 <= t < k)) && 0 <= t < orbs[j].len() ==> #[trigger] saturated_at(
                                    l,
                                    system_of_orbits(orbs, generators@, n),
                                    orbs[j][t],
                                    x,
                                ),
                        decreases orbit@.len() - k,
                    {
                        let relation = orbit[k];
                        assert(crate::orbit_theory::is_proper(l, orbs[i as int][k as int]));
                        assert(orbs[i as int].contains(relation));
                        assert(cs.contains(relation));
                        let mut x: usize = 0;
                        while x < size
                            invariant
                                self.wf(),
                                u == self.universe_of(),
                                l == u.lattice_of(),
                                orbs == u.orbits_of(),
                                n == l.card(),
                                **lattice == l,
                                size == n,
                                count == orbs.len(),
                                current@.len() == count,
                                cs == system_of_orbits(orbs, current@, n),
                                cs.contains(relation),
                                relation.from < n && relation.to < n,
                                relation.from != relation.to,
                                generators@.len() == count,
                                i < count,
                                current@[i as int],
                                k < orbs[i as int].len(),
                                relation == orbs[i as int][k as int],
                                x <= size,
                                forall|a: int| 0 <= a < count && #[trigger] current@[a] ==> generators@[a],
                                forall|q: Set<Edge>|
                                    #[trigger] is_transfer_system(l, q) && orbit_closed(orbs, q) && is_saturated_set(l, q) && cs.subset_of(q)
                                        ==> system_of_orbits(orbs, generators@, n).subset_of(q),
                                forall|j: int, t: int, y: int|
                                    ((0 <= j < i && current@[j]) || (j == i && 0 <= t < k)) && 0 <= t < orbs[j].len() ==> #[trigger] saturated_at(
                                        l,
                                        system_of_orbits(orbs, generators@, n),
                                        orbs[j][t],
                                        y,
                                    ),
                                forall|y: int| 0 <= y < x ==> #[trigger] saturated_at(l, system_of_orbits(orbs, generators@, n), relation, y),
                            decreases size - x,
                        {
                            if lattice.leq(relation.from, x) && lattice.leq(x, relation.to) && x != relation.to {
                                let required = Edge::new(x, relation.to);
                                match self.universe.relation_orbit_label_id(required) {
                                    Some(o) => {
                                        let ghost before = generators@;
                                        generators.set(o, true);
                                        proof {
                                            let after = generators@;
                                            assert forall|e: Edge| system_of_orbits(orbs, before, n).contains(e) implies system_of_orbits(orbs, after, n).contains(e) by {
                                                if !(e.from == e.to && e.from < n) {
                                                    let j = choose|j: int| 0 <= j < orbs.len() && before[j] && #[trigger] orbs[j].contains(e);
                                                    assert(after[j]);
                                                }
                                            }
                                            assert forall|j: int, t: int, y: int|
                                                ((0 <= j < i && current@[j]) || (j == i && 0 <= t < k)) && 0 <= t < orbs[j].len() implies #[trigger] saturated_at(
                                                    l,
                                                    system_of_orbits(orbs, after, n),
                                                    orbs[j][t],
                                                    y,
                                                ) by {
                                                assert(saturated_at(l, system_of_orbits(orbs, before, n), orbs[j][t], y));
                                            }
                                            assert forall|y: int| 0 <= y < x + 1 implies #[trigger] saturated_at(l, system_of_orbits(orbs, after, n), relation, y) by {
                                                if y < x {
                                                    assert(saturated_at(l, system_of_orbits(orbs, before, n), relation, y));
                                                } else {
                                                    assert(after[o as int] && orbs[o as int].contains(required));
                                                }
                                            }
                                            assert forall|q: Set<Edge>|
                                                #[trigger] is_transfer_system(l, q) && orbit_closed(orbs, q) && is_saturated_set(l, q) && cs.subset_of(q)
                                                implies system_of_orbits(orbs, after, n).subset_of(q) by {
                                                assert(system_of_orbits(orbs, before, n).subset_of(q));
                                                assert(q.contains(relation));
                                                assert(saturated_at(l, q, relation, x as int));
                                                assert(q.contains(required));
                                                assert forall|e: Edge| system_of_orbits(orbs, after, n).contains(e) implies q.contains(e) by {
                                                    if !(e.from == e.to && e.from < n) {
                                                        let j = choose|j: int| 0 <= j < orbs.len() && after[j] && #[trigger] orbs[j].contains(e);
                                                        if j == o {
                                                            let a = choose|a: int| 0 <= a < orbs[j].len() && orbs[j][a] == required;
                                                            let b = choose|b: int| 0 <= b < orbs[j].len() && orbs[j][b] == e;
                                                            assert(q.contains(orbs[j][a]));
                                                        } else {
                                                            assert(before[j]);
                                                            assert(system_of_orbits(orbs, before, n).contains(e));
                                                        }
                                                    }
                                                }
                                            }
                                        }
                                    },
                                    None => {
                                        proof {
                                            assert(crate::orbit_theory::is_proper(l, required));
                                        }
                                    },
                                }
                            }
                            x += 1;
                        }
                        k += 1;
                    }
                }
                i += 1;
            }
            let next = self.universe.close_orbit_arrows(&generators);
            proof {
                let g = generators@;
                lemma_orbit_closure_least(l, p, orbs, u.attrs_of(), g);
                crate::transfer_theory::lemma_closure_extensive(m, cols, g);
                assert forall|a: int| 0 <= a < count && #[trigger] current@[a] implies next@[a] by {
                    assert(g[a]);
                }
                assert forall|q: Set<Edge>|
                    #[trigger] is_transfer_system(l, q) && orbit_closed(orbs, q) && is_saturated_set(l, q) && self.relation_set().subset_of(q)
                    implies system_of_orbits(orbs, next@, n).subset_of(q) by {
                    assert(cs.subset_of(q));
                    assert(system_of_orbits(orbs, g, n).subset_of(q));
                }
                lemma_count_true_grows(current@, next@);
            }
            if crate::bits::equal_bits(&next, &current) {
                proof {
                    let g = generators@;
                    assert(next@ == current@);
                    assert forall|e: Edge, y: int| #[trigger] cs.contains(e) && e.from != e.to implies #[trigger] saturated_at(l, cs, e, y) by {
                        let j = choose|j: int| 0 <= j < orbs.len() && current@[j] && #[trigger] orbs[j].contains(e);
                        let t = choose|t: int| 0 <= t < orbs[j].len() && orbs[j][t] == e;
                        assert(saturated_at(l, system_of_orbits(orbs, g, n), orbs[j][t], y));
                        if 0 <= y < n && l.le(e.from as int, y) && l.le(y, e.to as int) && y != e.to {
                            let f = Edge { from: y as usize, to: e.to };
                            assert(system_of_orbits(orbs, g, n).contains(f));
                            if !(f.from == f.to && f.from < n) {
                                let h = choose|h: int| 0 <= h < orbs.len() && g[h] && #[trigger] orbs[h].contains(f);
                                assert(next@[h]);
                            }
                        }
                    }
                    assert forall|e: Edge| self.relation_set().contains(e) implies cs.contains(e) by {
                        if !(e.from == e.to && e.from < n) {
                            let j = choose|j: int| 0 <= j < orbs.len() && self.bits()[j] && #[trigger] orbs[j].contains(e);
                            assert(current@[j]);
                        }
                    }
                    lemma_orbit_closed_iff(l, p, orbs, u.attrs_of(), current@);
                }
                return GTransferSystem { raw: RawGTransferSystem::new(current), universe: crate::shared::arc_clone(&self.universe) };
            }
            current = next;
        }
    }
}

/// The orbits selected by the proper relations among `generators`.
pub open spec fn generator_selection(orbs: Seq<Seq<Edge>>, generators: Seq<Edge>) -> Seq<bool> {
    Seq::new(orbs.len(), |i: int| selected_by(orbs, generators, generators.len() as int, i))
}

impl<A> GTransferSystem<A> {
    /// Returns whether the supplied relations are an irredundant generating
    /// set: no identities, no two in one orbit, generating this system, and
    /// no longer generating it once any one is left out.
    pub fn is_minimal_generating_set(&self, generators: Vec<Edge>) -> (r: Result<bool, GTransferSystemError>)
        requires
            self.wf(),
        ensures
            match r {
                Ok(b) => b == {
                    &&& forall|j: int| 0 <= j < generators@.len() ==> (#[trigger] generators@[j]).from != generators@[j].to
                    &&& crate::bits::count_true(generator_selection(self.universe_of().orbits_of(), generators@)) == generators@.len()
                    &&& is_minimal_basis(
                        self.universe_of().context_rows(),
                        self.universe_of().attrs_of().len(),
                        generator_selection(self.universe_of().orbits_of(), generators@),
                        self.bits(),
                    )
                },
                Err(_) => exists|k: int| 0 <= k < generators@.len() && !generator_ok(self.universe_of().lattice_of(), #[trigger] generators@[k]),
            },
    {
        let ghost u = self.universe_of();
        let ghost m = u.context_rows();
        let ghost cols = u.attrs_of().len();
        let ghost target_bits = self.bits();
        let ghost sel = generator_selection(u.orbits_of(), generators@);
        let mut j: usize = 0;
        while j < generators.len()
            invariant
                j <= generators@.len(),
                forall|t: int| 0 <= t < j ==> (#[trigger] generators@[t]).from != generators@[t].to,
            decreases generators@.len() - j,
        {
            if generators[j].is_identity() {
                return Ok(false);
            }
            j += 1;
        }
        let bits = match self.universe.generator_orbit_bits(&generators) {
            Ok(b) => b,
            Err(e) => {
                proof {
                    match e {
                        GTransferSystemError::EdgeOutOfBounds { edge, lattice_size } => {
                            let k = choose|k: int| 0 <= k < generators@.len() && generators@[k] == edge && forall|j: int|
                                0 <= j < k ==> #[trigger] generator_ok(u.lattice_of(), generators@[j]);
                            assert(!generator_ok(u.lattice_of(), generators@[k]));
                        },
                        GTransferSystemError::NotLatticeRelation { edge } => {
                            let k = choose|k: int| 0 <= k < generators@.len() && generators@[k] == edge && forall|j: int|
                                0 <= j < k ==> #[trigger] generator_ok(u.lattice_of(), generators@[j]);
                            assert(!generator_ok(u.lattice_of(), generators@[k]));
                        },
                        _ => {},
                    }
                }
                return Err(e);
            },
        };
        assert(bits@ =~= sel);
        if bits.count_ones() != generators.len() {
            return Ok(false);
        }
        let target = self.raw.orbit_arrows();
        let closed = self.universe.close_orbit_arrows(&bits);
        if !crate::bits::equal_bits(&closed, target) {
            return Ok(false);
        }
        proof {
            crate::transfer_theory::lemma_closure_extensive(m, cols, sel);
            assert forall|a: int| 0 <= a < sel.len() && #[trigger] sel[a] implies target_bits[a] by {
                assert(closure_of(m, cols, sel)[a]);
            }
        }
        let count = bits.len();
        let mut t: usize = 0;
        while t < count
            invariant
                self.wf(),
                u == self.universe_of(),
                m == u.context_rows(),
                cols == u.attrs_of().len(),
                bits@ == sel,
                target@ == target_bits,
                target_bits == self.bits(),
                count == sel.len(),
                sel.len() == u.orbits_of().len(),
                sel == generator_selection(u.orbits_of(), generators@),
                forall|j: int| 0 <= j < generators@.len() ==> (#[trigger] generators@[j]).from != generators@[j].to,
                crate::bits::count_true(sel) == generators@.len(),
                closure_of(m, cols, sel) == target_bits,
                forall|a: int| 0 <= a < sel.len() && #[trigger] sel[a] ==> target_bits[a],
                t <= count,
                forall|a: int| 0 <= a < t && #[trigger] sel[a] ==> closure_of(m, cols, sel.update(a, false)) != target_bits,
            decreases count - t,
        {
            if bits.bit(t) {
                let mut smaller = bits.duplicate();
                smaller.set(t, false);
                assert(smaller@ =~= sel.update(t as int, false));
                let reduced = self.universe.close_orbit_arrows(&smaller);
                if crate::bits::equal_bits(&reduced, target) {
                    proof {
                        assert(sel[t as int]);
                        assert(closure_of(m, cols, sel.update(t as int, false)) == target_bits);
                        assert(!is_minimal_basis(m, cols, sel, target_bits));
                    }
                    return Ok(false);
                }
            }
            t += 1;
        }
        Ok(true)
    }
}

} // verus!
