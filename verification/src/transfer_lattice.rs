//! Transfer systems on finite lattices.
//!
//! Let `L` be a finite lattice.  A transfer system is a partial order `R` on
//! the elements of `L` such that `x R y` implies `x <= y`, and `x R y` with
//! `z <= y` implies `(x /\ z) R z` (restriction).
//!
//! Identity relations are implicit: a system is a bit vector selecting
//! proper lattice relations `x < y`.  A [`RelationIndex`] fixes which
//! relation each bit denotes, and a [`TransferUniverse`] bundles that
//! indexing with the formal context whose closed object sets are exactly the
//! transfer systems (see [`crate::transfer_theory`]).  Generation is one
//! double derivation in that context, and enumeration lists its concepts.

use crate::bits::{is_subset, matrix_of, max_bits, subset_bits, Bits};
use crate::concepts::{
    context_attribute_count, context_incidence, formal_context_concept_extents,
    formal_context_induce_l, formal_context_induce_r, formal_context_new,
};
use crate::edges::{copy_edges, Edge, EdgeSet, ElementId};
use crate::lattice::{Lattice, LatticeError};
use crate::order::{is_join, is_meet, is_partial_order, is_square, lifts, row_major};
use crate::poset::{Poset, PosetError};
use crate::shared::arc_clone;
use crate::transfer_theory::{
    join_bits, lemma_closed_sets_lattice, lists_closed_sets, meet_bits, lemma_transfer_system_is_closed,
    closure_of, is_closed, is_proper_list, is_transfer_system, lemma_closed_iff_transfer_system,
    lemma_closure_extensive, lemma_closure_is_least, lemma_closure_is_transfer_system, system_of,
    transfer_context,
};
use fcars::FormalContext;
use std::sync::Arc;
use vstd::prelude::*;

verus! {

/// A transfer system stored as a bit vector of non-identity lattice
/// relations; the universe that interprets it lives elsewhere.
#[derive(Debug)]
pub struct RawTransferSystem {
    arrows: Bits,
}

impl RawTransferSystem {
    /// The selected relations, one bit per proper relation.
    pub closed spec fn bits(&self) -> Seq<bool> {
        self.arrows@
    }

    /// Wraps a bit vector.
    pub(crate) fn new(arrows: Bits) -> (r: Self)
        ensures
            r.bits() == arrows@,
    {
        RawTransferSystem { arrows }
    }

    /// Returns the bit vector of non-identity relations: bit `i` stands for
    /// `universe.proper_edges()[i]`.
    pub fn arrows(&self) -> (r: &Bits)
        ensures
            r@ == self.bits(),
    {
        &self.arrows
    }
}

impl Clone for RawTransferSystem {
    fn clone(&self) -> (r: Self)
        ensures
            r.bits() == self.bits(),
    {
        RawTransferSystem { arrows: self.arrows.duplicate() }
    }
}

impl PartialEq for RawTransferSystem {
    fn eq(&self, other: &Self) -> (r: bool) {
        crate::bits::equal_bits(&self.arrows, &other.arrows)
    }
}

impl Eq for RawTransferSystem {
}

impl vstd::std_specs::cmp::PartialEqSpecImpl for RawTransferSystem {
    open spec fn obeys_eq_spec() -> bool {
        true
    }

    open spec fn eq_spec(&self, other: &Self) -> bool {
        self.bits() == other.bits()
    }
}

/// A stable indexing of the proper relations of a finite lattice, in
/// row-major order, with constant-time lookup of a relation's bit.
#[derive(Debug)]
pub struct RelationIndex<A> {
    lattice: Arc<Lattice<A>>,
    proper_edges: Vec<Edge>,
    proper_edge_ids: Vec<Vec<Option<usize>>>,
}

impl<A> RelationIndex<A> {
    /// The indexed lattice.
    pub closed spec fn lattice_of(&self) -> Lattice<A> {
        *self.lattice
    }

    /// The proper relations, in bit order.
    pub closed spec fn edges_of(&self) -> Seq<Edge> {
        self.proper_edges@
    }

    /// The lookup table agrees with the list.
    pub closed spec fn table_wf(&self) -> bool {
        &&& self.proper_edge_ids@.len() == self.lattice_of().card()
        &&& forall|i: int| 0 <= i < self.lattice_of().card() ==> (#[trigger] self.proper_edge_ids@[i])@.len() == self.lattice_of().card()
        &&& forall|i: int, j: int|
            0 <= i < self.lattice_of().card() && 0 <= j < self.lattice_of().card() ==> match #[trigger] self.proper_edge_ids@[i]@[j] {
                Some(k) => k < self.edges_of().len() && self.edges_of()[k as int] == (Edge { from: i as usize, to: j as usize }),
                None => !self.edges_of().contains(Edge { from: i as usize, to: j as usize }),
            }
    }

    /// A well-formed index: every proper relation once, in row-major order.
    pub open spec fn wf(&self) -> bool {
        &&& self.lattice_of().wf()
        &&& is_proper_list(self.lattice_of(), self.edges_of())
        &&& row_major(self.edges_of())
        &&& self.edges_of().len() <= max_bits()
        &&& self.table_wf()
    }

    /// Constructs the row-major index of all proper relations of `lattice`.
    pub fn new(lattice: Arc<Lattice<A>>) -> (r: Self)
        requires
            lattice.wf(),
            lattice.card() * lattice.card() <= max_bits(),
        ensures
            r.wf(),
            r.lattice_of() == *lattice,
    {
        let proper_edges = lattice.as_poset().proper_relations_iter();
        let n = lattice.size();
        let mut ids: Vec<Vec<Option<usize>>> = Vec::new();
        let mut i: usize = 0;
        while i < n
            invariant
                i <= n,
                ids@.len() == i,
                forall|a: int| 0 <= a < i ==> (#[trigger] ids@[a])@.len() == n,
                forall|a: int, b: int| 0 <= a < i && 0 <= b < n ==> #[trigger] ids@[a]@[b] == None::<usize>,
            decreases n - i,
        {
            let mut row: Vec<Option<usize>> = Vec::new();
            let mut j: usize = 0;
            while j < n
                invariant
                    j <= n,
                    row@.len() == j,
                    forall|b: int| 0 <= b < j ==> #[trigger] row@[b] == None::<usize>,
                decreases n - j,
            {
                row.push(None);
                j += 1;
            }
            ids.push(row);
            i += 1;
        }
        let ghost p = proper_edges@;
        proof {
            assert(p.no_duplicates()) by {
                assert forall|a: int, b: int| 0 <= a < p.len() && 0 <= b < p.len() && a != b implies p[a] != p[b] by {
                    if a < b {
                        assert(crate::order::edge_lt(p[a], p[b]));
                    } else {
                        assert(crate::order::edge_lt(p[b], p[a]));
                    }
                }
            }
            assert forall|e: Edge|
                e.from < lattice.card() && e.to < lattice.card() && e.from != e.to && lattice.le(e.from as int, e.to as int)
                    implies #[trigger] p.contains(e) by {
                assert(lattice.poset_of().le(e.from as int, e.to as int));
            }
            lemma_row_major_bound(p, lattice.card());
        }
        let mut k: usize = 0;
        while k < proper_edges.len()
            invariant
                p == proper_edges@,
                                lattice.wf(),
                is_proper_list(*lattice, p),
                n == lattice.card(),
                k <= p.len(),
                ids@.len() == n,
                forall|a: int| 0 <= a < n ==> (#[trigger] ids@[a])@.len() == n,
                forall|a: int, b: int|
                    0 <= a < n && 0 <= b < n ==> match #[trigger] ids@[a]@[b] {
                        Some(q) => q < k && p[q as int] == (Edge { from: a as usize, to: b as usize }),
                        None => forall|q: int| 0 <= q < k ==> p[q] != (Edge { from: a as usize, to: b as usize }),
                    },
            decreases p.len() - k,
        {
            let edge = proper_edges[k];
            let ghost before = ids@;
            ids[edge.from].set(edge.to, Some(k));
            proof {
                assert forall|a: int, b: int|
                    0 <= a < n && 0 <= b < n implies match #[trigger] ids@[a]@[b] {
                        Some(q) => q < k + 1 && p[q as int] == (Edge { from: a as usize, to: b as usize }),
                        None => forall|q: int| 0 <= q < k + 1 ==> p[q] != (Edge { from: a as usize, to: b as usize }),
                    } by {
                    if a == edge.from && b == edge.to {
                    } else {
                        assert(ids@[a]@[b] == before[a]@[b]);
                        if ids@[a]@[b] is None {
                            assert(p[k as int] != (Edge { from: a as usize, to: b as usize }));
                        }
                    }
                }
            }
            k += 1;
        }
        let r = RelationIndex { lattice, proper_edges, proper_edge_ids: ids };
        proof {
            assert forall|i: int, j: int|
                0 <= i < n && 0 <= j < n implies match #[trigger] r.proper_edge_ids@[i]@[j] {
                    Some(k) => k < r.edges_of().len() && r.edges_of()[k as int] == (Edge { from: i as usize, to: j as usize }),
                    None => !r.edges_of().contains(Edge { from: i as usize, to: j as usize }),
                } by {
                if r.proper_edge_ids@[i]@[j] is None {
                    if p.contains(Edge { from: i as usize, to: j as usize }) {
                        let q = choose|q: int| 0 <= q < p.len() && p[q] == (Edge { from: i as usize, to: j as usize });
                    }
                }
            }
        }
        r
    }

    /// Returns the lattice whose proper relations are indexed.
    pub fn lattice(&self) -> (r: &Arc<Lattice<A>>)
        ensures
            **r == self.lattice_of(),
    {
        &self.lattice
    }

    /// Returns the proper lattice relations in row-major order.
    pub fn proper_edges(&self) -> (r: &[Edge])
        ensures
            r@ == self.edges_of(),
    {
        self.proper_edges.as_slice()
    }

    /// Returns the bit index assigned to a proper relation; identities,
    /// non-relations and out-of-range edges have none.
    pub fn proper_edge_id(&self, edge: Edge) -> (r: Option<usize>)
        requires
            self.wf(),
        ensures
            match r {
                Some(k) => k < self.edges_of().len() && self.edges_of()[k as int] == edge,
                None => !self.edges_of().contains(edge),
            },
    {
        if edge.from < self.proper_edge_ids.len() && edge.to < self.proper_edge_ids[edge.from].len() {
            self.proper_edge_ids[edge.from][edge.to]
        } else {
            proof {
                if self.edges_of().contains(edge) {
                    let k = choose|k: int| 0 <= k < self.edges_of().len() && self.edges_of()[k] == edge;
                }
            }
            None
        }
    }
}

/// Shared ambient data that gives raw transfer systems their meaning: the
/// lattice, the indexing of its proper relations, and the formal context
/// whose closed object sets are the transfer systems.
#[derive(Debug)]
pub struct TransferUniverse<A> {
    relation_index: Arc<RelationIndex<A>>,
    context: FormalContext<Edge, Edge>,
}

/// A transfer system together with the universe that interprets it.
#[derive(Debug)]
pub struct TransferSystem<A> {
    raw: RawTransferSystem,
    universe: Arc<TransferUniverse<A>>,
}

/// Errors that can occur while constructing an individual transfer system.
#[derive(Debug, Clone, Copy, PartialEq, Eq, Structural)]
pub enum TransferSystemError {
    /// A generating relation references an element outside the lattice.
    EdgeOutOfBounds {
        /// The invalid generating relation.
        edge: Edge,
        /// The number of elements in the lattice.
        lattice_size: usize,
    },
    /// A non-identity generating relation is not present in the lattice order.
    NotLatticeRelation {
        /// The invalid generating relation.
        edge: Edge,
    },
    /// A raw bit vector does not have one bit for every proper lattice relation.
    WrongArrowCount {
        /// The number of proper lattice relations in the universe.
        expected: usize,
        /// The number of bits in the raw representation.
        actual: usize,
    },
    /// A raw bit vector is not closed under the transfer-system axioms.
    RawNotClosed,
}

/// Errors that can occur while constructing transfer-system orders.
#[derive(Debug, Clone, Copy, PartialEq, Eq, Structural)]
pub enum TransferError {
    /// Construction of an underlying finite poset failed.
    Poset(PosetError),
    /// Construction of an underlying finite lattice failed.
    Lattice(LatticeError),
}

/// The bits of `p` selected by membership in `r`.
pub open spec fn bits_in(p: Seq<Edge>, r: Set<Edge>) -> Seq<bool> {
    Seq::new(p.len(), |k: int| r.contains(p[k]))
}

/// A transfer system is the identities together with the proper relations
/// it selects.
pub proof fn lemma_system_of_bits_in<A>(l: Lattice<A>, p: Seq<Edge>, r: Set<Edge>)
    requires
        l.wf(),
        is_proper_list(l, p),
        is_transfer_system(l, r),
    ensures
        system_of(p, bits_in(p, r), l.card()) == r,
{
    let b = bits_in(p, r);
    assert forall|e: Edge| system_of(p, b, l.card()).contains(e) <==> r.contains(e) by {
        if r.contains(e) {
            crate::transfer_theory::lemma_ts_order(l, r, e);
            if e.from != e.to {
                assert(p.contains(e));
                let k = choose|k: int| 0 <= k < p.len() && p[k] == e;
                assert(b[k]);
            }
        }
        if system_of(p, b, l.card()).contains(e) {
            if e.from == e.to && e.from < l.card() {
                crate::transfer_theory::lemma_ts_identity(l, r, e.from);
            } else {
                let k = choose|k: int| 0 <= k < p.len() && #[trigger] p[k] == e && b[k];
            }
        }
    }
    assert(system_of(p, b, l.card()) =~= r);
}

impl<A> TransferUniverse<A> {
    /// The underlying lattice.
    pub closed spec fn lattice_of(&self) -> Lattice<A> {
        self.relation_index.lattice_of()
    }

    /// The proper relations, in bit order.
    pub closed spec fn edges_of(&self) -> Seq<Edge> {
        self.relation_index.edges_of()
    }

    /// The shared relation index.
    pub closed spec fn index_of(&self) -> RelationIndex<A> {
        *self.relation_index
    }

    /// A well-formed universe: its context encodes the transfer systems of
    /// its lattice.
    pub open spec fn wf(&self) -> bool {
        &&& self.index_of().wf()
        &&& self.lattice_of() == self.index_of().lattice_of()
        &&& self.edges_of() == self.index_of().edges_of()
        &&& self.context_wf()
    }

    /// The stored context is the transfer context of the lattice.
    pub closed spec fn context_wf(&self) -> bool {
        &&& context_incidence(self.context) == transfer_context(self.lattice_of(), self.edges_of())
        &&& context_attribute_count(self.context) == self.edges_of().len()
    }

    /// Constructs the transfer-system universe for a lattice: every proper
    /// relation is indexed and the formal context is built once.
    pub fn new(underlying_lattice: Arc<Lattice<A>>) -> (r: Self)
        requires
            underlying_lattice.wf(),
            underlying_lattice.card() * underlying_lattice.card() <= max_bits(),
        ensures
            r.wf(),
            r.lattice_of() == *underlying_lattice,
    {
        Self::from_relation_index(Arc::new(RelationIndex::new(underlying_lattice)))
    }

    /// Constructs a transfer-system universe using an existing relation index.
    pub(crate) fn from_relation_index(relation_index: Arc<RelationIndex<A>>) -> (r: Self)
        requires
            relation_index.wf(),
        ensures
            r.wf(),
            r.index_of() == *relation_index,
    {
        let context = build_transfer_context(relation_index.lattice(), relation_index.proper_edges());
        TransferUniverse { relation_index, context }
    }

    /// Returns the underlying lattice.
    pub fn underlying_lattice(&self) -> (r: &Arc<Lattice<A>>)
        ensures
            **r == self.lattice_of(),
    {
        self.relation_index.lattice()
    }

    /// Returns the underlying lattice (an alias of
    /// [`TransferUniverse::underlying_lattice`]).
    pub fn lattice(&self) -> (r: &Arc<Lattice<A>>)
        ensures
            **r == self.lattice_of(),
    {
        self.underlying_lattice()
    }

    /// Returns the shared indexing of the proper lattice relations.
    pub fn relation_index(&self) -> (r: &Arc<RelationIndex<A>>)
        ensures
            **r == self.index_of(),
    {
        &self.relation_index
    }

    /// Returns the proper lattice relations, in row-major order.
    pub fn proper_edges(&self) -> (r: &[Edge])
        ensures
            r@ == self.edges_of(),
    {
        self.relation_index.proper_edges()
    }

    /// Closes a correctly sized bit vector: the extent of its intent in the
    /// transfer context.
    pub(crate) fn close_arrows(&self, arrows: &Bits) -> (r: Bits)
        requires
            self.wf(),
            arrows@.len() == self.edges_of().len(),
        ensures
            r@ == closure_of(transfer_context(self.lattice_of(), self.edges_of()), self.edges_of().len(), arrows@),
    {
        let intent = formal_context_induce_r(&self.context, arrows);
        formal_context_induce_l(&self.context, &intent)
    }

    /// Constructs the transfer system generated by the supplied relations.
    ///
    /// Identity relations may be supplied; they belong to every transfer
    /// system.  Every generator must lie in the lattice, and every
    /// non-identity generator must be a relation of its order; the first
    /// generator that fails is reported.  The result is the least transfer
    /// system containing all of the generators.
    pub fn generated_by(self: &Arc<Self>, generators: Vec<Edge>) -> (r: Result<TransferSystem<A>, TransferSystemError>)
        requires
            self.wf(),
        ensures
            match r {
                Ok(ts) => {
                    &&& ts.wf()
                    &&& ts.universe_of() == **self
                    &&& is_transfer_system(self.lattice_of(), ts.relations())
                    &&& forall|k: int| 0 <= k < generators@.len() ==> ts.relations().contains(#[trigger] generators@[k])
                    &&& forall|q: Set<Edge>| #[trigger] is_transfer_system(self.lattice_of(), q) && (forall|k: int|
                        0 <= k < generators@.len() ==> q.contains(#[trigger] generators@[k])) ==> ts.relations().subset_of(q)
                },
                Err(TransferSystemError::EdgeOutOfBounds { edge, lattice_size }) => {
                    &&& lattice_size == self.lattice_of().card()
                    &&& (edge.from >= lattice_size || edge.to >= lattice_size)
                    &&& exists|k: int| 0 <= k < generators@.len() && generators@[k] == edge && forall|j: int|
                        0 <= j < k ==> #[trigger] generator_ok(self.lattice_of(), generators@[j])
                },
                Err(TransferSystemError::NotLatticeRelation { edge }) => {
                    &&& edge.from < self.lattice_of().card()
                    &&& edge.to < self.lattice_of().card()
                    &&& edge.from != edge.to
                    &&& !self.lattice_of().le(edge.from as int, edge.to as int)
                    &&& exists|k: int| 0 <= k < generators@.len() && generators@[k] == edge && forall|j: int|
                        0 <= j < k ==> #[trigger] generator_ok(self.lattice_of(), generators@[j])
                },
                Err(_) => false,
            },
    {
        let ghost l = self.lattice_of();
        let ghost p = self.edges_of();
        let lattice_size = self.underlying_lattice().size();
        let count = self.proper_edges().len();
        let mut arrows = Bits::repeat(false, count);
        let mut k: usize = 0;
        while k < generators.len()
            invariant
                self.wf(),
                l == self.lattice_of(),
                p == self.edges_of(),
                lattice_size == l.card(),
                count == p.len(),
                k <= generators@.len(),
                arrows@.len() == count,
                forall|j: int| 0 <= j < k ==> #[trigger] generator_ok(l, generators@[j]),
                forall|e: Edge| system_of(p, arrows@, l.card()).contains(e) <==> ((e.from == e.to && e.from < l.card()) || exists|j: int| 0 <= j < k && generators@[j] == e),
            decreases generators@.len() - k,
        {
            let edge = generators[k];
            if edge.from >= lattice_size || edge.to >= lattice_size {
                return Err(TransferSystemError::EdgeOutOfBounds { edge, lattice_size });
            }
            let ghost before = arrows@;
            if !edge.is_identity() {
                match self.relation_index.proper_edge_id(edge) {
                    None => {
                        proof {
                            if l.le(edge.from as int, edge.to as int) {
                                assert(p.contains(edge));
                            }
                        }
                        return Err(TransferSystemError::NotLatticeRelation { edge });
                    },
                    Some(id) => {
                        arrows.set(id, true);
                        proof {
                            assert forall|e: Edge| system_of(p, arrows@, l.card()).contains(e) <==> ((e.from == e.to && e.from < l.card()) || exists|j: int| 0 <= j < k + 1 && generators@[j] == e) by {
                                if e == edge {
                                    assert(p[id as int] == e && arrows@[id as int]);
                                    assert(generators@[k as int] == e);
                                } else {
                                    if system_of(p, arrows@, l.card()).contains(e) && !(e.from == e.to && e.from < l.card()) {
                                        let q = choose|q: int| 0 <= q < p.len() && #[trigger] p[q] == e && arrows@[q];
                                        assert(q != id);
                                        assert(before[q]);
                                        assert(system_of(p, before, l.card()).contains(e));
                                    }
                                    if exists|j: int| 0 <= j < k + 1 && generators@[j] == e {
                                        let j = choose|j: int| 0 <= j < k + 1 && generators@[j] == e;
                                        assert(j < k);
                                        assert(system_of(p, before, l.card()).contains(e));
                                        if !(e.from == e.to && e.from < l.card()) {
                                            let q = choose|q: int| 0 <= q < p.len() && #[trigger] p[q] == e && before[q];
                                            assert(arrows@[q]);
                                        }
                                    }
                                }
                            }
                        }
                    },
                }
            } else {
                proof {
                    assert forall|e: Edge| system_of(p, arrows@, l.card()).contains(e) <==> ((e.from == e.to && e.from < l.card()) || exists|j: int| 0 <= j < k + 1 && generators@[j] == e) by {
                        if exists|j: int| 0 <= j < k + 1 && generators@[j] == e {
                            let j = choose|j: int| 0 <= j < k + 1 && generators@[j] == e;
                            if j < k {
                            }
                        }
                    }
                }
            }
            k += 1;
        }
        let closed = self.close_arrows(&arrows);
        let ghost s = arrows@;
        let ghost c = closed@;
        proof {
            let m = transfer_context(l, p);
            lemma_closure_is_transfer_system(l, p, s);
            lemma_closure_extensive(m, p.len(), s);
            lemma_closed_iff_transfer_system(l, p, c);
            assert forall|i: int| 0 <= i < generators@.len() implies system_of(p, c, l.card()).contains(#[trigger] generators@[i]) by {
                let e = generators@[i];
                assert(system_of(p, s, l.card()).contains(e));
                if !(e.from == e.to && e.from < l.card()) {
                    let q = choose|q: int| 0 <= q < p.len() && #[trigger] p[q] == e && s[q];
                    assert(c[q]);
                }
            }
            assert forall|q: Set<Edge>| #[trigger] is_transfer_system(l, q) && (forall|i: int|
                0 <= i < generators@.len() ==> q.contains(#[trigger] generators@[i])) implies system_of(p, c, l.card()).subset_of(q) by {
                lemma_system_of_bits_in(l, p, q);
                let bq = bits_in(p, q);
                assert forall|e: Edge| system_of(p, s, l.card()).contains(e) implies system_of(p, bq, l.card()).contains(e) by {
                    if !(e.from == e.to && e.from < l.card()) {
                        let j = choose|j: int| 0 <= j < generators@.len() && generators@[j] == e;
                        assert(q.contains(e));
                    } else {
                        crate::transfer_theory::lemma_ts_identity(l, q, e.from);
                    }
                }
                lemma_closure_is_least(l, p, s, bq);
            }
        }
        let raw = RawTransferSystem::new(closed);
        Ok(TransferSystem { raw, universe: arc_clone(self) })
    }
}

/// A generator that passes the checks: inside the lattice, and an identity
/// or a relation of the order.
pub open spec fn generator_ok<A>(l: Lattice<A>, e: Edge) -> bool {
    e.from < l.card() && e.to < l.card() && (e.from == e.to || l.le(e.from as int, e.to as int))
}

/// A row-major list of pairs of elements below `n` has at most `n * n` entries.
pub(crate) proof fn lemma_row_major_bound(p: Seq<Edge>, n: nat)
    requires
        row_major(p),
        forall|k: int| 0 <= k < p.len() ==> (#[trigger] p[k]).from < n && p[k].to < n,
    ensures
        p.len() <= n * n,
{
    if p.len() > 0 {
        assert forall|k: int| 0 <= k < p.len() implies #[trigger] edge_key(p[k], n) >= k && edge_key(p[k], n) < n * n by {
            lemma_edge_key_increasing(p, n, k);
        }
        assert(edge_key(p[p.len() - 1], n) >= p.len() - 1);
    }
}

/// The position `from * n + to` of a pair in row-major order.
spec fn edge_key(e: Edge, n: nat) -> int {
    e.from * n + e.to
}

proof fn lemma_edge_key_increasing(p: Seq<Edge>, n: nat, k: int)
    requires
        row_major(p),
        forall|j: int| 0 <= j < p.len() ==> (#[trigger] p[j]).from < n && p[j].to < n,
        0 <= k < p.len(),
    ensures
        edge_key(p[k], n) >= k,
        edge_key(p[k], n) < n * n,
    decreases k,
{
    let e = p[k];
    assert(e.from * n + e.to < n * n) by (nonlinear_arith)
        requires
            e.from < n,
            e.to < n,
    ;
    if k > 0 {
        lemma_edge_key_increasing(p, n, k - 1);
        let d = p[k - 1];
        assert(crate::order::edge_lt(d, e));
        assert(d.from * n + d.to < e.from * n + e.to) by (nonlinear_arith)
            requires
                d.to < n,
                e.to < n,
                d.from < e.from || (d.from == e.from && d.to < e.to),
        ;
    }
}

/// The formal context of a lattice: object `e1` has attribute `e2` when
/// `e2` has the left lifting property against `e1`.
fn build_transfer_context<A>(lattice: &Lattice<A>, proper_edges: &[Edge]) -> (r: FormalContext<Edge, Edge>)
    requires
        lattice.wf(),
        is_proper_list(*lattice, proper_edges@),
        proper_edges@.len() <= max_bits(),
    ensures
        context_incidence(r) == transfer_context(*lattice, proper_edges@),
        context_attribute_count(r) == proper_edges@.len(),
{
    let ghost m = lattice.order();
    let count = proper_edges.len();
    let mut matrix: Vec<Bits> = Vec::new();
    let mut a: usize = 0;
    while a < count
        invariant
            lattice.wf(),
            m == lattice.order(),
            is_proper_list(*lattice, proper_edges@),
            count == proper_edges@.len(),
            count <= max_bits(),
            a <= count,
            matrix@.len() == a,
            forall|i: int| 0 <= i < a ==> (#[trigger] matrix@[i])@ == transfer_context(*lattice, proper_edges@)[i],
        decreases count - a,
    {
        let e1 = proper_edges[a];
        let mut row = Bits::repeat(false, count);
        let mut b: usize = 0;
        while b < count
            invariant
                lattice.wf(),
                m == lattice.order(),
                is_proper_list(*lattice, proper_edges@),
                count == proper_edges@.len(),
                a < count,
                e1 == proper_edges@[a as int],
                b <= count,
                row@.len() == count,
                forall|j: int| 0 <= j < b ==> #[trigger] row@[j] == lifts(m, proper_edges@[j], e1),
            decreases count - b,
        {
            let e2 = proper_edges[b];
            let bit = lattice.leq(e2.to, e1.from) || !lattice.leq(e2.to, e1.to) || !lattice.leq(e2.from, e1.from);
            row.set(b, bit);
            b += 1;
        }
        assert(row@ =~= transfer_context(*lattice, proper_edges@)[a as int]);
        matrix.push(row);
        a += 1;
    }
    let objects = copy_edges(proper_edges);
    let attributes = copy_edges(proper_edges);
    let r = formal_context_new(objects, attributes, matrix);
    assert(matrix_of(matrix@) =~= transfer_context(*lattice, proper_edges@));
    r
}

impl<A> TransferSystem<A> {
    /// The universe that interprets this system.
    pub closed spec fn universe_of(&self) -> TransferUniverse<A> {
        *self.universe
    }

    /// The selected proper relations, one bit per relation of the universe.
    pub closed spec fn bits(&self) -> Seq<bool> {
        self.raw.bits()
    }

    /// The relations of the system, identities included.
    pub open spec fn relations(&self) -> Set<Edge> {
        system_of(self.universe_of().edges_of(), self.bits(), self.universe_of().lattice_of().card())
    }

    /// A well-formed transfer system: a closed bit vector of the right length.
    pub open spec fn wf(&self) -> bool {
        &&& self.universe_of().wf()
        &&& self.bits().len() == self.universe_of().edges_of().len()
        &&& is_closed(transfer_context(self.universe_of().lattice_of(), self.universe_of().edges_of()), self.universe_of().edges_of().len(), self.bits())
    }

    /// Pairs raw transfer-system data with the universe that interprets it.
    pub(crate) fn new(raw: RawTransferSystem, universe: Arc<TransferUniverse<A>>) -> (r: Self)
        ensures
            r.bits() == raw.bits(),
            r.universe_of() == *universe,
    {
        TransferSystem { raw, universe }
    }

    /// Returns the raw bit vector representation.
    pub fn raw(&self) -> (r: &RawTransferSystem)
        ensures
            r.bits() == self.bits(),
    {
        &self.raw
    }

    /// Returns the ambient universe.
    pub fn universe(&self) -> (r: &Arc<TransferUniverse<A>>)
        ensures
            **r == self.universe_of(),
    {
        &self.universe
    }

    /// Returns the underlying lattice.
    pub fn lattice(&self) -> (r: &Arc<Lattice<A>>)
        ensures
            **r == self.universe_of().lattice_of(),
    {
        self.universe.lattice()
    }

    /// Returns whether a relation belongs to this transfer system: every
    /// in-range identity does; a non-identity relation does when its bit is
    /// selected; non-relations and out-of-range edges do not.
    pub fn contains_relation(&self, relation: Edge) -> (r: bool)
        requires
            self.wf(),
        ensures
            r == self.relations().contains(relation),
    {
        let ghost p = self.universe_of().edges_of();
        let ghost n = self.universe_of().lattice_of().card();
        if relation.is_identity() {
            return relation.from < self.lattice().size();
        }
        match self.universe.relation_index().proper_edge_id(relation) {
            Some(edge_id) => {
                let b = self.raw.arrows().bit(edge_id);
                proof {
                    if self.relations().contains(relation) {
                        let k = choose|k: int| 0 <= k < p.len() && #[trigger] p[k] == relation && self.bits()[k];
                        assert(p.no_duplicates());
                    }
                }
                b
            },
            None => false,
        }
    }

    /// Returns the relations of this transfer system, with the identities
    /// `x <= x` when `include_identities` holds.
    pub fn edges(&self, include_identities: bool) -> (r: EdgeSet)
        requires
            self.wf(),
        ensures
            forall|e: Edge| #[trigger] r@.contains(e) <==> (self.relations().contains(e) && (include_identities || e.from != e.to)),
    {
        let ghost p = self.universe_of().edges_of();
        let ghost n = self.universe_of().lattice_of().card();
        let mut result = EdgeSet::new();
        if include_identities {
            let size = self.lattice().size();
            let mut id: usize = 0;
            while id < size
                invariant
                    size == n,
                    id <= size,
                    forall|e: Edge| #[trigger] result@.contains(e) <==> (e.from == e.to && e.from < id),
                decreases size - id,
            {
                result.insert(Edge::new(id, id));
                id += 1;
            }
        }
        let edges = self.universe.proper_edges();
        let arrows = self.raw.arrows();
        let mut k: usize = 0;
        while k < edges.len()
            invariant
                self.wf(),
                p == self.universe_of().edges_of(),
                n == self.universe_of().lattice_of().card(),
                edges@ == p,
                arrows@ == self.bits(),
                k <= p.len(),
                forall|e: Edge| #[trigger] result@.contains(e) <==> ((include_identities && e.from == e.to && e.from < n) || exists|q: int| 0 <= q < k && p[q] == e && arrows@[q]),
            decreases p.len() - k,
        {
            if arrows.bit(k) {
                result.insert(edges[k]);
            }
            k += 1;
        }
        proof {
            assert forall|e: Edge| #[trigger] result@.contains(e) <==> (self.relations().contains(e) && (include_identities || e.from != e.to)) by {
                if exists|q: int| 0 <= q < p.len() && p[q] == e && arrows@[q] {
                    let q = choose|q: int| 0 <= q < p.len() && p[q] == e && arrows@[q];
                    assert(p[q].from != p[q].to);
                    assert(self.relations().contains(e));
                }
                if self.relations().contains(e) && (include_identities || e.from != e.to) {
                    if !(e.from == e.to && e.from < n) {
                        let q = choose|q: int| 0 <= q < p.len() && #[trigger] p[q] == e && self.bits()[q];
                    } else {
                        if !include_identities {
                        }
                    }
                }
            }
        }
        result
    }
}

/// The relations of a well-formed transfer system form a transfer system.
pub proof fn lemma_transfer_system_valid<A>(ts: TransferSystem<A>)
    requires
        ts.wf(),
    ensures
        is_transfer_system(ts.universe_of().lattice_of(), ts.relations()),
{
    lemma_closed_iff_transfer_system(ts.universe_of().lattice_of(), ts.universe_of().edges_of(), ts.bits());
}

impl<A> TransferUniverse<A> {
    /// The incidence rows of the transfer context.
    pub open spec fn context_rows(&self) -> Seq<Seq<bool>> {
        transfer_context(self.lattice_of(), self.edges_of())
    }

    /// The rows of the transfer context have one entry per proper relation.
    proof fn lemma_context_rows(&self)
        ensures
            forall|a: int| 0 <= a < self.context_rows().len() ==> (#[trigger] self.context_rows()[a]).len() == self.edges_of().len(),
    {
    }

    /// A list of every closed bit vector, each once, is as long as there are
    /// transfer systems.
    pub(crate) proof fn lemma_listed_systems_len(&self, labels: Seq<Seq<bool>>)
        requires
            self.wf(),
            lists_closed_sets(self.context_rows(), self.edges_of().len(), labels),
        ensures
            transfer_systems_on(self.lattice_of()).finite(),
            labels.len() == transfer_systems_on(self.lattice_of()).len(),
    {
        let l = self.lattice_of();
        let p = self.edges_of();
        let n = l.card();
        let sys = Seq::new(labels.len(), |i: int| system_of(p, labels[i], n));
        assert(sys.no_duplicates()) by {
            assert forall|i: int, j: int| 0 <= i < sys.len() && 0 <= j < sys.len() && i != j implies sys[i] != sys[j] by {
                if sys[i] == sys[j] {
                    if i < j {
                        assert(labels[i] != labels[j]);
                    } else {
                        assert(labels[j] != labels[i]);
                    }
                    lemma_system_of_injective(p, labels[i], labels[j], n);
                }
            }
        }
        sys.unique_seq_to_set();
        assert(sys.to_set() =~= transfer_systems_on(l)) by {
            assert forall|q: Set<Edge>| #[trigger] transfer_systems_on(l).contains(q) implies sys.to_set().contains(q) by {
                lemma_system_of_bits_in(l, p, q);
                lemma_transfer_system_is_closed(l, p, bits_in(p, q));
                let i = choose|i: int| 0 <= i < labels.len() && #[trigger] labels[i] == bits_in(p, q);
                assert(sys[i] == q);
                assert(sys.contains(q));
            }
            assert forall|q: Set<Edge>| #[trigger] sys.to_set().contains(q) implies transfer_systems_on(l).contains(q) by {
                assert(sys.contains(q));
                let i = choose|i: int| 0 <= i < sys.len() && sys[i] == q;
                assert(labels[i].len() == p.len() && is_closed(self.context_rows(), p.len(), labels[i]));
                lemma_closed_iff_transfer_system(l, p, labels[i]);
            }
        }
        vstd::seq_lib::seq_to_set_is_finite(sys);
    }
}

/// The bits of a sequence of raw systems.
pub open spec fn raw_bits(systems: Seq<RawTransferSystem>) -> Seq<Seq<bool>> {
    Seq::new(systems.len(), |i: int| systems[i].bits())
}

/// Distinct bit vectors select distinct sets of relations.
pub proof fn lemma_system_of_injective(p: Seq<Edge>, a: Seq<bool>, b: Seq<bool>, n: nat)
    requires
        p.no_duplicates(),
        forall|k: int| 0 <= k < p.len() ==> (#[trigger] p[k]).from != p[k].to,
        a.len() == p.len(),
        b.len() == p.len(),
        system_of(p, a, n) == system_of(p, b, n),
    ensures
        a == b,
{
    assert forall|k: int| 0 <= k < p.len() implies #[trigger] a[k] == b[k] by {
        let e = p[k];
        if a[k] {
            assert(system_of(p, a, n).contains(e));
            let q = choose|q: int| 0 <= q < p.len() && #[trigger] p[q] == e && b[q];
        }
        if b[k] {
            assert(system_of(p, b, n).contains(e));
            let q = choose|q: int| 0 <= q < p.len() && #[trigger] p[q] == e && a[q];
        }
    }
    assert(a =~= b);
}

/// The set of all transfer systems on `l`.
pub open spec fn transfer_systems_on<A>(l: Lattice<A>) -> Set<Set<Edge>> {
    Set::new(|q: Set<Edge>| is_transfer_system(l, q))
}

pub(crate) fn all_transfer_systems<A>(universe: &TransferUniverse<A>) -> (r: Vec<RawTransferSystem>)
    requires
        universe.wf(),
    ensures
        lists_closed_sets(universe.context_rows(), universe.edges_of().len(), raw_bits(r@)),
{
    let extents = formal_context_concept_extents(&universe.context);
    let mut result: Vec<RawTransferSystem> = Vec::new();
    let mut i: usize = 0;
    while i < extents.len()
        invariant
            i <= extents@.len(),
            result@.len() == i,
            forall|k: int| 0 <= k < i ==> (#[trigger] result@[k]).bits() == extents@[k]@,
        decreases extents@.len() - i,
    {
        result.push(RawTransferSystem::new(extents[i].duplicate()));
        i += 1;
    }
    proof {
        let m = universe.context_rows();
        let labels = raw_bits(result@);
        assert forall|s: Seq<bool>| s.len() == m.len() && #[trigger] is_closed(m, universe.edges_of().len(), s) implies exists|i: int| 0 <= i < labels.len() && #[trigger] labels[i] == s by {
            let i = choose|i: int| 0 <= i < extents@.len() && (#[trigger] extents@[i])@ == s;
            assert(labels[i] == s);
        }
        assert forall|i: int, j: int| 0 <= i < j < labels.len() implies #[trigger] labels[i] != #[trigger] labels[j] by {
            assert(extents@[i]@ != extents@[j]@);
        }
    }
    result
}

impl<A> TransferUniverse<A> {
    /// Enumerates all transfer systems on the underlying lattice, each once.
    pub fn transfer_systems(self: &Arc<Self>) -> (r: Vec<TransferSystem<A>>)
        requires
            self.wf(),
        ensures
            forall|i: int| 0 <= i < r@.len() ==> (#[trigger] r@[i]).wf() && r@[i].universe_of() == **self,
            forall|i: int, j: int| 0 <= i < j < r@.len() ==> (#[trigger] r@[i]).relations() != (#[trigger] r@[j]).relations(),
            forall|q: Set<Edge>| #[trigger] is_transfer_system(self.lattice_of(), q) ==> exists|i: int| 0 <= i < r@.len() && (#[trigger] r@[i]).relations() == q,
    {
        let raws = all_transfer_systems(self);
        let ghost p = self.edges_of();
        let ghost l = self.lattice_of();
        let ghost labels = raw_bits(raws@);
        let mut result: Vec<TransferSystem<A>> = Vec::new();
        let mut i: usize = 0;
        while i < raws.len()
            invariant
                self.wf(),
                i <= raws@.len(),
                result@.len() == i,
                labels == raw_bits(raws@),
                lists_closed_sets(self.context_rows(), p.len(), labels),
                p == self.edges_of(),
                forall|k: int| 0 <= k < i ==> (#[trigger] result@[k]).wf() && result@[k].universe_of() == **self && result@[k].bits() == labels[k],
            decreases raws@.len() - i,
        {
            assert(labels[i as int] == raws@[i as int].bits());
            result.push(TransferSystem { raw: raws[i].clone(), universe: arc_clone(self) });
            i += 1;
        }
        proof {
            let m = self.context_rows();
            assert forall|i: int, j: int| 0 <= i < j < result@.len() implies (#[trigger] result@[i]).relations() != (#[trigger] result@[j]).relations() by {
                if result@[i].relations() == result@[j].relations() {
                    lemma_system_of_injective(p, labels[i], labels[j], l.card());
                }
            }
            assert forall|q: Set<Edge>| #[trigger] is_transfer_system(l, q) implies exists|i: int| 0 <= i < result@.len() && (#[trigger] result@[i]).relations() == q by {
                lemma_system_of_bits_in(l, p, q);
                lemma_transfer_system_is_closed(l, p, bits_in(p, q));
                let i = choose|i: int| 0 <= i < labels.len() && #[trigger] labels[i] == bits_in(p, q);
                assert(result@[i].relations() == q);
            }
        }
        result
    }

    /// Validates raw bit-vector data and pairs it with this universe: the
    /// vector must have one bit per proper relation and must already be
    /// closed under the transfer-system axioms.
    pub fn try_from_raw(self: &Arc<Self>, raw: RawTransferSystem) -> (r: Result<TransferSystem<A>, TransferSystemError>)
        requires
            self.wf(),
        ensures
            match r {
                Ok(ts) => ts.wf() && ts.universe_of() == **self && ts.bits() == raw.bits(),
                Err(TransferSystemError::WrongArrowCount { expected, actual }) => expected == self.edges_of().len() && actual == raw.bits().len() && expected != actual,
                Err(TransferSystemError::RawNotClosed) => raw.bits().len() == self.edges_of().len() && !is_transfer_system(self.lattice_of(), system_of(self.edges_of(), raw.bits(), self.lattice_of().card())),
                Err(_) => false,
            },
    {
        let expected = self.proper_edges().len();
        let actual = raw.arrows().len();
        if actual != expected {
            return Err(TransferSystemError::WrongArrowCount { expected, actual });
        }
        let closed = self.close_arrows(raw.arrows());
        proof {
            lemma_closed_iff_transfer_system(self.lattice_of(), self.edges_of(), raw.bits());
        }
        if !crate::bits::equal_bits(&closed, raw.arrows()) {
            return Err(TransferSystemError::RawNotClosed);
        }
        Ok(TransferSystem { raw, universe: arc_clone(self) })
    }
}

/// A lattice of transfer systems on a fixed lattice, ordered by containment.
///
/// Meet is intersection of transfer systems and join is the closure of
/// their union.
#[derive(Debug)]
pub struct TransferLattice<A> {
    universe: Arc<TransferUniverse<A>>,
    lattice: Lattice<RawTransferSystem>,
}

impl<A> TransferLattice<A> {
    /// The universe shared by all systems of the lattice.
    pub closed spec fn universe_of(&self) -> TransferUniverse<A> {
        *self.universe
    }

    /// The lattice whose labels are the raw systems.
    pub closed spec fn lattice_of(&self) -> Lattice<RawTransferSystem> {
        self.lattice
    }

    /// The bits of the system with each element id.
    pub open spec fn system_bits(&self) -> Seq<Seq<bool>> {
        raw_bits(self.lattice_of().labels())
    }

    /// A well-formed containment lattice: every transfer system once,
    /// ordered by inclusion.
    pub open spec fn wf(&self) -> bool {
        &&& self.universe_of().wf()
        &&& self.lattice_of().wf()
        &&& lists_closed_sets(self.universe_of().context_rows(), self.universe_of().edges_of().len(), self.system_bits())
        &&& forall|i: int, j: int|
            0 <= i < self.lattice_of().card() && 0 <= j < self.lattice_of().card() ==> #[trigger] self.lattice_of().le(i, j) == subset_bits(self.system_bits()[i], self.system_bits()[j])
    }

    /// The containment lattice has one element for each transfer system on
    /// the lattice.
    pub proof fn lemma_size_is_system_count(&self)
        requires
            self.wf(),
        ensures
            self.lattice_of().card() == transfer_systems_on(self.universe_of().lattice_of()).len(),
    {
        self.universe_of().lemma_listed_systems_len(self.system_bits());
        assert(self.system_bits().len() == self.lattice_of().labels().len());
    }

    /// Returns the universe shared by all systems in this lattice.
    pub fn universe(&self) -> (r: &Arc<TransferUniverse<A>>)
        ensures
            **r == self.universe_of(),
    {
        &self.universe
    }

    /// Returns the raw lattice whose labels are bit-vector transfer systems.
    pub fn raw_lattice(&self) -> (r: &Lattice<RawTransferSystem>)
        ensures
            *r == self.lattice_of(),
    {
        &self.lattice
    }

    /// Returns the underlying poset of the transfer-system lattice.
    pub fn as_poset(&self) -> (r: &Poset<RawTransferSystem>)
        ensures
            *r == self.lattice_of().poset_of(),
    {
        self.lattice.as_poset()
    }

    /// Returns the number of transfer systems in the lattice.
    pub fn size(&self) -> (r: usize)
        requires
            self.wf(),
        ensures
            r == self.lattice_of().card(),
    {
        self.lattice.size()
    }

    /// Returns the meet of two transfer systems by element id: their
    /// intersection.
    pub fn meet_id(&self, left: ElementId, right: ElementId) -> (r: ElementId)
        requires
            self.wf(),
            left < self.lattice_of().card(),
            right < self.lattice_of().card(),
        ensures
            r < self.lattice_of().card(),
            self.system_bits()[r as int] == meet_bits(self.system_bits()[left as int], self.system_bits()[right as int]),
    {
        let r = self.lattice.meet_id(left, right);
        proof {
            self.lemma_bounds(left as int, right as int, r as int);
        }
        r
    }

    /// Returns the join of two transfer systems by element id: the closure
    /// of their union.
    pub fn join_id(&self, left: ElementId, right: ElementId) -> (r: ElementId)
        requires
            self.wf(),
            left < self.lattice_of().card(),
            right < self.lattice_of().card(),
        ensures
            r < self.lattice_of().card(),
            self.system_bits()[r as int] == closure_of(self.universe_of().context_rows(), self.universe_of().edges_of().len(), join_bits(self.system_bits()[left as int], self.system_bits()[right as int])),
    {
        let r = self.lattice.join_id(left, right);
        proof {
            self.lemma_bounds(left as int, right as int, r as int);
        }
        r
    }

    proof fn lemma_bounds(&self, i: int, j: int, k: int)
        requires
            self.wf(),
            0 <= i < self.lattice_of().card(),
            0 <= j < self.lattice_of().card(),
            0 <= k < self.lattice_of().card(),
        ensures
            is_meet(self.lattice_of().order(), self.lattice_of().card(), i, j, k) <==> self.system_bits()[k] == meet_bits(self.system_bits()[i], self.system_bits()[j]),
            is_join(self.lattice_of().order(), self.lattice_of().card(), i, j, k) <==> self.system_bits()[k] == closure_of(self.universe_of().context_rows(), self.universe_of().edges_of().len(), join_bits(self.system_bits()[i], self.system_bits()[j])),
    {
        let u = self.universe_of();
        u.lemma_context_rows();
        let ord = self.lattice_of().order();
        let labels = self.system_bits();
        assert forall|i: int, j: int| 0 <= i < labels.len() && 0 <= j < labels.len() implies #[trigger] ord[i][j] == subset_bits(labels[i], labels[j]) by {
            assert(self.lattice_of().le(i, j) == subset_bits(labels[i], labels[j]));
        }
        lemma_closed_sets_lattice(u.context_rows(), u.edges_of().len(), self.system_bits(), self.lattice_of().order());
    }

    /// Returns the bottom transfer system.
    pub fn bottom(&self) -> (r: ElementId)
        requires
            self.wf(),
        ensures
            r == self.lattice_of().bottom_of(),
    {
        self.lattice.bottom()
    }

    /// Returns the top transfer system.
    pub fn top(&self) -> (r: ElementId)
        requires
            self.wf(),
        ensures
            r == self.lattice_of().top_of(),
    {
        self.lattice.top()
    }

    /// Returns a transfer system by element id in this lattice.
    pub fn system(&self, id: ElementId) -> (r: Option<TransferSystem<A>>)
        requires
            self.wf(),
        ensures
            match r {
                Some(ts) => id < self.lattice_of().card() && ts.wf() && ts.universe_of() == self.universe_of() && ts.bits() == self.system_bits()[id as int],
                None => id >= self.lattice_of().card(),
            },
    {
        match self.lattice.element(id) {
            Some(raw) => {
                assert(self.system_bits()[id as int] == raw.bits());
                Some(TransferSystem { raw: raw.clone(), universe: arc_clone(&self.universe) })
            },
            None => None,
        }
    }
}

impl<A> TransferLattice<A> {
    /// Lists all transfer systems in element-id order.
    pub fn systems(&self) -> (r: Vec<TransferSystem<A>>)
        requires
            self.wf(),
        ensures
            r@.len() == self.lattice_of().card(),
            forall|i: int| 0 <= i < r@.len() ==> (#[trigger] r@[i]).wf() && r@[i].universe_of() == self.universe_of() && r@[i].bits() == self.system_bits()[i],
    {
        let elements = self.lattice.elements();
        let mut result: Vec<TransferSystem<A>> = Vec::new();
        let mut i: usize = 0;
        while i < elements.len()
            invariant
                self.wf(),
                elements@ == self.lattice_of().labels(),
                i <= elements@.len(),
                result@.len() == i,
                forall|k: int| 0 <= k < i ==> (#[trigger] result@[k]).wf() && result@[k].universe_of() == self.universe_of() && result@[k].bits() == self.system_bits()[k],
            decreases elements@.len() - i,
        {
            assert(self.system_bits()[i as int] == elements@[i as int].bits());
            result.push(TransferSystem { raw: elements[i].clone(), universe: arc_clone(&self.universe) });
            i += 1;
        }
        result
    }

    /// Relabels the raw lattice by user-facing transfer systems.
    pub fn to_system_lattice(&self) -> (r: Lattice<TransferSystem<A>>)
        requires
            self.wf(),
        ensures
            r.wf(),
            r.order() == self.lattice_of().order(),
            r.card() == self.lattice_of().card(),
            r.bottom_of() == self.lattice_of().bottom_of(),
            r.top_of() == self.lattice_of().top_of(),
            forall|i: int| 0 <= i < r.card() ==> (#[trigger] r.labels()[i]).wf() && r.labels()[i].universe_of() == self.universe_of() && r.labels()[i].bits() == self.system_bits()[i],
    {
        let universe = &self.universe;
        let ghost u = self.universe_of();
        let f = |raw: &RawTransferSystem| -> (ts: TransferSystem<A>)
            requires
                universe.wf(),
            ensures
                ts.bits() == raw.bits() && ts.universe_of() == **universe && (raw.bits().len() == universe.edges_of().len() && is_closed(universe.context_rows(), universe.edges_of().len(), raw.bits()) ==> ts.wf()),
            { TransferSystem { raw: raw.clone(), universe: arc_clone(universe) } };
        let r = self.lattice.relabelled(f);
        proof {
            assert forall|i: int| 0 <= i < r.card() implies (#[trigger] r.labels()[i]).wf() && r.labels()[i].universe_of() == u && r.labels()[i].bits() == self.system_bits()[i] by {
                assert(self.system_bits()[i] == self.lattice_of().labels()[i].bits());
            }
        }
        r
    }

    /// Relabels the underlying containment poset by user-facing transfer
    /// systems, without copying the meet and join tables.
    pub fn to_system_poset(&self) -> (r: Poset<TransferSystem<A>>)
        requires
            self.wf(),
        ensures
            r.wf(),
            r.order() == self.lattice_of().order(),
            r.card() == self.lattice_of().card(),
            forall|i: int| 0 <= i < r.card() ==> (#[trigger] r.labels()[i]).wf() && r.labels()[i].universe_of() == self.universe_of() && r.labels()[i].bits() == self.system_bits()[i],
    {
        let universe = &self.universe;
        let ghost u = self.universe_of();
        let f = |raw: &RawTransferSystem| -> (ts: TransferSystem<A>)
            requires
                universe.wf(),
            ensures
                ts.bits() == raw.bits() && ts.universe_of() == **universe && (raw.bits().len() == universe.edges_of().len() && is_closed(universe.context_rows(), universe.edges_of().len(), raw.bits()) ==> ts.wf()),
            { TransferSystem { raw: raw.clone(), universe: arc_clone(universe) } };
        let r = self.lattice.as_poset().relabelled(f);
        proof {
            assert forall|i: int| 0 <= i < r.card() implies (#[trigger] r.labels()[i]).wf() && r.labels()[i].universe_of() == u && r.labels()[i].bits() == self.system_bits()[i] by {
                assert(self.system_bits()[i] == self.lattice_of().labels()[i].bits());
            }
        }
        r
    }
}


impl<A> TransferUniverse<A> {
    /// Constructs the lattice of transfer systems ordered by containment.
    ///
    /// Under this order meet is intersection, and join starts from the union
    /// and adds every relation forced by transitivity and restriction.
    pub fn containment_lattice(self: &Arc<Self>) -> (r: Result<TransferLattice<A>, TransferError>)
        requires
            self.wf(),
            transfer_systems_on(self.lattice_of()).len() <= max_bits(),
        ensures
            r matches Ok(tl) && tl.wf() && tl.universe_of() == **self && tl.lattice_of().card() == transfer_systems_on(
                self.lattice_of(),
            ).len(),
    {
        let systems = all_transfer_systems(self);
        let ghost labels = raw_bits(systems@);
        let ghost m = self.context_rows();
        let ghost cols = self.edges_of().len();
        let n = systems.len();
        let mut relation: Vec<Bits> = Vec::new();
        proof {
            self.lemma_listed_systems_len(labels);
        }
        let mut i: usize = 0;
        while i < n
            invariant
                n == systems@.len(),
                n <= max_bits(),
                labels == raw_bits(systems@),
                i <= n,
                relation@.len() == i,
                forall|a: int| 0 <= a < i ==> (#[trigger] relation@[a])@.len() == n,
                forall|a: int, b: int| 0 <= a < i && 0 <= b < n ==> #[trigger] relation@[a]@[b] == subset_bits(labels[a], labels[b]),
            decreases n - i,
        {
            let mut row = Bits::repeat(false, n);
            let mut j: usize = 0;
            while j < n
                invariant
                    n == systems@.len(),
                    labels == raw_bits(systems@),
                    i < n,
                    j <= n,
                    row@.len() == n,
                    forall|b: int| 0 <= b < j ==> #[trigger] row@[b] == subset_bits(labels[i as int], labels[b]),
                decreases n - j,
            {
                let b = is_subset(systems[i].arrows(), systems[j].arrows());
                row.set(j, b);
                j += 1;
            }
            relation.push(row);
            i += 1;
        }
        let ghost ord = matrix_of(relation@);
        proof {
            self.lemma_context_rows();
            assert(is_square(ord, n as nat)) by {
                assert forall|a: int| 0 <= a < n implies (#[trigger] ord[a]).len() == n by {
                    assert(ord[a] == relation@[a]@);
                }
            }
            assert forall|a: int, b: int| 0 <= a < n && 0 <= b < n implies #[trigger] ord[a][b] == subset_bits(labels[a], labels[b]) by {
                assert(ord[a] == relation@[a]@);
            }
            lemma_closed_sets_lattice(m, cols, labels, ord);
        }
        let poset = Poset::from_validated(systems, relation);
        let ghost pm = poset.order();
        let lattice = match Lattice::new(poset) {
            Ok(l) => l,
            Err(e) => {
                proof {
                    if let LatticeError::NotALattice { left, right } = e {
                        assert(crate::order::has_meet(pm, n as nat, left as int, right as int));
                        assert(crate::order::has_join(pm, n as nat, left as int, right as int));
                    }
                }
                return Err(TransferError::Lattice(e));
            },
        };
        let r = TransferLattice { universe: arc_clone(self), lattice };
        proof {
            assert(r.system_bits() =~= labels);
            r.lemma_size_is_system_count();
        }
        Ok(r)
    }
}

impl<A> Lattice<A> {
    /// Builds the shared universe used to enumerate transfer systems on `self`.
    pub fn transfer_universe(self: Arc<Self>) -> (r: Arc<TransferUniverse<A>>)
        requires
            self.wf(),
            self.card() * self.card() <= max_bits(),
        ensures
            r.wf(),
            r.lattice_of() == *self,
    {
        Arc::new(TransferUniverse::new(self))
    }

    /// Constructs the lattice of transfer systems ordered by containment.
    pub fn transfer_systems_containment(self: Arc<Self>) -> (r: Result<TransferLattice<A>, TransferError>)
        requires
            self.wf(),
            self.card() * self.card() <= max_bits(),
            transfer_systems_on(*self).len() <= max_bits(),
        ensures
            r matches Ok(tl) && tl.wf() && tl.universe_of().lattice_of() == *self && tl.lattice_of().card()
                == transfer_systems_on(*self).len(),
    {
        self.transfer_universe().containment_lattice()
    }
}

impl<A> Clone for TransferSystem<A> {
    fn clone(&self) -> (r: Self)
        ensures
            r.bits() == self.bits(),
            r.universe_of() == self.universe_of(),
    {
        TransferSystem { raw: self.raw.clone(), universe: arc_clone(&self.universe) }
    }
}

} // verus!
