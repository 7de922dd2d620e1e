//! Cotransfer systems invariant under a finite group action.
//!
//! A G-cotransfer system is a cotransfer system whose arrows are closed under
//! the action; like a G-transfer system it is stored as a selection of the
//! orbits of proper relations.  Reversing every arrow turns the
//! G-cotransfer systems on a lattice into the G-transfer systems of the
//! induced action on the opposite lattice, with the same selection of
//! orbits, so the closure and the enumeration run in that universe.

use crate::bits::{max_bits, Bits};
use crate::cotransfer_lattice::{
    is_cotransfer_system, is_opposite, lemma_cotransfer_iff_opposite_transfer, lemma_left_lifting_class_is_cotransfer,
    reverse_set, reversed, CotransferUniverse,
};
use crate::edges::{Edge, EdgeSet};
use crate::concepts::{context_attribute_count, context_attributes, context_incidence, context_objects, formal_context_new};
use fcars::FormalContext;
use crate::g_lattice::{
    orbit_representatives, closed_sets, exchanged, exchanged_reversal, is_reversed_orbit, lemma_listed_closed_sets, orbit_closed, raw_g_bits, GLattice,
    GLatticeError, GTransferSystem, GTransferSystemError, GTransferUniverse, RawGTransferSystem, RelationOrbitLabel,
};
use crate::lattice::LatticeError;
use crate::bits::subset_bits;
use crate::transfer_theory::{closure_of, join_bits, lemma_closed_sets_lattice, lists_closed_sets, meet_bits};
use crate::lattice::Lattice;
use crate::order::{left_lifting_class, right_lifting_class};
use crate::orbit_theory::{in_family, lifts_into_all, all_lift_into, orbit_family, system_of_orbits, uniform_family, uniform_pair};
use crate::poset::ElementId;
use crate::transfer_lattice::generator_ok;
use crate::transfer_theory::is_transfer_system;
use std::sync::Arc;
use vstd::prelude::*;

verus! {

/// A G-cotransfer system stored as its selected orbits.
pub struct RawGCotransferSystem {
    orbit_arrows: Bits,
}

impl RawGCotransferSystem {
    /// The selected orbits.
    pub closed spec fn bits(&self) -> Seq<bool> {
        self.orbit_arrows@
    }

    /// Returns the bit vector of selected orbits.
    pub fn orbit_arrows(&self) -> (r: &Bits)
        ensures
            r@ == self.bits(),
    {
        &self.orbit_arrows
    }
}

impl Clone for RawGCotransferSystem {
    fn clone(&self) -> (r: Self)
        ensures
            r.bits() == self.bits(),
    {
        RawGCotransferSystem { orbit_arrows: self.orbit_arrows.duplicate() }
    }
}

/// The bits of a sequence of raw G-cotransfer systems.
pub open spec fn raw_g_cotransfer_bits(systems: Seq<RawGCotransferSystem>) -> Seq<Seq<bool>> {
    Seq::new(systems.len(), |i: int| systems[i].bits())
}

/// Errors that can occur while constructing a G-cotransfer system.
#[derive(Debug, Clone, Copy, PartialEq, Eq, Structural)]
pub enum GCotransferSystemError {
    /// A relation references an element outside the lattice.
    EdgeOutOfBounds {
        /// The invalid relation.
        edge: Edge,
        /// The number of lattice elements.
        lattice_size: usize,
    },
    /// A non-identity relation is not in the lattice order.
    NotLatticeRelation {
        /// The invalid relation.
        edge: Edge,
    },
    /// Raw data has the wrong number of relation-orbit bits.
    WrongOrbitCount {
        /// The required number of bits.
        expected: usize,
        /// The supplied number of bits.
        actual: usize,
    },
    /// Raw orbit data is not cotransfer-closed.
    RawNotClosed,
    /// An input belongs to a different ambient universe.
    UniverseMismatch,
}

/// Reversing the relations of each orbit, as the opposite universe does,
/// reverses the relations that a selection of orbits stands for.
pub proof fn lemma_reversed_selection(orbs: Seq<Seq<Edge>>, rorbs: Seq<Seq<Edge>>, s: Seq<bool>, n: nat)
    requires
        rorbs.len() == orbs.len(),
        forall|i: int| 0 <= i < orbs.len() ==> #[trigger] is_reversed_orbit(rorbs[i], orbs[i]),
    ensures
        system_of_orbits(rorbs, s, n) == reverse_set(system_of_orbits(orbs, s, n)),
        forall|q: Set<Edge>| #[trigger] orbit_closed(rorbs, reverse_set(q)) <==> orbit_closed(orbs, q),
{
    assert forall|i: int, e: Edge| 0 <= i < orbs.len() implies #[trigger] rorbs[i].contains(e) == orbs[i].contains(reversed(e)) by {
        lemma_reversed_orbit_contains(rorbs[i], orbs[i], e);
    }
    assert(system_of_orbits(rorbs, s, n) =~= reverse_set(system_of_orbits(orbs, s, n))) by {
        assert forall|e: Edge| #[trigger] system_of_orbits(rorbs, s, n).contains(e) == reverse_set(system_of_orbits(orbs, s, n)).contains(e) by {
            if exists|i: int| 0 <= i < rorbs.len() && s[i] && #[trigger] rorbs[i].contains(e) {
                let i = choose|i: int| 0 <= i < rorbs.len() && s[i] && #[trigger] rorbs[i].contains(e);
                assert(orbs[i].contains(reversed(e)));
            }
            if exists|i: int| 0 <= i < orbs.len() && s[i] && #[trigger] orbs[i].contains(reversed(e)) {
                let i = choose|i: int| 0 <= i < orbs.len() && s[i] && #[trigger] orbs[i].contains(reversed(e));
                assert(rorbs[i].contains(e));
            }
        }
    }
    assert forall|q: Set<Edge>| #[trigger] orbit_closed(rorbs, reverse_set(q)) <==> orbit_closed(orbs, q) by {
        if orbit_closed(rorbs, reverse_set(q)) {
            assert forall|i: int, k: int, t: int|
                0 <= i < orbs.len() && 0 <= k < orbs[i].len() && 0 <= t < orbs[i].len() && #[trigger] q.contains(orbs[i][k])
                    implies #[trigger] q.contains(orbs[i][t]) by {
                assert(is_reversed_orbit(rorbs[i], orbs[i]));
                let m = choose|m: int| 0 <= m < orbs[i].len() && rorbs[i] == exchanged_reversal(orbs[i], m) && forall|k: int|
                    0 <= k < orbs[i].len() && k != m ==> crate::order::edge_lt(reversed(orbs[i][m]), #[trigger] reversed(orbs[i][k]));
                assert(exchanged(exchanged(k, m), m) == k);
                assert(exchanged(exchanged(t, m), m) == t);
                assert(rorbs[i].len() == orbs[i].len());
                let qk = exchanged(k, m);
                let qt = exchanged(t, m);
                assert(0 <= qk < orbs[i].len() && 0 <= qt < orbs[i].len());
                assert(rorbs[i][qk] == reversed(orbs[i][exchanged(qk, m)]));
                assert(rorbs[i][qt] == reversed(orbs[i][exchanged(qt, m)]));
                assert(rorbs[i][exchanged(k, m)] == reversed(orbs[i][k]));
                assert(rorbs[i][exchanged(t, m)] == reversed(orbs[i][t]));
                assert(reversed(reversed(orbs[i][k])) == orbs[i][k]);
                assert(reverse_set(q).contains(rorbs[i][exchanged(k, m)]));
                assert(reverse_set(q).contains(rorbs[i][exchanged(t, m)]));
                assert(reversed(reversed(orbs[i][t])) == orbs[i][t]);
            }
        }
        if orbit_closed(orbs, q) {
            assert forall|i: int, k: int, t: int|
                0 <= i < rorbs.len() && 0 <= k < rorbs[i].len() && 0 <= t < rorbs[i].len() && #[trigger] reverse_set(q).contains(
                    rorbs[i][k],
                ) implies #[trigger] reverse_set(q).contains(rorbs[i][t]) by {
                assert(is_reversed_orbit(rorbs[i], orbs[i]));
                let m = choose|m: int| 0 <= m < orbs[i].len() && rorbs[i] == exchanged_reversal(orbs[i], m) && forall|k: int|
                    0 <= k < orbs[i].len() && k != m ==> crate::order::edge_lt(reversed(orbs[i][m]), #[trigger] reversed(orbs[i][k]));
                assert(rorbs[i].len() == orbs[i].len());
                assert(rorbs[i][k] == reversed(orbs[i][exchanged(k, m)]));
                assert(rorbs[i][t] == reversed(orbs[i][exchanged(t, m)]));
                assert(reversed(reversed(orbs[i][exchanged(k, m)])) == orbs[i][exchanged(k, m)]);
                assert(reversed(reversed(orbs[i][exchanged(t, m)])) == orbs[i][exchanged(t, m)]);
                assert(q.contains(orbs[i][exchanged(k, m)]));
            }
        }
    }
}

/// A relation lies in a reversed orbit exactly when its reversal lies in
/// the orbit.
proof fn lemma_reversed_orbit_contains(o: Seq<Edge>, orbit: Seq<Edge>, e: Edge)
    requires
        is_reversed_orbit(o, orbit),
    ensures
        o.contains(e) == orbit.contains(reversed(e)),
{
    let m = choose|m: int| 0 <= m < orbit.len() && o == exchanged_reversal(orbit, m) && forall|k: int|
        0 <= k < orbit.len() && k != m ==> crate::order::edge_lt(reversed(orbit[m]), #[trigger] reversed(orbit[k]));
    if o.contains(e) {
        let k = choose|k: int| 0 <= k < o.len() && o[k] == e;
        assert(orbit[exchanged(k, m)] == reversed(e));
    }
    if orbit.contains(reversed(e)) {
        let k = choose|k: int| 0 <= k < orbit.len() && orbit[k] == reversed(e);
        assert(exchanged(exchanged(k, m), m) == k);
        assert(o[exchanged(k, m)] == e);
    }
}

/// The left lifting class of a union of whole orbits is again made of
/// whole orbits, and so is its right lifting class.
pub proof fn lemma_lifting_classes_orbit_closed<A>(l: Lattice<A>, orbs: Seq<Seq<Edge>>, s: Seq<bool>)
    requires
        l.wf(),
        orbit_family(l, orbs),
        uniform_family(l, orbs),
        s.len() == orbs.len(),
    ensures
        orbit_closed(orbs, left_lifting_class(l.order(), l.card(), system_of_orbits(orbs, s, l.card()))),
        orbit_closed(orbs, right_lifting_class(l.order(), l.card(), system_of_orbits(orbs, s, l.card()))),
{
    let m = l.order();
    let n = l.card();
    let sys = system_of_orbits(orbs, s, n);
    let left = left_lifting_class(m, n, sys);
    let right = right_lifting_class(m, n, sys);
    assert forall|i: int, k: int, t: int|
        0 <= i < orbs.len() && 0 <= k < orbs[i].len() && 0 <= t < orbs[i].len() && #[trigger] left.contains(orbs[i][k])
            implies #[trigger] left.contains(orbs[i][t]) by {
        let e = orbs[i][t];
        assert(crate::orbit_theory::is_proper(l, e));
        assert forall|f: Edge| #[trigger] sys.contains(f) && f.from != f.to implies crate::order::lifts(m, e, f) by {
            let j = choose|j: int| 0 <= j < orbs.len() && s[j] && #[trigger] orbs[j].contains(f);
            assert(lifts_into_all(l, orbs[i][k], orbs[j])) by {
                assert forall|q: int| 0 <= q < orbs[j].len() implies #[trigger] crate::order::lifts(l.order(), orbs[i][k], orbs[j][q]) by {
                    assert(crate::orbit_theory::is_proper(l, orbs[j][q]));
                    assert(orbs[j].contains(orbs[j][q]));
                    assert(sys.contains(orbs[j][q]));
                }
            }
            assert(uniform_pair(l, orbs, j, i));
            assert(orbs[i][k] == orbs[i][k] && orbs[i][t] == orbs[i][t]);
            assert(lifts_into_all(l, orbs[i][t], orbs[j]));
            let q = choose|q: int| 0 <= q < orbs[j].len() && orbs[j][q] == f;
            assert(crate::order::lifts(l.order(), orbs[i][t], orbs[j][q]));
        }
    }
    assert forall|i: int, k: int, t: int|
        0 <= i < orbs.len() && 0 <= k < orbs[i].len() && 0 <= t < orbs[i].len() && #[trigger] right.contains(orbs[i][k])
            implies #[trigger] right.contains(orbs[i][t]) by {
        let e = orbs[i][t];
        assert(crate::orbit_theory::is_proper(l, e));
        assert forall|f: Edge| #[trigger] sys.contains(f) && f.from != f.to implies crate::order::lifts(m, f, e) by {
            let j = choose|j: int| 0 <= j < orbs.len() && s[j] && #[trigger] orbs[j].contains(f);
            assert(all_lift_into(l, orbs[j], orbs[i][k])) by {
                assert forall|q: int| 0 <= q < orbs[j].len() implies #[trigger] crate::order::lifts(l.order(), orbs[j][q], orbs[i][k]) by {
                    assert(crate::orbit_theory::is_proper(l, orbs[j][q]));
                    assert(orbs[j].contains(orbs[j][q]));
                    assert(sys.contains(orbs[j][q]));
                }
            }
            assert(uniform_pair(l, orbs, j, i));
            assert(orbs[i][k] == orbs[i][k] && orbs[i][t] == orbs[i][t]);
            assert(all_lift_into(l, orbs[j], orbs[i][t]));
            let q = choose|q: int| 0 <= q < orbs[j].len() && orbs[j][q] == f;
            assert(crate::order::lifts(l.order(), orbs[j][q], orbs[i][t]));
        }
    }
}

/// The cotransfer orbit context: object `a` is the class `orbs[a]`,
/// represented by its first relation; attribute `b` is the class `orbs[b]`;
/// the object has the attribute when its representative lifts against
/// every relation of the class.
pub open spec fn cotransfer_orbit_context<A>(l: Lattice<A>, orbs: Seq<Seq<Edge>>) -> Seq<Seq<bool>> {
    Seq::new(orbs.len(), |a: int| Seq::new(orbs.len(), |b: int| lifts_into_all(l, orbs[a][0], orbs[b])))
}

/// Builds the cotransfer orbit context of a G-transfer universe, with the
/// representatives of the orbits as object and attribute labels.
fn cotransfer_context<A>(tu: &GTransferUniverse<A>) -> (r: FormalContext<Edge, Edge>)
    requires
        tu.wf(),
    ensures
        context_incidence(r) == cotransfer_orbit_context(tu.lattice_of(), tu.orbits_of()),
        context_attribute_count(r) == tu.orbits_of().len(),
        context_objects(r) == orbit_representatives(tu.orbits_of()),
        context_attributes(r) == orbit_representatives(tu.orbits_of()),
{
    let ghost l = tu.lattice_of();
    let ghost orbs = tu.orbits_of();
    let lattice = tu.lattice();
    let count = tu.relation_orbit_labels().len();
    let mut matrix: Vec<Bits> = Vec::new();
    let mut objects: Vec<Edge> = Vec::new();
    let mut a: usize = 0;
    while a < count
        invariant
            tu.wf(),
            l == tu.lattice_of(),
            orbs == tu.orbits_of(),
            **lattice == l,
            count == orbs.len(),
            a <= count,
            matrix@.len() == a,
            objects@.len() == a,
            forall|i: int| 0 <= i < a ==> #[trigger] objects@[i] == orbs[i][0],
            forall|i: int| 0 <= i < a ==> (#[trigger] matrix@[i])@ == cotransfer_orbit_context(l, orbs)[i],
        decreases count - a,
    {
        let object_orbit = tu.relation_orbit_relations(a).unwrap();
        assert(orbs[a as int].len() > 0);
        let object = object_orbit[0];
        assert(crate::orbit_theory::is_proper(l, orbs[a as int][0]));
        let mut row = Bits::repeat(false, count);
        let mut b: usize = 0;
        while b < count
            invariant
                tu.wf(),
                l == tu.lattice_of(),
                orbs == tu.orbits_of(),
                **lattice == l,
                count == orbs.len(),
                a < count,
                object == orbs[a as int][0],
                object.from < l.card() && object.to < l.card(),
                b <= count,
                row@.len() == count,
                forall|j: int| 0 <= j < b ==> #[trigger] row@[j] == lifts_into_all(l, object, orbs[j]),
            decreases count - b,
        {
            let attribute = tu.relation_orbit_relations(b).unwrap();
            let mut all = true;
            let mut t: usize = 0;
            while t < attribute.len()
                invariant
                    l.wf(),
                    **lattice == l,
                    attribute@ == orbs[b as int],
                    b < orbs.len(),
                    orbit_family(l, orbs),
                    t <= attribute@.len(),
                    object.from < l.card() && object.to < l.card(),
                    all == forall|k: int| 0 <= k < t ==> #[trigger] crate::order::lifts(l.order(), object, attribute@[k]),
                decreases attribute@.len() - t,
            {
                let e = attribute[t];
                assert(crate::orbit_theory::is_proper(l, orbs[b as int][t as int]));
                let lifts = !lattice.leq(object.from, e.from) || !lattice.leq(object.to, e.to) || lattice.leq(object.to, e.from);
                assert(lifts == crate::order::lifts(l.order(), object, attribute@[t as int]));
                all = all && lifts;
                t += 1;
            }
            row.set(b, all);
            b += 1;
        }
        assert(row@ =~= cotransfer_orbit_context(l, orbs)[a as int]);
        matrix.push(row);
        objects.push(object);
        a += 1;
    }
    let attributes = crate::edges::copy_edges(&objects);
    assert(objects@ =~= orbit_representatives(orbs));
    let r = formal_context_new(objects, attributes, matrix);
    assert(crate::bits::matrix_of(matrix@) =~= cotransfer_orbit_context(l, orbs));
    r
}

/// Shared orbit coordinates for G-cotransfer systems: the G-transfer
/// universe of the lattice, that of the opposite lattice, and the ordinary
/// cotransfer universe.
pub struct GCotransferUniverse<A> {
    transfer_universe: Arc<GTransferUniverse<A>>,
    opposite_transfer_universe: Arc<GTransferUniverse<ElementId>>,
    underlying_cotransfer_universe: Arc<CotransferUniverse<A>>,
    context: FormalContext<Edge, Edge>,
}

impl<A> GCotransferUniverse<A> {
    /// The G-transfer universe of the lattice.
    pub closed spec fn transfer_universe_of(&self) -> GTransferUniverse<A> {
        *self.transfer_universe
    }

    /// The G-transfer universe of the opposite lattice.
    pub closed spec fn opposite_universe_of(&self) -> GTransferUniverse<ElementId> {
        *self.opposite_transfer_universe
    }

    /// The ordinary cotransfer universe of the lattice.
    pub closed spec fn underlying_of(&self) -> CotransferUniverse<A> {
        *self.underlying_cotransfer_universe
    }

    /// The lattice.
    pub open spec fn lattice_of(&self) -> Lattice<A> {
        self.transfer_universe_of().lattice_of()
    }

    /// The orbits of proper relations, in bit order.
    pub open spec fn orbits_of(&self) -> Seq<Seq<Edge>> {
        self.transfer_universe_of().orbits_of()
    }

    /// `s` selects orbits whose relations, with the identities, form a
    /// cotransfer system.
    pub open spec fn is_system_bits(&self, s: Seq<bool>) -> bool {
        s.len() == self.orbits_of().len() && is_cotransfer_system(
            self.lattice_of(),
            system_of_orbits(self.orbits_of(), s, self.lattice_of().card()),
        )
    }

    /// The opposite universe reverses the lattice and every orbit, in
    /// place.
    pub open spec fn wf(&self) -> bool {
        &&& self.transfer_universe_of().wf()
        &&& self.opposite_universe_of().wf()
        &&& is_opposite(self.opposite_universe_of().lattice_of(), self.lattice_of())
        &&& self.opposite_universe_of().orbits_of().len() == self.orbits_of().len()
        &&& forall|i: int|
            0 <= i < self.orbits_of().len() ==> #[trigger] is_reversed_orbit(
                self.opposite_universe_of().orbits_of()[i],
                self.orbits_of()[i],
            )
        &&& self.underlying_of().wf()
        &&& self.underlying_of().transfer_universe_of() == self.transfer_universe_of().underlying_of()
        &&& self.context_wf()
    }

    /// The stored context is the cotransfer orbit context.
    pub closed spec fn context_wf(&self) -> bool {
        &&& context_incidence(self.context) == cotransfer_orbit_context(self.lattice_of(), self.orbits_of())
        &&& context_attribute_count(self.context) == self.orbits_of().len()
        &&& context_objects(self.context) == orbit_representatives(self.orbits_of())
        &&& context_attributes(self.context) == orbit_representatives(self.orbits_of())
    }

    /// A selection of orbits is a G-cotransfer system exactly when it is a
    /// G-transfer system of the opposite universe, whose relations are the
    /// reversed relations: the G-cotransfer systems on a lattice and the
    /// G-transfer systems on its opposite correspond, with the same orbits.
    pub proof fn lemma_system_bits(&self, s: Seq<bool>)
        requires
            self.wf(),
        ensures
            self.is_system_bits(s) == self.opposite_universe_of().is_system_bits(s),
            is_cotransfer_system(self.lattice_of(), system_of_orbits(self.orbits_of(), s, self.lattice_of().card()))
                == is_transfer_system(
                self.opposite_universe_of().lattice_of(),
                system_of_orbits(self.opposite_universe_of().orbits_of(), s, self.opposite_universe_of().lattice_of().card()),
            ),
            self.opposite_universe_of().lattice_of().card() == self.lattice_of().card(),
            system_of_orbits(self.opposite_universe_of().orbits_of(), s, self.lattice_of().card()) == reverse_set(
                system_of_orbits(self.orbits_of(), s, self.lattice_of().card()),
            ),
    {
        let op = self.opposite_universe_of();
        let l = self.lattice_of();
        let n = l.card();
        lemma_reversed_selection(self.orbits_of(), op.orbits_of(), s, n);
        lemma_cotransfer_iff_opposite_transfer(l, op.lattice_of(), system_of_orbits(self.orbits_of(), s, n));
        if s.len() == op.orbits_of().len() {
            crate::orbit_theory::lemma_orbit_closed_iff(op.lattice_of(), op.underlying_of().edges_of(), op.orbits_of(), op.attrs_of(), s);
        }
    }

    /// Constructs the cotransfer universe dual to `transfer_universe`.
    pub fn new(transfer_universe: Arc<GTransferUniverse<A>>) -> (r: Self)
        requires
            transfer_universe.wf(),
        ensures
            r.wf(),
            r.transfer_universe_of() == *transfer_universe,
    {
        let opposite = Arc::new(transfer_universe.opposite());
        let underlying = crate::shared::arc_clone(transfer_universe.underlying_transfer_universe());
        let cotransfer = Arc::new(CotransferUniverse::from_transfer_universe(underlying));
        let context = cotransfer_context(&transfer_universe);
        GCotransferUniverse {
            transfer_universe,
            opposite_transfer_universe: opposite,
            underlying_cotransfer_universe: cotransfer,
            context,
        }
    }

    /// Returns the formal context of the orbits: object `a` has attribute
    /// `b` when the representative of orbit `a` lifts against every
    /// relation of orbit `b`; both are labelled by the representatives.
    pub fn context(&self) -> (r: &FormalContext<Edge, Edge>)
        requires
            self.wf(),
        ensures
            context_incidence(*r) == cotransfer_orbit_context(self.lattice_of(), self.orbits_of()),
            context_attribute_count(*r) == self.orbits_of().len(),
            context_objects(*r) == orbit_representatives(self.orbits_of()),
            context_attributes(*r) == orbit_representatives(self.orbits_of()),
    {
        &self.context
    }

    /// Returns the underlying lattice, forgetting the group action.
    pub fn lattice(&self) -> (r: &Arc<Lattice<A>>)
        requires
            self.wf(),
        ensures
            **r == self.lattice_of(),
    {
        self.transfer_universe.lattice()
    }

    /// Returns the G-transfer universe with the same orbits.
    pub fn transfer_universe(&self) -> (r: &Arc<GTransferUniverse<A>>)
        ensures
            **r == self.transfer_universe_of(),
    {
        &self.transfer_universe
    }

    /// Returns the G-transfer universe of the induced action on the
    /// opposite lattice.
    pub fn opposite_transfer_universe(&self) -> (r: &Arc<GTransferUniverse<ElementId>>)
        ensures
            **r == self.opposite_universe_of(),
    {
        &self.opposite_transfer_universe
    }

    /// Returns the ordinary cotransfer universe on the underlying lattice.
    pub fn underlying_cotransfer_universe(&self) -> (r: &Arc<CotransferUniverse<A>>)
        ensures
            **r == self.underlying_of(),
    {
        &self.underlying_cotransfer_universe
    }

    /// Returns the labels of the orbits of proper relations, in bit order.
    pub fn relation_orbit_labels(&self) -> (r: &[RelationOrbitLabel])
        ensures
            r@ == self.transfer_universe_of().labels_of(),
    {
        self.transfer_universe.relation_orbit_labels()
    }

    /// Returns all relations of the orbit with the given label position.
    pub fn relation_orbit_relations(&self, orbit_label_id: usize) -> (r: Option<&[Edge]>)
        ensures
            match r {
                Some(es) => orbit_label_id < self.orbits_of().len() && es@ == self.orbits_of()[orbit_label_id as int],
                None => orbit_label_id >= self.orbits_of().len(),
            },
    {
        self.transfer_universe.relation_orbit_relations(orbit_label_id)
    }

    /// Constructs the G-cotransfer system generated by the supplied
    /// relations: the least cotransfer system made of whole orbits that
    /// contains them.  Identity relations may be supplied; every generator
    /// must lie in the lattice, and every non-identity generator must be a
    /// relation of its order; the first generator that fails is reported.
    pub fn generated_by(self: &Arc<Self>, generators: Vec<Edge>) -> (r: Result<GCotransferSystem<A>, GCotransferSystemError>)
        requires
            self.wf(),
        ensures
            match r {
                Ok(cs) => {
                    &&& cs.wf()
                    &&& cs.universe_of() == **self
                    &&& is_cotransfer_system(self.lattice_of(), cs.relation_set())
                    &&& orbit_closed(self.orbits_of(), cs.relation_set())
                    &&& forall|k: int| 0 <= k < generators@.len() ==> cs.relation_set().contains(#[trigger] generators@[k])
                    &&& forall|q: Set<Edge>|
                        #[trigger] is_cotransfer_system(self.lattice_of(), q) && orbit_closed(self.orbits_of(), q) && (forall|k: int|
                            0 <= k < generators@.len() ==> q.contains(#[trigger] generators@[k])) ==> cs.relation_set().subset_of(q)
                },
                Err(GCotransferSystemError::EdgeOutOfBounds { edge, lattice_size }) => {
                    &&& lattice_size == self.lattice_of().card()
                    &&& (edge.from >= lattice_size || edge.to >= lattice_size)
                    &&& exists|k: int| 0 <= k < generators@.len() && generators@[k] == edge && forall|j: int|
                        0 <= j < k ==> #[trigger] generator_ok(self.lattice_of(), generators@[j])
                },
                Err(GCotransferSystemError::NotLatticeRelation { edge }) => {
                    &&& edge.from < self.lattice_of().card()
                    &&& edge.to < self.lattice_of().card()
                    &&& edge.from != edge.to
                    &&& !self.lattice_of().le(edge.from as int, edge.to as int)
                    &&& exists|k: int| 0 <= k < generators@.len() && generators@[k] == edge && forall|j: int|
                        0 <= j < k ==> #[trigger] generator_ok(self.lattice_of(), generators@[j])
                },
                Err(_) => false,
            },
    {
        let ghost l = self.lattice_of();
        let ghost op = self.opposite_universe_of();
        let ghost n = l.card();
        let mut reversed_generators: Vec<Edge> = Vec::new();
        let mut k: usize = 0;
        while k < generators.len()
            invariant
                k <= generators@.len(),
                reversed_generators@.len() == k,
                forall|j: int| 0 <= j < k ==> #[trigger] reversed_generators@[j] == reversed(generators@[j]),
            decreases generators@.len() - k,
        {
            reversed_generators.push(crate::cotransfer_lattice::reverse(generators[k]));
            k += 1;
        }
        proof {
            assert forall|j: int| 0 <= j < generators@.len() implies #[trigger] generator_ok(op.lattice_of(), reversed_generators@[j])
                == generator_ok(l, generators@[j]) by {
                let g = generators@[j];
                if g.from < n && g.to < n {
                    assert(op.lattice_of().le(g.to as int, g.from as int) == l.le(g.from as int, g.to as int));
                }
            }
        }
        match self.opposite_transfer_universe.generated_by(reversed_generators) {
            Ok(ts) => {
                let bits = ts.raw().orbit_arrows().duplicate();
                let ghost s = bits@;
                proof {
                    self.lemma_system_bits(s);
                    let cset = system_of_orbits(self.orbits_of(), s, n);
                    lemma_cotransfer_iff_opposite_transfer(l, op.lattice_of(), cset);
                    crate::cotransfer_lattice::lemma_reverse_twice(cset);
                    lemma_reversed_selection(self.orbits_of(), op.orbits_of(), s, n);
                    assert(orbit_closed(op.orbits_of(), reverse_set(cset)));
                    assert forall|j: int| 0 <= j < generators@.len() implies cset.contains(#[trigger] generators@[j]) by {
                        assert(reverse_set(cset).contains(reversed_generators@[j]));
                        assert(reversed(reversed(generators@[j])) == generators@[j]);
                    }
                    assert forall|q: Set<Edge>|
                        #[trigger] is_cotransfer_system(l, q) && orbit_closed(self.orbits_of(), q) && (forall|j: int|
                            0 <= j < generators@.len() ==> q.contains(#[trigger] generators@[j])) implies cset.subset_of(q) by {
                        lemma_cotransfer_iff_opposite_transfer(l, op.lattice_of(), q);
                        assert(orbit_closed(op.orbits_of(), reverse_set(q)));
                        assert forall|j: int| 0 <= j < reversed_generators@.len() implies reverse_set(q).contains(
                            #[trigger] reversed_generators@[j],
                        ) by {
                            assert(q.contains(generators@[j]));
                            assert(reversed(reversed(generators@[j])) == generators@[j]);
                        }
                        assert(is_transfer_system(op.lattice_of(), reverse_set(q)));
                        assert(reverse_set(cset).subset_of(reverse_set(q)));
                        assert forall|e: Edge| cset.contains(e) implies q.contains(e) by {
                            assert(reversed(reversed(e)) == e);
                            assert(reverse_set(cset).contains(reversed(e)));
                        }
                    }
                }
                Ok(GCotransferSystem { raw: RawGCotransferSystem { orbit_arrows: bits }, universe: crate::shared::arc_clone(self) })
            },
            Err(GTransferSystemError::EdgeOutOfBounds { edge, lattice_size }) => {
                proof {
                    let k = choose|k: int| 0 <= k < reversed_generators@.len() && reversed_generators@[k] == edge && forall|j: int|
                        0 <= j < k ==> #[trigger] generator_ok(op.lattice_of(), reversed_generators@[j]);
                    assert(reversed(reversed(generators@[k])) == generators@[k]);
                    assert(generators@[k] == reversed(edge));
                    assert forall|j: int| 0 <= j < k implies #[trigger] generator_ok(l, generators@[j]) by {
                        assert(generator_ok(op.lattice_of(), reversed_generators@[j]));
                    }
                }
                Err(GCotransferSystemError::EdgeOutOfBounds { edge: crate::cotransfer_lattice::reverse(edge), lattice_size })
            },
            Err(GTransferSystemError::NotLatticeRelation { edge }) => {
                proof {
                    let k = choose|k: int| 0 <= k < reversed_generators@.len() && reversed_generators@[k] == edge && forall|j: int|
                        0 <= j < k ==> #[trigger] generator_ok(op.lattice_of(), reversed_generators@[j]);
                    assert(reversed(reversed(generators@[k])) == generators@[k]);
                    assert(generators@[k] == reversed(edge));
                    assert(op.lattice_of().le(edge.from as int, edge.to as int) == l.le(edge.to as int, edge.from as int));
                    assert forall|j: int| 0 <= j < k implies #[trigger] generator_ok(l, generators@[j]) by {
                        assert(generator_ok(op.lattice_of(), reversed_generators@[j]));
                    }
                }
                Err(GCotransferSystemError::NotLatticeRelation { edge: crate::cotransfer_lattice::reverse(edge) })
            },
            Err(_) => vstd::pervasive::unreached(),
        }
    }

    /// Validates raw orbit data and pairs it with this universe: the vector
    /// must have one bit per orbit and must select a cotransfer system.
    pub fn try_from_raw(self: &Arc<Self>, raw: RawGCotransferSystem) -> (r: Result<GCotransferSystem<A>, GCotransferSystemError>)
        requires
            self.wf(),
        ensures
            match r {
                Ok(cs) => cs.wf() && cs.universe_of() == **self && cs.bits() == raw.bits(),
                Err(GCotransferSystemError::WrongOrbitCount { expected, actual }) => expected == self.orbits_of().len()
                    && actual == raw.bits().len() && expected != actual,
                Err(GCotransferSystemError::RawNotClosed) => raw.bits().len() == self.orbits_of().len() && !is_cotransfer_system(
                    self.lattice_of(),
                    system_of_orbits(self.orbits_of(), raw.bits(), self.lattice_of().card()),
                ),
                Err(_) => false,
            },
    {
        proof {
            self.lemma_system_bits(raw.bits());
        }
        let candidate = RawGTransferSystem::new(raw.orbit_arrows.duplicate());
        match self.opposite_transfer_universe.try_from_raw(candidate) {
            Ok(_) => Ok(GCotransferSystem { raw, universe: crate::shared::arc_clone(self) }),
            Err(GTransferSystemError::WrongOrbitCount { expected, actual }) => Err(
                GCotransferSystemError::WrongOrbitCount { expected, actual },
            ),
            Err(GTransferSystemError::RawNotClosed) => Err(GCotransferSystemError::RawNotClosed),
            Err(_) => vstd::pervasive::unreached(),
        }
    }

    /// Enumerates all G-cotransfer systems, each once.
    pub fn cotransfer_systems(self: &Arc<Self>) -> (r: Vec<GCotransferSystem<A>>)
        requires
            self.wf(),
        ensures
            forall|i: int| 0 <= i < r@.len() ==> (#[trigger] r@[i]).wf() && r@[i].universe_of() == **self,
            forall|i: int, j: int| 0 <= i < j < r@.len() ==> (#[trigger] r@[i]).bits() != (#[trigger] r@[j]).bits(),
            forall|s: Seq<bool>| #[trigger] self.is_system_bits(s) ==> exists|i: int| 0 <= i < r@.len() && (#[trigger] r@[i]).bits() == s,
    {
        let systems = self.opposite_transfer_universe.transfer_systems();
        let mut result: Vec<GCotransferSystem<A>> = Vec::new();
        let mut i: usize = 0;
        while i < systems.len()
            invariant
                self.wf(),
                i <= systems@.len(),
                result@.len() == i,
                forall|k: int|
                    0 <= k < systems@.len() ==> (#[trigger] systems@[k]).wf() && systems@[k].universe_of() == self.opposite_universe_of(),
                forall|k: int| 0 <= k < i ==> (#[trigger] result@[k]).wf() && result@[k].universe_of() == **self && result@[k].bits() == systems@[k].bits(),
            decreases systems@.len() - i,
        {
            let bits = systems[i].raw().orbit_arrows().duplicate();
            proof {
                self.lemma_system_bits(bits@);
            }
            result.push(GCotransferSystem { raw: RawGCotransferSystem { orbit_arrows: bits }, universe: crate::shared::arc_clone(self) });
            i += 1;
        }
        proof {
            assert forall|a: int, b: int| 0 <= a < b < result@.len() implies (#[trigger] result@[a]).bits() != (#[trigger] result@[b]).bits() by {
                assert(systems@[a].bits() != systems@[b].bits());
            }
            assert forall|s: Seq<bool>| #[trigger] self.is_system_bits(s) implies exists|k: int| 0 <= k < result@.len() && (#[trigger] result@[k]).bits() == s by {
                self.lemma_system_bits(s);
                assert(self.opposite_universe_of().is_system_bits(s));
                let k = choose|k: int| 0 <= k < systems@.len() && (#[trigger] systems@[k]).bits() == s;
                assert(result@[k].bits() == s);
            }
        }
        result
    }

    /// Forms the G-invariant left lifting class of a G-transfer system of
    /// this universe's transfer universe; a system of another universe (not
    /// the same shared handle) is refused.
    pub fn left_lifting_of(self: &Arc<Self>, right: &GTransferSystem<A>) -> (r: Result<GCotransferSystem<A>, GCotransferSystemError>)
        requires
            self.wf(),
            right.wf(),
        ensures
            right.universe_of() != self.transfer_universe_of() ==> r == Err::<GCotransferSystem<A>, GCotransferSystemError>(
                GCotransferSystemError::UniverseMismatch,
            ),
            match r {
                Ok(cs) => {
                    &&& right.universe_of() == self.transfer_universe_of()
                    &&& cs.wf()
                    &&& cs.universe_of() == **self
                    &&& cs.relation_set() == left_lifting_class(self.lattice_of().order(), self.lattice_of().card(), right.relation_set())
                },
                Err(e) => e == GCotransferSystemError::UniverseMismatch,
            },
    {
        if !crate::shared::arc_ptr_eq(&self.transfer_universe, right.universe()) {
            return Err(GCotransferSystemError::UniverseMismatch);
        }
        Ok(self.left_lifting_in_universe(right))
    }

    /// The left lifting class of a G-transfer system of this universe's
    /// transfer universe: a G-cotransfer system.
    pub fn left_lifting_in_universe(self: &Arc<Self>, right: &GTransferSystem<A>) -> (r: GCotransferSystem<A>)
        requires
            self.wf(),
            right.wf(),
            right.universe_of() == self.transfer_universe_of(),
        ensures
            r.wf(),
            r.universe_of() == **self,
            r.relation_set() == left_lifting_class(self.lattice_of().order(), self.lattice_of().card(), right.relation_set()),
    {
        let ghost l = self.lattice_of();
        let ghost class = left_lifting_class(l.order(), l.card(), right.relation_set());
        let relations = right.relations(true);
        proof {
            crate::g_lattice::lemma_g_transfer_system_valid(*right);
            assert forall|f: Edge| #[trigger] relations@.contains(f) && f.from != f.to implies f.from < l.card() && f.to < l.card() by {
                crate::transfer_theory::lemma_ts_order(l, right.relation_set(), f);
            }
            assert(relations@ =~= right.relation_set());
        }
        let arrows = self.lattice().as_poset().llc(&relations).to_vec();
        let result = self.generated_by(arrows);
        let ghost outcome = result;
        proof {
            assert(arrows@.to_set() == class);
            lemma_left_lifting_class_is_cotransfer(l, right.relation_set());
            lemma_lifting_classes_orbit_closed(l, self.orbits_of(), right.bits());
            assert forall|j: int| 0 <= j < arrows@.len() implies class.contains(#[trigger] arrows@[j]) by {
                assert(arrows@.to_set().contains(arrows@[j]));
            }
            assert forall|j: int| 0 <= j < arrows@.len() implies #[trigger] generator_ok(l, arrows@[j]) by {
                assert(class.contains(arrows@[j]));
            }
        }
        match result {
            Ok(cs) => {
                proof {
                    assert forall|e: Edge| class.contains(e) implies cs.relation_set().contains(e) by {
                        assert(arrows@.to_set().contains(e));
                        let j = choose|j: int| 0 <= j < arrows@.len() && arrows@[j] == e;
                        assert(cs.relation_set().contains(arrows@[j]));
                    }
                    assert(cs.relation_set().subset_of(class));
                    assert(cs.relation_set() =~= class);
                }
                cs
            },
            Err(_) => {
                proof {
                    match outcome {
                        Err(GCotransferSystemError::EdgeOutOfBounds { edge, lattice_size }) => {
                            let j = choose|j: int| 0 <= j < arrows@.len() && arrows@[j] == edge && forall|i: int|
                                0 <= i < j ==> #[trigger] generator_ok(l, arrows@[i]);
                            assert(generator_ok(l, arrows@[j]));
                        },
                        Err(GCotransferSystemError::NotLatticeRelation { edge }) => {
                            let j = choose|j: int| 0 <= j < arrows@.len() && arrows@[j] == edge && forall|i: int|
                                0 <= i < j ==> #[trigger] generator_ok(l, arrows@[i]);
                            assert(generator_ok(l, arrows@[j]));
                        },
                        _ => {},
                    }
                }
                vstd::pervasive::unreached()
            },
        }
    }

    /// Converts a G-transfer system on the opposite lattice to its
    /// G-cotransfer system on the lattice, reversing every arrow; a system
    /// of another universe is refused.
    pub fn from_opposite_transfer_system(self: &Arc<Self>, opposite: &GTransferSystem<ElementId>) -> (r: Result<GCotransferSystem<A>, GCotransferSystemError>)
        requires
            self.wf(),
            opposite.wf(),
        ensures
            opposite.universe_of() != self.opposite_universe_of() ==> r == Err::<GCotransferSystem<A>, GCotransferSystemError>(
                GCotransferSystemError::UniverseMismatch,
            ),
            match r {
                Ok(cs) => {
                    &&& opposite.universe_of() == self.opposite_universe_of()
                    &&& cs.wf()
                    &&& cs.universe_of() == **self
                    &&& cs.relation_set() == reverse_set(opposite.relation_set())
                },
                Err(e) => e == GCotransferSystemError::UniverseMismatch,
            },
    {
        if !crate::shared::arc_ptr_eq(&self.opposite_transfer_universe, opposite.universe()) {
            return Err(GCotransferSystemError::UniverseMismatch);
        }
        Ok(self.from_opposite_in_universe(opposite))
    }

    /// Converts a G-transfer system of the opposite universe to its
    /// G-cotransfer system, reversing every arrow.
    pub fn from_opposite_in_universe(self: &Arc<Self>, opposite: &GTransferSystem<ElementId>) -> (r: GCotransferSystem<A>)
        requires
            self.wf(),
            opposite.wf(),
            opposite.universe_of() == self.opposite_universe_of(),
        ensures
            r.wf(),
            r.universe_of() == **self,
            r.bits() == opposite.bits(),
            r.relation_set() == reverse_set(opposite.relation_set()),
    {
        let bits = opposite.raw().orbit_arrows().duplicate();
        proof {
            self.lemma_system_bits(bits@);
            crate::cotransfer_lattice::lemma_reverse_twice(system_of_orbits(self.orbits_of(), bits@, self.lattice_of().card()));
            assert(self.opposite_universe_of().lattice_of().card() == self.lattice_of().card());
        }
        GCotransferSystem { raw: RawGCotransferSystem { orbit_arrows: bits }, universe: crate::shared::arc_clone(self) }
    }
}

/// A cotransfer system invariant under the group action, with the universe
/// that interprets it.
pub struct GCotransferSystem<A> {
    raw: RawGCotransferSystem,
    universe: Arc<GCotransferUniverse<A>>,
}

impl<A> GCotransferSystem<A> {
    /// The universe that interprets this system.
    pub closed spec fn universe_of(&self) -> GCotransferUniverse<A> {
        *self.universe
    }

    /// The selected orbits.
    pub closed spec fn bits(&self) -> Seq<bool> {
        self.raw.bits()
    }

    /// The relations of the system: the identities and the selected orbits.
    pub open spec fn relation_set(&self) -> Set<Edge> {
        system_of_orbits(self.universe_of().orbits_of(), self.bits(), self.universe_of().lattice_of().card())
    }

    /// A well-formed G-cotransfer system: a selection of orbits that forms a
    /// cotransfer system.
    pub open spec fn wf(&self) -> bool {
        &&& self.universe_of().wf()
        &&& self.universe_of().is_system_bits(self.bits())
    }

    /// Returns the raw bit vector representation.
    pub fn raw(&self) -> (r: &RawGCotransferSystem)
        ensures
            r.bits() == self.bits(),
    {
        &self.raw
    }

    /// Returns the ambient universe.
    pub fn universe(&self) -> (r: &Arc<GCotransferUniverse<A>>)
        ensures
            **r == self.universe_of(),
    {
        &self.universe
    }

    /// Returns the underlying lattice.
    pub fn lattice(&self) -> (r: &Arc<Lattice<A>>)
        requires
            self.wf(),
        ensures
            **r == self.universe_of().lattice_of(),
    {
        self.universe.lattice()
    }

    /// Tests membership of a relation.
    pub fn contains_relation(&self, relation: Edge) -> (r: bool)
        requires
            self.wf(),
        ensures
            r == self.relation_set().contains(relation),
    {
        let ghost orbs = self.universe_of().orbits_of();
        let ghost n = self.universe_of().lattice_of().card();
        if relation.from == relation.to {
            return relation.from < self.lattice().size();
        }
        match self.universe.transfer_universe.relation_orbit_label_id(relation) {
            Some(i) => {
                let selected = self.raw.orbit_arrows.bit(i);
                proof {
                    if !selected && self.relation_set().contains(relation) {
                        let j = choose|j: int| 0 <= j < orbs.len() && self.bits()[j] && #[trigger] orbs[j].contains(relation);
                        let a = choose|a: int| 0 <= a < orbs[i as int].len() && orbs[i as int][a] == relation;
                        let b = choose|b: int| 0 <= b < orbs[j].len() && orbs[j][b] == relation;
                        assert(orbs[i as int][a] == orbs[j][b]);
                    }
                }
                selected
            },
            None => {
                proof {
                    if self.relation_set().contains(relation) {
                        let j = choose|j: int| 0 <= j < orbs.len() && self.bits()[j] && #[trigger] orbs[j].contains(relation);
                        let b = choose|b: int| 0 <= b < orbs[j].len() && orbs[j][b] == relation;
                        assert(in_family(orbs, relation));
                    }
                }
                false
            },
        }
    }

    /// Returns the relations of this G-cotransfer system, with the
    /// identities `x <= x` when `include_identities` holds.
    pub fn relations(&self, include_identities: bool) -> (r: EdgeSet)
        requires
            self.wf(),
        ensures
            forall|e: Edge| #[trigger] r@.contains(e) <==> (self.relation_set().contains(e) && (include_identities || e.from != e.to)),
    {
        let ghost orbs = self.universe_of().orbits_of();
        let ghost n = self.universe_of().lattice_of().card();
        let mut result = EdgeSet::new();
        if include_identities {
            let size = self.lattice().size();
            let mut id: usize = 0;
            while id < size
                invariant
                    size == n,
                    id <= size,
                    forall|e: Edge| #[trigger] result@.contains(e) <==> (e.from == e.to && e.from < id),
                decreases size - id,
            {
                result.insert(Edge::new(id, id));
                id += 1;
            }
        }
        let arrows = self.raw.orbit_arrows();
        let mut i: usize = 0;
        while i < arrows.len()
            invariant
                self.wf(),
                orbs == self.universe_of().orbits_of(),
                n == self.universe_of().lattice_of().card(),
                arrows@ == self.bits(),
                arrows@.len() == orbs.len(),
                i <= orbs.len(),
                forall|e: Edge| #[trigger] result@.contains(e) <==> ((include_identities && e.from == e.to && e.from < n) || exists|j: int|
                    0 <= j < i && arrows@[j] && #[trigger] orbs[j].contains(e)),
            decreases orbs.len() - i,
        {
            if arrows.bit(i) {
                let orbit = self.universe.relation_orbit_relations(i).unwrap();
                let mut k: usize = 0;
                while k < orbit.len()
                    invariant
                        orbit@ == orbs[i as int],
                        i < orbs.len(),
                        arrows@[i as int],
                        k <= orbit@.len(),
                        forall|e: Edge| #[trigger] result@.contains(e) <==> ((include_identities && e.from == e.to && e.from < n) || (exists|j: int|
                            0 <= j < i && arrows@[j] && #[trigger] orbs[j].contains(e)) || exists|t: int| 0 <= t < k && orbit@[t] == e),
                    decreases orbit@.len() - k,
                {
                    result.insert(orbit[k]);
                    k += 1;
                }
                proof {
                    assert forall|e: Edge| #[trigger] result@.contains(e) <==> ((include_identities && e.from == e.to && e.from < n) || exists|j: int|
                        0 <= j < i + 1 && arrows@[j] && #[trigger] orbs[j].contains(e)) by {
                        if exists|t: int| 0 <= t < orbit@.len() && orbit@[t] == e {
                            assert(orbs[i as int].contains(e));
                        }
                        if exists|j: int| 0 <= j < i + 1 && arrows@[j] && #[trigger] orbs[j].contains(e) {
                            let j = choose|j: int| 0 <= j < i + 1 && arrows@[j] && #[trigger] orbs[j].contains(e);
                            if j == i {
                                let t = choose|t: int| 0 <= t < orbit@.len() && orbit@[t] == e;
                            }
                        }
                    }
                }
            } else {
                proof {
                    assert forall|e: Edge| #[trigger] result@.contains(e) <==> ((include_identities && e.from == e.to && e.from < n) || exists|j: int|
                        0 <= j < i + 1 && arrows@[j] && #[trigger] orbs[j].contains(e)) by {
                        if exists|j: int| 0 <= j < i + 1 && arrows@[j] && #[trigger] orbs[j].contains(e) {
                            let j = choose|j: int| 0 <= j < i + 1 && arrows@[j] && #[trigger] orbs[j].contains(e);
                            assert(j != i);
                        }
                    }
                }
            }
            i += 1;
        }
        proof {
            assert forall|e: Edge| #[trigger] result@.contains(e) <==> (self.relation_set().contains(e) && (include_identities || e.from != e.to)) by {
                if exists|j: int| 0 <= j < orbs.len() && arrows@[j] && #[trigger] orbs[j].contains(e) {
                    let j = choose|j: int| 0 <= j < orbs.len() && arrows@[j] && #[trigger] orbs[j].contains(e);
                    let t = choose|t: int| 0 <= t < orbs[j].len() && orbs[j][t] == e;
                    assert(crate::orbit_theory::is_proper(self.universe_of().lattice_of(), orbs[j][t]));
                }
            }
        }
        result
    }

    /// Forms the right lifting class of this G-cotransfer system: a
    /// G-transfer system of the transfer universe.
    pub fn right_lifting_transfer(&self) -> (r: Result<GTransferSystem<A>, GCotransferSystemError>)
        requires
            self.wf(),
        ensures
            r matches Ok(ts) && {
                &&& ts.wf()
                &&& ts.universe_of() == self.universe_of().transfer_universe_of()
                &&& ts.relation_set() == right_lifting_class(
                    self.universe_of().lattice_of().order(),
                    self.universe_of().lattice_of().card(),
                    self.relation_set(),
                )
            },
    {
        let ghost u = self.universe_of();
        let ghost l = u.lattice_of();
        let ghost class = right_lifting_class(l.order(), l.card(), self.relation_set());
        let relations = self.relations(true);
        proof {
            lemma_g_cotransfer_system_valid(*self);
            assert forall|f: Edge| #[trigger] relations@.contains(f) && f.from != f.to implies f.from < l.card() && f.to < l.card() by {
                let orbs = u.orbits_of();
                let j = choose|j: int| 0 <= j < orbs.len() && self.bits()[j] && #[trigger] orbs[j].contains(f);
                let q = choose|q: int| 0 <= q < orbs[j].len() && orbs[j][q] == f;
                assert(crate::orbit_theory::is_proper(l, orbs[j][q]));
            }
            assert(relations@ =~= self.relation_set());
        }
        let arrows = self.lattice().as_poset().rlc(&relations).to_vec();
        let tu = &self.universe.transfer_universe;
        let result = tu.generated_by(arrows);
        let ghost outcome = result;
        proof {
            assert(arrows@.to_set() == class);
            crate::cotransfer_lattice::lemma_right_lifting_class_is_transfer(l, self.relation_set());
            lemma_lifting_classes_orbit_closed(l, u.orbits_of(), self.bits());
            assert forall|j: int| 0 <= j < arrows@.len() implies class.contains(#[trigger] arrows@[j]) by {
                assert(arrows@.to_set().contains(arrows@[j]));
            }
            assert forall|j: int| 0 <= j < arrows@.len() implies #[trigger] generator_ok(l, arrows@[j]) by {
                assert(class.contains(arrows@[j]));
            }
        }
        match result {
            Ok(ts) => {
                proof {
                    assert forall|e: Edge| class.contains(e) implies ts.relation_set().contains(e) by {
                        assert(arrows@.to_set().contains(e));
                        let j = choose|j: int| 0 <= j < arrows@.len() && arrows@[j] == e;
                        assert(ts.relation_set().contains(arrows@[j]));
                    }
                    assert(ts.relation_set().subset_of(class));
                    assert(ts.relation_set() =~= class);
                }
                Ok(ts)
            },
            Err(_) => {
                proof {
                    match outcome {
                        Err(GTransferSystemError::EdgeOutOfBounds { edge, lattice_size }) => {
                            let j = choose|j: int| 0 <= j < arrows@.len() && arrows@[j] == edge && forall|i: int|
                                0 <= i < j ==> #[trigger] generator_ok(l, arrows@[i]);
                            assert(generator_ok(l, arrows@[j]));
                        },
                        Err(GTransferSystemError::NotLatticeRelation { edge }) => {
                            let j = choose|j: int| 0 <= j < arrows@.len() && arrows@[j] == edge && forall|i: int|
                                0 <= i < j ==> #[trigger] generator_ok(l, arrows@[i]);
                            assert(generator_ok(l, arrows@[j]));
                        },
                        _ => {},
                    }
                }
                vstd::pervasive::unreached()
            },
        }
    }

    /// Returns the labels of the selected orbits, in bit order.
    pub fn relation_orbit_labels(&self) -> (r: Vec<RelationOrbitLabel>)
        requires
            self.wf(),
        ensures
            r@ == crate::g_lattice::selected_labels(
                self.universe_of().transfer_universe_of().labels_of(),
                self.bits(),
                self.bits().len() as int,
            ),
    {
        let arrows = self.raw.orbit_arrows();
        let labels = self.universe.relation_orbit_labels();
        let mut result: Vec<RelationOrbitLabel> = Vec::new();
        let mut j: usize = 0;
        while j < arrows.len()
            invariant
                self.wf(),
                arrows@ == self.bits(),
                labels@ == self.universe_of().transfer_universe_of().labels_of(),
                labels@.len() == arrows@.len(),
                j <= arrows@.len(),
                result@ == crate::g_lattice::selected_labels(labels@, arrows@, j as int),
            decreases arrows@.len() - j,
        {
            if arrows.bit(j) {
                result.push(labels[j]);
            }
            j += 1;
        }
        result
    }

    /// Forgets equivariance: the same relations as an ordinary cotransfer
    /// system.
    pub fn underlying_cotransfer_system(&self) -> (r: crate::cotransfer_lattice::CotransferSystem<A>)
        requires
            self.wf(),
        ensures
            r.wf(),
            r.universe_of() == self.universe_of().underlying_of(),
            r.relations() == self.relation_set(),
    {
        let ghost u = self.universe_of();
        let ghost l = u.lattice_of();
        let ghost c = self.relation_set();
        let generators = self.relations(false).to_vec();
        proof {
            lemma_g_cotransfer_system_valid(*self);
            assert forall|k: int| 0 <= k < generators@.len() implies c.contains(#[trigger] generators@[k]) by {
                assert(generators@.to_set().contains(generators@[k]));
            }
            assert forall|k: int| 0 <= k < generators@.len() implies #[trigger] crate::cotransfer_lattice::cogenerator_ok(
                l,
                generators@[k],
            ) by {
                assert(c.contains(generators@[k]));
            }
        }
        let result = self.universe.underlying_cotransfer_universe.generated_by(generators);
        let ghost outcome = result;
        match result {
            Ok(cs) => {
                proof {
                    assert(cs.relations().subset_of(c));
                    assert forall|e: Edge| c.contains(e) implies cs.relations().contains(e) by {
                        if e.from == e.to {
                            assert(cs.relations().contains(Edge { from: e.from, to: e.from }));
                        } else {
                            assert(generators@.to_set().contains(e));
                            let k = choose|k: int| 0 <= k < generators@.len() && generators@[k] == e;
                            assert(cs.relations().contains(generators@[k]));
                        }
                    }
                    assert(cs.relations() =~= c);
                }
                cs
            },
            Err(_) => {
                proof {
                    match outcome {
                        Err(crate::cotransfer_lattice::CotransferSystemError::EdgeOutOfBounds { edge, lattice_size }) => {
                            let k = choose|k: int| 0 <= k < generators@.len() && generators@[k] == edge && forall|j: int|
                                0 <= j < k ==> #[trigger] crate::cotransfer_lattice::cogenerator_ok(l, generators@[j]);
                            assert(crate::cotransfer_lattice::cogenerator_ok(l, generators@[k]));
                        },
                        Err(crate::cotransfer_lattice::CotransferSystemError::NotLatticeRelation { edge }) => {
                            let k = choose|k: int| 0 <= k < generators@.len() && generators@[k] == edge && forall|j: int|
                                0 <= j < k ==> #[trigger] crate::cotransfer_lattice::cogenerator_ok(l, generators@[j]);
                            assert(crate::cotransfer_lattice::cogenerator_ok(l, generators@[k]));
                        },
                        _ => {},
                    }
                }
                vstd::pervasive::unreached()
            },
        }
    }

    /// The underlying transfer system on the opposite lattice: the
    /// relations reversed, forgetting equivariance.
    pub fn underlying_opposite_transfer_system(&self) -> (r: crate::transfer_lattice::TransferSystem<ElementId>)
        requires
            self.wf(),
        ensures
            r.wf(),
            r.universe_of() == self.universe_of().underlying_of().opposite_universe_of(),
            self.relation_set() == reverse_set(r.relations()),
    {
        self.underlying_cotransfer_system().opposite_transfer_system()
    }

    /// Returns the corresponding G-transfer system on the opposite lattice:
    /// the same orbits, every arrow reversed.
    pub fn opposite_transfer_system(&self) -> (r: GTransferSystem<ElementId>)
        requires
            self.wf(),
        ensures
            r.wf(),
            r.universe_of() == self.universe_of().opposite_universe_of(),
            r.bits() == self.bits(),
            r.relation_set() == reverse_set(self.relation_set()),
    {
        proof {
            self.universe_of().lemma_system_bits(self.bits());
            assert(self.universe_of().opposite_universe_of().lattice_of().card() == self.universe_of().lattice_of().card());
        }
        GTransferSystem::from_raw_parts(
            RawGTransferSystem::new(self.raw.orbit_arrows.duplicate()),
            crate::shared::arc_clone(&self.universe.opposite_transfer_universe),
        )
    }
}

impl<A> GCotransferUniverse<A> {
    /// Constructs the lattice of G-cotransfer systems ordered by
    /// containment.
    pub fn containment_lattice(self: &Arc<Self>) -> (r: Result<GCotransferLattice<A>, GLatticeError>)
        requires
            self.wf(),
            closed_sets(self.opposite_universe_of().context_rows(), self.opposite_universe_of().attrs_of().len()).len()
                <= max_bits(),
        ensures
            r matches Ok(cl) && cl.wf() && cl.universe_of() == **self,
    {
        let opposite_systems = self.opposite_transfer_universe.all_g_transfer_systems();
        let ghost labels = raw_g_bits(opposite_systems@);
        let ghost m = self.opposite_universe_of().context_rows();
        let ghost cols = self.opposite_universe_of().attrs_of().len();
        let n = opposite_systems.len();
        proof {
            lemma_listed_closed_sets(m, cols, labels);
        }
        let mut systems: Vec<RawGCotransferSystem> = Vec::new();
        let mut k: usize = 0;
        while k < n
            invariant
                n == opposite_systems@.len(),
                labels == raw_g_bits(opposite_systems@),
                k <= n,
                systems@.len() == k,
                forall|a: int| 0 <= a < k ==> (#[trigger] systems@[a]).bits() == labels[a],
            decreases n - k,
        {
            systems.push(RawGCotransferSystem { orbit_arrows: opposite_systems[k].orbit_arrows().duplicate() });
            k += 1;
        }
        assert(raw_g_cotransfer_bits(systems@) =~= labels);
        let mut relation: Vec<Bits> = Vec::new();
        let mut i: usize = 0;
        while i < n
            invariant
                n == systems@.len(),
                n <= max_bits(),
                labels == raw_g_cotransfer_bits(systems@),
                i <= n,
                relation@.len() == i,
                forall|a: int| 0 <= a < i ==> (#[trigger] relation@[a])@.len() == n,
                forall|a: int, b: int| 0 <= a < i && 0 <= b < n ==> #[trigger] relation@[a]@[b] == subset_bits(labels[a], labels[b]),
            decreases n - i,
        {
            let mut row = Bits::repeat(false, n);
            let mut j: usize = 0;
            while j < n
                invariant
                    n == systems@.len(),
                    labels == raw_g_cotransfer_bits(systems@),
                    i < n,
                    j <= n,
                    row@.len() == n,
                    forall|b: int| 0 <= b < j ==> #[trigger] row@[b] == subset_bits(labels[i as int], labels[b]),
                decreases n - j,
            {
                let b = crate::bits::is_subset(systems[i].orbit_arrows(), systems[j].orbit_arrows());
                row.set(j, b);
                j += 1;
            }
            relation.push(row);
            i += 1;
        }
        let ghost ord = crate::bits::matrix_of(relation@);
        proof {
            assert(crate::order::is_square(ord, n as nat)) by {
                assert forall|a: int| 0 <= a < n implies (#[trigger] ord[a]).len() == n by {
                    assert(ord[a] == relation@[a]@);
                }
            }
            assert forall|a: int, b: int| 0 <= a < n && 0 <= b < n implies #[trigger] ord[a][b] == subset_bits(labels[a], labels[b]) by {
                assert(ord[a] == relation@[a]@);
            }
            lemma_closed_sets_lattice(m, cols, labels, ord);
        }
        let poset = crate::poset::Poset::from_validated(systems, relation);
        let ghost pm = poset.order();
        let lattice = match Lattice::new(poset) {
            Ok(l) => l,
            Err(e) => {
                proof {
                    if let LatticeError::NotALattice { left, right } = e {
                        assert(crate::order::has_meet(pm, n as nat, left as int, right as int));
                        assert(crate::order::has_join(pm, n as nat, left as int, right as int));
                    }
                }
                return Err(GLatticeError::Lattice(e));
            },
        };
        let r = GCotransferLattice { universe: crate::shared::arc_clone(self), lattice };
        proof {
            assert(r.system_bits() =~= labels);
        }
        Ok(r)
    }
}

/// The containment lattice of G-cotransfer systems.
pub struct GCotransferLattice<A> {
    universe: Arc<GCotransferUniverse<A>>,
    lattice: Lattice<RawGCotransferSystem>,
}

impl<A> GCotransferLattice<A> {
    /// The universe shared by all systems of the lattice.
    pub closed spec fn universe_of(&self) -> GCotransferUniverse<A> {
        *self.universe
    }

    /// The lattice whose labels are the raw systems.
    pub closed spec fn lattice_of(&self) -> Lattice<RawGCotransferSystem> {
        self.lattice
    }

    /// The bits of the system with each element id.
    pub open spec fn system_bits(&self) -> Seq<Seq<bool>> {
        raw_g_cotransfer_bits(self.lattice_of().labels())
    }

    /// A well-formed containment lattice: every G-cotransfer system once,
    /// as the closed selections of the opposite universe, ordered by
    /// inclusion.
    pub open spec fn wf(&self) -> bool {
        &&& self.universe_of().wf()
        &&& self.lattice_of().wf()
        &&& lists_closed_sets(
            self.universe_of().opposite_universe_of().context_rows(),
            self.universe_of().opposite_universe_of().attrs_of().len(),
            self.system_bits(),
        )
        &&& forall|i: int, j: int|
            0 <= i < self.lattice_of().card() && 0 <= j < self.lattice_of().card() ==> #[trigger] self.lattice_of().le(i, j)
                == subset_bits(self.system_bits()[i], self.system_bits()[j])
    }

    /// Returns the universe shared by all systems in this lattice.
    pub fn universe(&self) -> (r: &Arc<GCotransferUniverse<A>>)
        ensures
            **r == self.universe_of(),
    {
        &self.universe
    }

    /// Returns the raw lattice whose labels are bit-vector G-cotransfer
    /// systems.
    pub fn raw_lattice(&self) -> (r: &Lattice<RawGCotransferSystem>)
        ensures
            *r == self.lattice_of(),
    {
        &self.lattice
    }

    /// Returns the underlying poset of the lattice.
    pub fn as_poset(&self) -> (r: &crate::poset::Poset<RawGCotransferSystem>)
        ensures
            *r == self.lattice_of().poset_of(),
    {
        self.lattice.as_poset()
    }

    /// Returns the number of G-cotransfer systems.
    pub fn size(&self) -> (r: usize)
        requires
            self.wf(),
        ensures
            r == self.lattice_of().card(),
    {
        self.lattice.size()
    }

    /// The meets and joins of the lattice are intersections and closed
    /// unions.
    proof fn lemma_bounds(&self, i: int, j: int, k: int)
        requires
            self.wf(),
            0 <= i < self.lattice_of().card(),
            0 <= j < self.lattice_of().card(),
            0 <= k < self.lattice_of().card(),
        ensures
            crate::order::is_meet(self.lattice_of().order(), self.lattice_of().card(), i, j, k) <==> self.system_bits()[k]
                == meet_bits(self.system_bits()[i], self.system_bits()[j]),
            crate::order::is_join(self.lattice_of().order(), self.lattice_of().card(), i, j, k) <==> self.system_bits()[k]
                == closure_of(
                self.universe_of().opposite_universe_of().context_rows(),
                self.universe_of().opposite_universe_of().attrs_of().len(),
                join_bits(self.system_bits()[i], self.system_bits()[j]),
            ),
    {
        let u = self.universe_of().opposite_universe_of();
        let ord = self.lattice_of().order();
        let labels = self.system_bits();
        assert forall|a: int, b: int| 0 <= a < labels.len() && 0 <= b < labels.len() implies #[trigger] ord[a][b] == subset_bits(labels[a], labels[b]) by {
            assert(self.lattice_of().le(a, b) == subset_bits(labels[a], labels[b]));
        }
        lemma_closed_sets_lattice(u.context_rows(), u.attrs_of().len(), labels, ord);
    }

    /// Returns the meet of two G-cotransfer systems by element id: their
    /// intersection.
    pub fn meet_id(&self, left: ElementId, right: ElementId) -> (r: ElementId)
        requires
            self.wf(),
            left < self.lattice_of().card(),
            right < self.lattice_of().card(),
        ensures
            r < self.lattice_of().card(),
            self.system_bits()[r as int] == meet_bits(self.system_bits()[left as int], self.system_bits()[right as int]),
    {
        let r = self.lattice.meet_id(left, right);
        proof {
            self.lemma_bounds(left as int, right as int, r as int);
        }
        r
    }

    /// Returns the join of two G-cotransfer systems by element id: the
    /// closure of their union.
    pub fn join_id(&self, left: ElementId, right: ElementId) -> (r: ElementId)
        requires
            self.wf(),
            left < self.lattice_of().card(),
            right < self.lattice_of().card(),
        ensures
            r < self.lattice_of().card(),
            self.system_bits()[r as int] == closure_of(
                self.universe_of().opposite_universe_of().context_rows(),
                self.universe_of().opposite_universe_of().attrs_of().len(),
                join_bits(self.system_bits()[left as int], self.system_bits()[right as int]),
            ),
    {
        let r = self.lattice.join_id(left, right);
        proof {
            self.lemma_bounds(left as int, right as int, r as int);
        }
        r
    }

    /// Returns the bottom G-cotransfer system.
    pub fn bottom(&self) -> (r: ElementId)
        requires
            self.wf(),
        ensures
            r == self.lattice_of().bottom_of(),
    {
        self.lattice.bottom()
    }

    /// Returns the top G-cotransfer system.
    pub fn top(&self) -> (r: ElementId)
        requires
            self.wf(),
        ensures
            r == self.lattice_of().top_of(),
    {
        self.lattice.top()
    }

    /// Returns a G-cotransfer system by element id.
    pub fn system(&self, id: ElementId) -> (r: Option<GCotransferSystem<A>>)
        requires
            self.wf(),
        ensures
            match r {
                Some(cs) => id < self.lattice_of().card() && cs.wf() && cs.universe_of() == self.universe_of() && cs.bits()
                    == self.system_bits()[id as int],
                None => id >= self.lattice_of().card(),
            },
    {
        match self.lattice.element(id) {
            Some(raw) => {
                let bits = raw.orbit_arrows().duplicate();
                proof {
                    let u = self.universe_of();
                    assert(self.system_bits()[id as int] == raw.bits());
                    u.lemma_system_bits(bits@);
                    crate::g_lattice::lemma_listed_closed_sets(
                        u.opposite_universe_of().context_rows(),
                        u.opposite_universe_of().attrs_of().len(),
                        self.system_bits(),
                    );
                }
                Some(GCotransferSystem { raw: RawGCotransferSystem { orbit_arrows: bits }, universe: crate::shared::arc_clone(&self.universe) })
            },
            None => None,
        }
    }

    /// Lists all G-cotransfer systems in element-id order.
    pub fn systems(&self) -> (r: Vec<GCotransferSystem<A>>)
        requires
            self.wf(),
        ensures
            r@.len() == self.lattice_of().card(),
            forall|i: int|
                0 <= i < r@.len() ==> (#[trigger] r@[i]).wf() && r@[i].universe_of() == self.universe_of() && r@[i].bits()
                    == self.system_bits()[i],
    {
        let n = self.lattice.size();
        let mut result: Vec<GCotransferSystem<A>> = Vec::new();
        let mut i: usize = 0;
        while i < n
            invariant
                self.wf(),
                n == self.lattice_of().card(),
                i <= n,
                result@.len() == i,
                forall|k: int|
                    0 <= k < i ==> (#[trigger] result@[k]).wf() && result@[k].universe_of() == self.universe_of() && result@[k].bits()
                        == self.system_bits()[k],
            decreases n - i,
        {
            let system = self.system(i).unwrap();
            result.push(system);
            i += 1;
        }
        result
    }
}

/// The relations of a well-formed G-cotransfer system form a cotransfer
/// system made of whole orbits, and reversed they are the relations of the
/// corresponding G-transfer system on the opposite lattice.
pub proof fn lemma_g_cotransfer_system_valid<A>(cs: GCotransferSystem<A>)
    requires
        cs.wf(),
    ensures
        is_cotransfer_system(cs.universe_of().lattice_of(), cs.relation_set()),
        orbit_closed(cs.universe_of().orbits_of(), cs.relation_set()),
{
    let u = cs.universe_of();
    let orbs = u.orbits_of();
    let c = cs.relation_set();
    assert forall|i: int, k: int, t: int|
        0 <= i < orbs.len() && 0 <= k < orbs[i].len() && 0 <= t < orbs[i].len() && #[trigger] c.contains(orbs[i][k])
            implies #[trigger] c.contains(orbs[i][t]) by {
        assert(crate::orbit_theory::is_proper(u.lattice_of(), orbs[i][k]));
        let j = choose|j: int| 0 <= j < orbs.len() && cs.bits()[j] && #[trigger] orbs[j].contains(orbs[i][k]);
        let a = choose|a: int| 0 <= a < orbs[j].len() && orbs[j][a] == orbs[i][k];
        assert(orbs[j][a] == orbs[i][k]);
        assert(orbs[i].contains(orbs[i][t]));
    }
}

impl<A> GTransferSystem<A> {
    /// Forms this G-transfer system's G-invariant left lifting class, in a
    /// G-cotransfer universe built on this system's universe.
    pub fn left_lifting_cotransfer(&self) -> (r: Result<GCotransferSystem<A>, GCotransferSystemError>)
        requires
            self.wf(),
        ensures
            r matches Ok(cs) && {
                &&& cs.wf()
                &&& cs.universe_of().transfer_universe_of() == self.universe_of()
                &&& cs.relation_set() == left_lifting_class(
                    self.universe_of().lattice_of().order(),
                    self.universe_of().lattice_of().card(),
                    self.relation_set(),
                )
            },
    {
        let universe = Arc::new(GCotransferUniverse::new(crate::shared::arc_clone(self.universe())));
        Ok(universe.left_lifting_in_universe(self))
    }
}

impl<A> GLattice<A> {
    /// Builds the shared universe for G-cotransfer systems.
    pub fn cotransfer_universe(&self) -> (r: Arc<GCotransferUniverse<A>>)
        requires
            self.wf(),
        ensures
            r.wf(),
            r.lattice_of() == self.lattice_of(),
            r.orbits_of() == self.proper_orbits(),
    {
        Arc::new(GCotransferUniverse::new(self.transfer_universe()))
    }

    /// Constructs the containment lattice of G-cotransfer systems.  The
    /// number of systems must fit the bit vectors that index them.
    pub fn cotransfer_systems_containment(&self) -> (r: Result<GCotransferLattice<A>, GLatticeError>)
        requires
            self.wf(),
            forall|u: GCotransferUniverse<A>|
                u.wf() && u.lattice_of() == self.lattice_of() && u.orbits_of() == self.proper_orbits() ==> #[trigger] closed_sets(
                    u.opposite_universe_of().context_rows(),
                    u.opposite_universe_of().attrs_of().len(),
                ).len() <= max_bits(),
        ensures
            r matches Ok(cl) && cl.wf() && cl.universe_of().lattice_of() == self.lattice_of(),
    {
        let universe = self.cotransfer_universe();
        universe.containment_lattice()
    }
}

} // verus!
