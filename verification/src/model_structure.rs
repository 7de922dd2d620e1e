//! Model structures on finite lattices.
//!
//! A model structure is given by transfer systems `R <= R'` with one more
//! condition.  Its five classes of maps are
//!
//! - acyclic fibrations `R`;
//! - fibrations `R'`;
//! - cofibrations `llc(R)`;
//! - acyclic cofibrations `llc(R')`; and
//! - weak equivalences `R o llc(R')`.
//!
//! The weak equivalences must have the 2-out-of-3 property, which the
//! constructor checks, so every [`ModelStructure`] value is a model
//! structure and not merely a pair of weak factorization systems.

use crate::bits::max_bits;
use crate::cotransfer_lattice::{
    is_cotransfer_system, lemma_lifting_classes_are_inverse, lemma_left_lifting_reverses_containment,
    lemma_transfer_factorization, CotransferSystem, CotransferSystemError, CotransferUniverse,
};
use crate::edges::{Edge, EdgeSet, ElementId};
use crate::lattice::Lattice;
use crate::order::{composite, has_two_out_of_three, left_lifting_class, lifts, right_lifting_class};
use crate::poset::{compose, Poset};
use crate::shared::{arc_clone, arc_ptr_eq};
use crate::transfer_lattice::{lemma_transfer_system_valid, TransferSystem, TransferUniverse};
use crate::transfer_theory::{is_transfer_system, lemma_ts_identity, lemma_ts_order};
use std::sync::Arc;
use vstd::prelude::*;

verus! {

/// A composable triangle witnessing failure of the 2-out-of-3 property.
///
/// Exactly two of `first`, `second`, and `composite` belong to the class in
/// question; the remaining one is recorded as `missing`.
#[derive(Debug, Clone, Copy, PartialEq, Eq, Structural)]
pub struct TwoOutOfThreeFailure {
    /// The first arrow `lower -> middle`.
    pub first: Edge,
    /// The second arrow `middle -> upper`.
    pub second: Edge,
    /// The composite arrow `lower -> upper`.
    pub composite: Edge,
    /// The arrow of the triangle that is absent from the class.
    pub missing: Edge,
}

/// Two composable arrows exhibiting a factorization through an object.
#[derive(Debug, Clone, Copy, PartialEq, Eq, Structural)]
pub struct FactorizationWitness {
    /// The first factor, from the source to the intermediate object.
    pub first: Edge,
    /// The second factor, from the intermediate object to the target.
    pub second: Edge,
}

impl FactorizationWitness {
    /// Returns the intermediate object of the factorization.
    pub fn middle(self) -> (r: ElementId)
        ensures
            r == self.first.to,
    {
        self.first.to
    }
}

/// Errors that can occur while constructing a model structure.
#[derive(Debug, Clone, Copy, PartialEq, Eq, Structural)]
pub enum ModelStructureError {
    /// The two transfer systems do not belong to the same universe.
    DifferentUniverses,
    /// An acyclic fibration is not a fibration.
    AcyclicFibrationsNotContained {
        /// A relation among the acyclic fibrations but not the fibrations.
        relation: Edge,
    },
    /// The proposed weak equivalences fail the 2-out-of-3 property.
    WeakEquivalencesFailTwoOutOfThree {
        /// A composable triangle witnessing the failure.
        witness: TwoOutOfThreeFailure,
    },
    /// Construction of one of the cotransfer systems failed.
    Cotransfer(CotransferSystemError),
}

impl From<CotransferSystemError> for ModelStructureError {
    fn from(error: CotransferSystemError) -> (r: Self) {
        ModelStructureError::Cotransfer(error)
    }
}

impl vstd::std_specs::convert::FromSpecImpl<CotransferSystemError> for ModelStructureError {
    open spec fn obeys_from_spec() -> bool {
        true
    }

    open spec fn from_spec(error: CotransferSystemError) -> Self {
        ModelStructureError::Cotransfer(error)
    }
}

/// The arrow `x -> y`.
pub open spec fn arrow(x: int, y: int) -> Edge {
    Edge { from: x as usize, to: y as usize }
}

/// `x <= y <= z` in `m`, and exactly two of `x -> y`, `y -> z` and `x -> z`
/// belong to `class`.
pub open spec fn triangle_fails(m: Seq<Seq<bool>>, n: nat, class: Set<Edge>, x: int, y: int, z: int) -> bool {
    let a = class.contains(arrow(x, y));
    let b = class.contains(arrow(y, z));
    let c = class.contains(arrow(x, z));
    &&& 0 <= x < n
    &&& 0 <= y < n
    &&& 0 <= z < n
    &&& m[x][y]
    &&& m[y][z]
    &&& ((a && b && !c) || (a && !b && c) || (!a && b && c))
}

/// `(x2, y2, z2)` comes before `(x, y, z)` when ordered by middle, then
/// lower, then upper element.
pub open spec fn triangle_before(x2: int, y2: int, z2: int, x: int, y: int, z: int) -> bool {
    y2 < y || (y2 == y && (x2 < x || (x2 == x && z2 < z)))
}

/// The failure record of the triangle `x <= y <= z`.
pub open spec fn failure_of(class: Set<Edge>, x: int, y: int, z: int) -> TwoOutOfThreeFailure {
    TwoOutOfThreeFailure {
        first: arrow(x, y),
        second: arrow(y, z),
        composite: arrow(x, z),
        missing: if !class.contains(arrow(x, y)) {
            arrow(x, y)
        } else if !class.contains(arrow(y, z)) {
            arrow(y, z)
        } else {
            arrow(x, z)
        },
    }
}

/// `w` records the first failing triangle of `class`, in the order of
/// [`triangle_before`].
pub open spec fn is_first_failure(m: Seq<Seq<bool>>, n: nat, class: Set<Edge>, w: TwoOutOfThreeFailure) -> bool {
    exists|x: int, y: int, z: int|
        #[trigger] triangle_fails(m, n, class, x, y, z) && w == failure_of(class, x, y, z) && forall|x2: int, y2: int, z2: int|
            triangle_before(x2, y2, z2, x, y, z) ==> !#[trigger] triangle_fails(m, n, class, x2, y2, z2)
}

/// The 2-out-of-3 property, stated through failing triangles.
proof fn lemma_two_out_of_three_iff(m: Seq<Seq<bool>>, n: nat, class: Set<Edge>)
    ensures
        has_two_out_of_three(m, n, class) <==> forall|x: int, y: int, z: int| !#[trigger] triangle_fails(m, n, class, x, y, z),
{
    if has_two_out_of_three(m, n, class) {
        assert forall|x: int, y: int, z: int| !#[trigger] triangle_fails(m, n, class, x, y, z) by {
            if triangle_fails(m, n, class, x, y, z) {
                assert(m[x][y] && m[y][z]);
            }
        }
    }
    if forall|x: int, y: int, z: int| !#[trigger] triangle_fails(m, n, class, x, y, z) {
        assert forall|x: int, y: int, z: int|
            0 <= x < n && 0 <= y < n && 0 <= z < n && #[trigger] m[x][y] && #[trigger] m[y][z] implies {
                let a = class.contains(Edge { from: x as usize, to: y as usize });
                let b = class.contains(Edge { from: y as usize, to: z as usize });
                let c = class.contains(Edge { from: x as usize, to: z as usize });
                !((a && b && !c) || (a && !b && c) || (!a && b && c))
            } by {
            assert(!triangle_fails(m, n, class, x, y, z));
        }
    }
}

/// The first composable triangle of `ambient` in which exactly two of the
/// three arrows belong to `class`, searched by middle, then lower, then
/// upper element.
fn two_out_of_three_failure<A>(ambient: &Poset<A>, class: &EdgeSet) -> (r: Option<TwoOutOfThreeFailure>)
    requires
        ambient.wf(),
    ensures
        match r {
            Some(w) => is_first_failure(ambient.order(), ambient.card(), class@, w),
            None => has_two_out_of_three(ambient.order(), ambient.card(), class@),
        },
{
    let n = ambient.size();
    let ghost m = ambient.order();
    let ghost s = class@;
    let mut middle: usize = 0;
    while middle < n
        invariant
            ambient.wf(),
            n == ambient.card(),
            m == ambient.order(),
            s == class@,
            middle <= n,
            forall|x2: int, y2: int, z2: int| y2 < middle ==> !#[trigger] triangle_fails(m, n as nat, s, x2, y2, z2),
        decreases n - middle,
    {
        let mut lower: usize = 0;
        while lower < n
            invariant
                ambient.wf(),
                n == ambient.card(),
                m == ambient.order(),
                s == class@,
                middle < n,
                lower <= n,
                forall|x2: int, y2: int, z2: int|
                    triangle_before(x2, y2, z2, lower as int, middle as int, 0) ==> !#[trigger] triangle_fails(m, n as nat, s, x2, y2, z2),
            decreases n - lower,
        {
            if ambient.leq(lower, middle) {
                let first = Edge::new(lower, middle);
                let mut upper: usize = 0;
                while upper < n
                    invariant
                        ambient.wf(),
                        n == ambient.card(),
                        m == ambient.order(),
                        s == class@,
                        middle < n,
                        lower < n,
                        m[lower as int][middle as int],
                        first == arrow(lower as int, middle as int),
                        upper <= n,
                        forall|x2: int, y2: int, z2: int|
                            triangle_before(x2, y2, z2, lower as int, middle as int, upper as int) ==> !#[trigger] triangle_fails(
                                m,
                                n as nat,
                                s,
                                x2,
                                y2,
                                z2,
                            ),
                    decreases n - upper,
                {
                    if ambient.leq(middle, upper) {
                        let second = Edge::new(middle, upper);
                        let composite = Edge::new(lower, upper);
                        let a = class.contains(&first);
                        let b = class.contains(&second);
                        let c = class.contains(&composite);
                        if (a && b && !c) || (a && !b && c) || (!a && b && c) {
                            let missing = if !a {
                                first
                            } else if !b {
                                second
                            } else {
                                composite
                            };
                            let w = TwoOutOfThreeFailure { first, second, composite, missing };
                            proof {
                                assert(triangle_fails(m, n as nat, s, lower as int, middle as int, upper as int));
                                assert(w == failure_of(s, lower as int, middle as int, upper as int));
                            }
                            return Some(w);
                        }
                        assert(!triangle_fails(m, n as nat, s, lower as int, middle as int, upper as int));
                    }
                    upper += 1;
                }
                assert forall|x2: int, y2: int, z2: int|
                    triangle_before(x2, y2, z2, (lower + 1) as int, middle as int, 0) implies !#[trigger] triangle_fails(m, n as nat, s, x2, y2, z2) by {
                    if y2 == middle && x2 == lower {
                        if 0 <= z2 < n {
                            assert(triangle_before(x2, y2, z2, lower as int, middle as int, n as int));
                        }
                    }
                }
            } else {
                assert forall|x2: int, y2: int, z2: int|
                    triangle_before(x2, y2, z2, (lower + 1) as int, middle as int, 0) implies !#[trigger] triangle_fails(m, n as nat, s, x2, y2, z2) by {
                    if y2 == middle && x2 == lower {
                    } else if 0 <= z2 {
                        assert(triangle_before(x2, y2, z2, lower as int, middle as int, 0));
                    }
                }
            }
            lower += 1;
        }
        assert forall|x2: int, y2: int, z2: int| y2 < middle + 1 implies !#[trigger] triangle_fails(m, n as nat, s, x2, y2, z2) by {
            if y2 == middle {
                if 0 <= x2 < n {
                    assert(triangle_before(x2, y2, z2, n as int, middle as int, 0));
                }
            }
        }
        middle += 1;
    }
    proof {
        lemma_two_out_of_three_iff(m, n as nat, s);
    }
    None
}

/// A model structure on a finite lattice.
///
/// The structure stores the transfer systems of acyclic fibrations and
/// fibrations, the cotransfer systems of cofibrations and acyclic
/// cofibrations, and the class of weak equivalences.  It is constructed
/// only after containment and 2-out-of-3 have been checked.
#[derive(Debug)]
pub struct ModelStructure<A> {
    acyclic_fibrations: TransferSystem<A>,
    fibrations: TransferSystem<A>,
    cofibrations: CotransferSystem<A>,
    acyclic_cofibrations: CotransferSystem<A>,
    weak_equivalences: EdgeSet,
}

impl<A> ModelStructure<A> {
    /// The acyclic fibrations.
    pub closed spec fn acyclic_fibrations_of(&self) -> TransferSystem<A> {
        self.acyclic_fibrations
    }

    /// The fibrations.
    pub closed spec fn fibrations_of(&self) -> TransferSystem<A> {
        self.fibrations
    }

    /// The cofibrations.
    pub closed spec fn cofibrations_of(&self) -> CotransferSystem<A> {
        self.cofibrations
    }

    /// The acyclic cofibrations.
    pub closed spec fn acyclic_cofibrations_of(&self) -> CotransferSystem<A> {
        self.acyclic_cofibrations
    }

    /// The weak equivalences.
    pub closed spec fn weak_of(&self) -> Set<Edge> {
        self.weak_equivalences@
    }

    /// The underlying lattice.
    pub open spec fn lattice_of(&self) -> Lattice<A> {
        self.fibrations_of().universe_of().lattice_of()
    }

    /// A model structure: `R <= R'` in one universe, cofibrations
    /// `llc(R)`, acyclic cofibrations `llc(R')`, and weak equivalences
    /// `R o llc(R')` with the 2-out-of-3 property.
    pub open spec fn wf(&self) -> bool {
        let r = self.acyclic_fibrations_of();
        let f = self.fibrations_of();
        let m = self.lattice_of().order();
        let n = self.lattice_of().card();
        &&& r.wf()
        &&& f.wf()
        &&& r.universe_of() == f.universe_of()
        &&& r.relations().subset_of(f.relations())
        &&& self.cofibrations_of().wf()
        &&& self.acyclic_cofibrations_of().wf()
        &&& self.cofibrations_of().universe_of() == self.acyclic_cofibrations_of().universe_of()
        &&& self.cofibrations_of().universe_of().transfer_universe_of() == f.universe_of()
        &&& self.cofibrations_of().relations() == left_lifting_class(m, n, r.relations())
        &&& self.acyclic_cofibrations_of().relations() == left_lifting_class(m, n, f.relations())
        &&& self.weak_of() == composite(r.relations(), left_lifting_class(m, n, f.relations()))
        &&& has_two_out_of_three(m, n, self.weak_of())
    }
}

/// `relation` is the first proper relation of the list `p` that lies in
/// `lower` but not in `upper`.
pub open spec fn is_first_uncontained(p: Seq<Edge>, lower: Set<Edge>, upper: Set<Edge>, relation: Edge) -> bool {
    exists|k: int|
        0 <= k < p.len() && #[trigger] p[k] == relation && lower.contains(relation) && !upper.contains(relation)
            && forall|j: int| 0 <= j < k ==> !(lower.contains(#[trigger] p[j]) && !upper.contains(p[j]))
}

impl<A> ModelStructure<A> {
    /// Constructs the model structure represented by `R <= R'`, where `R`
    /// is `acyclic_fibrations` and `R'` is `fibrations`.
    ///
    /// The two systems must share one transfer universe (the same shared
    /// value, not merely an equal one), `R` must be contained in `R'`, and
    /// `R o llc(R')` must satisfy 2-out-of-3.  A failed containment is
    /// reported by the first proper relation, in the universe's order, that
    /// is in `R` but not in `R'`; a failed 2-out-of-3 by the first failing
    /// triangle, by middle, lower and upper element.
    pub fn new(acyclic_fibrations: TransferSystem<A>, fibrations: TransferSystem<A>) -> (r: Result<Self, ModelStructureError>)
        requires
            acyclic_fibrations.wf(),
            fibrations.wf(),
            fibrations.universe_of().lattice_of().card() * fibrations.universe_of().lattice_of().card() <= max_bits(),
        ensures
            acyclic_fibrations.universe_of() != fibrations.universe_of() ==> r == Err::<Self, ModelStructureError>(
                ModelStructureError::DifferentUniverses,
            ),
            r != Err::<Self, ModelStructureError>(ModelStructureError::DifferentUniverses) ==> acyclic_fibrations.universe_of()
                == fibrations.universe_of() && (r is Ok <==> acyclic_fibrations.relations().subset_of(fibrations.relations())
                && has_two_out_of_three(
                fibrations.universe_of().lattice_of().order(),
                fibrations.universe_of().lattice_of().card(),
                composite(
                    acyclic_fibrations.relations(),
                    left_lifting_class(
                        fibrations.universe_of().lattice_of().order(),
                        fibrations.universe_of().lattice_of().card(),
                        fibrations.relations(),
                    ),
                ),
            )),
            match r {
                Ok(ms) => {
                    &&& ms.wf()
                    &&& ms.acyclic_fibrations_of() == acyclic_fibrations
                    &&& ms.fibrations_of() == fibrations
                },
                Err(ModelStructureError::AcyclicFibrationsNotContained { relation }) => {
                    &&& acyclic_fibrations.universe_of() == fibrations.universe_of()
                    &&& is_first_uncontained(
                        fibrations.universe_of().edges_of(),
                        acyclic_fibrations.relations(),
                        fibrations.relations(),
                        relation,
                    )
                },
                Err(ModelStructureError::WeakEquivalencesFailTwoOutOfThree { witness }) => {
                    &&& acyclic_fibrations.universe_of() == fibrations.universe_of()
                    &&& acyclic_fibrations.relations().subset_of(fibrations.relations())
                    &&& is_first_failure(
                        fibrations.universe_of().lattice_of().order(),
                        fibrations.universe_of().lattice_of().card(),
                        composite(
                            acyclic_fibrations.relations(),
                            left_lifting_class(
                                fibrations.universe_of().lattice_of().order(),
                                fibrations.universe_of().lattice_of().card(),
                                fibrations.relations(),
                            ),
                        ),
                        witness,
                    )
                },
                Err(ModelStructureError::Cotransfer(_)) => false,
                Err(ModelStructureError::DifferentUniverses) => true,
            },
    {
        if !arc_ptr_eq(acyclic_fibrations.universe(), fibrations.universe()) {
            return Err(ModelStructureError::DifferentUniverses);
        }
        Self::new_in_universe(acyclic_fibrations, fibrations)
    }

    /// Constructs the model structure represented by `R <= R'` for two
    /// transfer systems of one universe: it exists exactly when `R` is
    /// contained in `R'` and `R o llc(R')` has the 2-out-of-3 property; a
    /// failed containment is reported by the first proper relation, in the
    /// universe's order, that is in `R` but not in `R'`; a failed 2-out-of-3
    /// by the first failing triangle, by middle, lower and upper element.
    pub fn new_in_universe(acyclic_fibrations: TransferSystem<A>, fibrations: TransferSystem<A>) -> (r: Result<Self, ModelStructureError>)
        requires
            acyclic_fibrations.wf(),
            fibrations.wf(),
            acyclic_fibrations.universe_of() == fibrations.universe_of(),
            fibrations.universe_of().lattice_of().card() * fibrations.universe_of().lattice_of().card() <= max_bits(),
        ensures
            r is Ok <==> acyclic_fibrations.relations().subset_of(fibrations.relations()) && has_two_out_of_three(
                fibrations.universe_of().lattice_of().order(),
                fibrations.universe_of().lattice_of().card(),
                composite(
                    acyclic_fibrations.relations(),
                    left_lifting_class(
                        fibrations.universe_of().lattice_of().order(),
                        fibrations.universe_of().lattice_of().card(),
                        fibrations.relations(),
                    ),
                ),
            ),
            match r {
                Ok(ms) => {
                    &&& ms.wf()
                    &&& ms.acyclic_fibrations_of() == acyclic_fibrations
                    &&& ms.fibrations_of() == fibrations
                },
                Err(ModelStructureError::AcyclicFibrationsNotContained { relation }) => {
                    &&& acyclic_fibrations.universe_of() == fibrations.universe_of()
                    &&& is_first_uncontained(
                        fibrations.universe_of().edges_of(),
                        acyclic_fibrations.relations(),
                        fibrations.relations(),
                        relation,
                    )
                },
                Err(ModelStructureError::WeakEquivalencesFailTwoOutOfThree { witness }) => {
                    &&& acyclic_fibrations.universe_of() == fibrations.universe_of()
                    &&& acyclic_fibrations.relations().subset_of(fibrations.relations())
                    &&& is_first_failure(
                        fibrations.universe_of().lattice_of().order(),
                        fibrations.universe_of().lattice_of().card(),
                        composite(
                            acyclic_fibrations.relations(),
                            left_lifting_class(
                                fibrations.universe_of().lattice_of().order(),
                                fibrations.universe_of().lattice_of().card(),
                                fibrations.relations(),
                            ),
                        ),
                        witness,
                    )
                },
                Err(_) => false,
            },
    {
        let ghost u = fibrations.universe_of();
        let ghost l = u.lattice_of();
        let ghost p = u.edges_of();
        let ghost rr = acyclic_fibrations.relations();
        let ghost ff = fibrations.relations();
        let edges = acyclic_fibrations.universe().proper_edges();
        let mut k: usize = 0;
        while k < edges.len()
            invariant
                acyclic_fibrations.wf(),
                fibrations.wf(),
                acyclic_fibrations.universe_of() == u,
                fibrations.universe_of() == u,
                rr == acyclic_fibrations.relations(),
                ff == fibrations.relations(),
                p == u.edges_of(),
                edges@ == p,
                k <= p.len(),
                forall|j: int| 0 <= j < k ==> !(rr.contains(#[trigger] p[j]) && !ff.contains(p[j])),
            decreases p.len() - k,
        {
            let relation = edges[k];
            if acyclic_fibrations.contains_relation(relation) && !fibrations.contains_relation(relation) {
                proof {
                    assert(p[k as int] == relation);
                }
                return Err(ModelStructureError::AcyclicFibrationsNotContained { relation });
            }
            k += 1;
        }
        proof {
            lemma_transfer_system_valid(acyclic_fibrations);
            lemma_transfer_system_valid(fibrations);
            assert forall|e: Edge| rr.contains(e) implies ff.contains(e) by {
                if e.from == e.to {
                    lemma_ts_order(l, rr, e);
                    lemma_ts_identity(l, ff, e.from);
                } else {
                    lemma_ts_order(l, rr, e);
                    assert(p.contains(e));
                    let j = choose|j: int| 0 <= j < p.len() && p[j] == e;
                    assert(!(rr.contains(p[j]) && !ff.contains(p[j])));
                }
            }
        }
        let ambient = acyclic_fibrations.lattice().as_poset();
        let acyclic_fibration_edges = acyclic_fibrations.edges(true);
        let fibration_edges = fibrations.edges(true);
        proof {
            assert(acyclic_fibration_edges@ =~= rr);
            assert(fibration_edges@ =~= ff);
            assert forall|e: Edge| #[trigger] fibration_edges@.contains(e) && e.from != e.to implies e.from < l.card() && e.to < l.card() by {
                lemma_ts_order(l, ff, e);
            }
        }
        let acyclic_cofibration_edges = ambient.llc(&fibration_edges);
        let weak_equivalences = compose(&acyclic_fibration_edges, &acyclic_cofibration_edges);
        if let Some(witness) = two_out_of_three_failure(ambient, &weak_equivalences) {
            return Err(ModelStructureError::WeakEquivalencesFailTwoOutOfThree { witness });
        }
        let cotransfer_universe = Arc::new(CotransferUniverse::from_transfer_universe(arc_clone(acyclic_fibrations.universe())));
        let cofibrations = cotransfer_universe.left_lifting_in_universe(&acyclic_fibrations);
        let acyclic_cofibrations = cotransfer_universe.left_lifting_in_universe(&fibrations);
        Ok(ModelStructure { acyclic_fibrations, fibrations, cofibrations, acyclic_cofibrations, weak_equivalences })
    }
}

/// `s` lists, in increasing order, the elements below `n` for which
/// `holds` is true.
pub open spec fn lists_where(s: Seq<usize>, n: nat, holds: spec_fn(int) -> bool) -> bool {
    &&& forall|i: int, j: int| 0 <= i < j < s.len() ==> #[trigger] s[i] < #[trigger] s[j]
    &&& forall|i: int| 0 <= i < s.len() ==> #[trigger] s[i] < n && holds(s[i] as int)
    &&& forall|x: int| 0 <= x < n && #[trigger] holds(x) ==> s.contains(x as usize)
}

/// `x -> z -> y` factors the relation `x <= y` through `z`, with the first
/// arrow in `left` and the second in `right`.
pub open spec fn factors_through<A>(l: Lattice<A>, left: Set<Edge>, right: Set<Edge>, x: int, y: int, z: int) -> bool {
    &&& 0 <= z < l.card()
    &&& l.le(x, z)
    &&& l.le(z, y)
    &&& left.contains(arrow(x, z))
    &&& right.contains(arrow(z, y))
}

/// `x <= y` is a relation between elements of `l`.
pub open spec fn is_lattice_relation<A>(l: Lattice<A>, e: Edge) -> bool {
    e.from < l.card() && e.to < l.card() && l.le(e.from as int, e.to as int)
}

/// `w` factors `relation` through the least element that allows a
/// factorization with the first arrow in `left` and the second in `right`.
pub open spec fn is_first_factorization<A>(l: Lattice<A>, left: Set<Edge>, right: Set<Edge>, relation: Edge, w: FactorizationWitness) -> bool {
    let x = relation.from as int;
    let y = relation.to as int;
    exists|z: int|
        #[trigger] factors_through(l, left, right, x, y, z) && w == (FactorizationWitness { first: arrow(x, z), second: arrow(z, y) })
            && forall|z2: int| 0 <= z2 < z ==> !#[trigger] factors_through(l, left, right, x, y, z2)
}

/// Factors `relation` through the first element `z` with `from -> z` in
/// `left` and `z -> to` in `right`; nothing for a non-relation.
fn factorization_witness<A>(
    lattice: &Lattice<A>,
    relation: Edge,
    left: &CotransferSystem<A>,
    right: &TransferSystem<A>,
) -> (r: Option<FactorizationWitness>)
    requires
        lattice.wf(),
        left.wf(),
        right.wf(),
    ensures
        match r {
            Some(w) => is_lattice_relation(*lattice, relation) && is_first_factorization(*lattice, left.relations(), right.relations(), relation, w),
            None => !is_lattice_relation(*lattice, relation) || forall|z: int| !#[trigger] factors_through(
                *lattice,
                left.relations(),
                right.relations(),
                relation.from as int,
                relation.to as int,
                z,
            ),
        },
{
    let n = lattice.size();
    if relation.from >= n || relation.to >= n || !lattice.leq(relation.from, relation.to) {
        return None;
    }
    let ghost x = relation.from as int;
    let ghost y = relation.to as int;
    let mut middle: usize = 0;
    while middle < n
        invariant
            lattice.wf(),
            left.wf(),
            right.wf(),
            n == lattice.card(),
            x == relation.from,
            y == relation.to,
            is_lattice_relation(*lattice, relation),
            middle <= n,
            forall|z2: int| 0 <= z2 < middle ==> !#[trigger] factors_through(*lattice, left.relations(), right.relations(), x, y, z2),
        decreases n - middle,
    {
        if lattice.leq(relation.from, middle) && lattice.leq(middle, relation.to) {
            let first = Edge::new(relation.from, middle);
            let second = Edge::new(middle, relation.to);
            if left.contains_relation(first) && right.contains_relation(second) {
                let w = FactorizationWitness { first, second };
                proof {
                    assert(factors_through(*lattice, left.relations(), right.relations(), x, y, middle as int));
                }
                return Some(w);
            }
        }
        middle += 1;
    }
    None
}

/// Appending keeps every element and adds the new one.
proof fn lemma_push_keeps(s: Seq<usize>, v: usize)
    ensures
        forall|x: usize| s.contains(x) ==> #[trigger] s.push(v).contains(x),
        s.push(v).contains(v),
        s.push(v)[s.len() as int] == v,
{
    assert forall|x: usize| s.contains(x) implies #[trigger] s.push(v).contains(x) by {
        let i = choose|i: int| 0 <= i < s.len() && s[i] == x;
        assert(s.push(v)[i] == x);
    }
    assert(s.push(v)[s.len() as int] == v);
}

impl<A> ModelStructure<A> {
    /// Returns the underlying lattice.
    pub fn lattice(&self) -> (r: &Arc<Lattice<A>>)
        ensures
            **r == self.lattice_of(),
    {
        self.fibrations.lattice()
    }

    /// Returns the shared universe of the two transfer systems.
    pub fn transfer_universe(&self) -> (r: &Arc<TransferUniverse<A>>)
        ensures
            **r == self.fibrations_of().universe_of(),
    {
        self.fibrations.universe()
    }

    /// Returns the shared universe of the two cotransfer systems.
    pub fn cotransfer_universe(&self) -> (r: &Arc<CotransferUniverse<A>>)
        ensures
            **r == self.cofibrations_of().universe_of(),
    {
        self.cofibrations.universe()
    }

    /// Returns the transfer system of fibrations.
    pub fn fibrations(&self) -> (r: &TransferSystem<A>)
        ensures
            *r == self.fibrations_of(),
    {
        &self.fibrations
    }

    /// Returns the transfer system of acyclic fibrations.
    pub fn acyclic_fibrations(&self) -> (r: &TransferSystem<A>)
        ensures
            *r == self.acyclic_fibrations_of(),
    {
        &self.acyclic_fibrations
    }

    /// Returns the cotransfer system of cofibrations.
    pub fn cofibrations(&self) -> (r: &CotransferSystem<A>)
        ensures
            *r == self.cofibrations_of(),
    {
        &self.cofibrations
    }

    /// Returns the cotransfer system of acyclic cofibrations.
    pub fn acyclic_cofibrations(&self) -> (r: &CotransferSystem<A>)
        ensures
            *r == self.acyclic_cofibrations_of(),
    {
        &self.acyclic_cofibrations
    }

    /// Returns the class of weak equivalences.
    pub fn weak_equivalences(&self) -> (r: &EdgeSet)
        ensures
            r@ == self.weak_of(),
    {
        &self.weak_equivalences
    }

    /// Returns whether `relation` is a fibration.
    pub fn contains_fibration(&self, relation: Edge) -> (r: bool)
        requires
            self.wf(),
        ensures
            r == self.fibrations_of().relations().contains(relation),
    {
        self.fibrations.contains_relation(relation)
    }

    /// Returns whether `relation` is an acyclic fibration.
    pub fn contains_acyclic_fibration(&self, relation: Edge) -> (r: bool)
        requires
            self.wf(),
        ensures
            r == self.acyclic_fibrations_of().relations().contains(relation),
    {
        self.acyclic_fibrations.contains_relation(relation)
    }

    /// Returns whether `relation` is a cofibration.
    pub fn contains_cofibration(&self, relation: Edge) -> (r: bool)
        requires
            self.wf(),
        ensures
            r == self.cofibrations_of().relations().contains(relation),
    {
        self.cofibrations.contains_relation(relation)
    }

    /// Returns whether `relation` is an acyclic cofibration.
    pub fn contains_acyclic_cofibration(&self, relation: Edge) -> (r: bool)
        requires
            self.wf(),
        ensures
            r == self.acyclic_cofibrations_of().relations().contains(relation),
    {
        self.acyclic_cofibrations.contains_relation(relation)
    }

    /// Returns whether `relation` is a weak equivalence.
    pub fn contains_weak_equivalence(&self, relation: Edge) -> (r: bool)
        ensures
            r == self.weak_of().contains(relation),
    {
        self.weak_equivalences.contains(&relation)
    }

    /// An object `x` is fibrant when `x -> top` is a fibration.
    pub open spec fn fibrant(&self, x: int) -> bool {
        0 <= x < self.lattice_of().card() && self.fibrations_of().relations().contains(arrow(x, self.lattice_of().top_of()))
    }

    /// An object `x` is cofibrant when `bottom -> x` is a cofibration.
    pub open spec fn cofibrant(&self, x: int) -> bool {
        0 <= x < self.lattice_of().card() && self.cofibrations_of().relations().contains(arrow(self.lattice_of().bottom_of(), x))
    }

    /// Returns whether an object is fibrant: `x -> top` is a fibration.
    /// Out-of-range object ids are not fibrant.
    pub fn is_fibrant(&self, object: ElementId) -> (r: bool)
        requires
            self.wf(),
        ensures
            r == self.fibrant(object as int),
            r == (object < self.lattice_of().card() && self.fibrations_of().relations().contains(
                Edge { from: object, to: self.lattice_of().top_of() as usize },
            )),
    {
        object < self.lattice().size() && self.contains_fibration(Edge::new(object, self.lattice().top()))
    }

    /// Returns whether an object is cofibrant: `bottom -> x` is a
    /// cofibration.  Out-of-range object ids are not cofibrant.
    pub fn is_cofibrant(&self, object: ElementId) -> (r: bool)
        requires
            self.wf(),
        ensures
            r == self.cofibrant(object as int),
            r == (object < self.lattice_of().card() && self.cofibrations_of().relations().contains(
                Edge { from: self.lattice_of().bottom_of() as usize, to: object },
            )),
    {
        object < self.lattice().size() && self.contains_cofibration(Edge::new(self.lattice().bottom(), object))
    }

    /// Returns whether an object is both fibrant and cofibrant.
    pub fn is_bifibrant(&self, object: ElementId) -> (r: bool)
        requires
            self.wf(),
        ensures
            r == (self.fibrant(object as int) && self.cofibrant(object as int)),
    {
        self.is_fibrant(object) && self.is_cofibrant(object)
    }

    /// Returns all fibrant objects in element-id order.
    pub fn fibrant_objects(&self) -> (r: Vec<ElementId>)
        requires
            self.wf(),
        ensures
            lists_where(r@, self.lattice_of().card(), |x: int| self.fibrant(x)),
    {
        let n = self.lattice().size();
        let mut objects: Vec<ElementId> = Vec::new();
        let mut object: usize = 0;
        while object < n
            invariant
                self.wf(),
                n == self.lattice_of().card(),
                object <= n,
                forall|i: int, j: int| 0 <= i < j < objects@.len() ==> #[trigger] objects@[i] < #[trigger] objects@[j],
                forall|i: int| 0 <= i < objects@.len() ==> #[trigger] objects@[i] < object && self.fibrant(objects@[i] as int),
                forall|x: int| 0 <= x < object && #[trigger] self.fibrant(x) ==> objects@.contains(x as usize),
            decreases n - object,
        {
            if self.is_fibrant(object) {
                let ghost before = objects@;
                objects.push(object);
                proof {
                    lemma_push_keeps(before, object);
                }
            }
            object += 1;
        }
        objects
    }

    /// Returns all cofibrant objects in element-id order.
    pub fn cofibrant_objects(&self) -> (r: Vec<ElementId>)
        requires
            self.wf(),
        ensures
            lists_where(r@, self.lattice_of().card(), |x: int| self.cofibrant(x)),
    {
        let n = self.lattice().size();
        let mut objects: Vec<ElementId> = Vec::new();
        let mut object: usize = 0;
        while object < n
            invariant
                self.wf(),
                n == self.lattice_of().card(),
                object <= n,
                forall|i: int, j: int| 0 <= i < j < objects@.len() ==> #[trigger] objects@[i] < #[trigger] objects@[j],
                forall|i: int| 0 <= i < objects@.len() ==> #[trigger] objects@[i] < object && self.cofibrant(objects@[i] as int),
                forall|x: int| 0 <= x < object && #[trigger] self.cofibrant(x) ==> objects@.contains(x as usize),
            decreases n - object,
        {
            if self.is_cofibrant(object) {
                let ghost before = objects@;
                objects.push(object);
                proof {
                    lemma_push_keeps(before, object);
                }
            }
            object += 1;
        }
        objects
    }

    /// Returns all bifibrant objects in element-id order.
    pub fn bifibrant_objects(&self) -> (r: Vec<ElementId>)
        requires
            self.wf(),
        ensures
            lists_where(r@, self.lattice_of().card(), |x: int| self.fibrant(x) && self.cofibrant(x)),
    {
        let n = self.lattice().size();
        let mut objects: Vec<ElementId> = Vec::new();
        let mut object: usize = 0;
        while object < n
            invariant
                self.wf(),
                n == self.lattice_of().card(),
                object <= n,
                forall|i: int, j: int| 0 <= i < j < objects@.len() ==> #[trigger] objects@[i] < #[trigger] objects@[j],
                forall|i: int| 0 <= i < objects@.len() ==> #[trigger] objects@[i] < object && self.fibrant(objects@[i] as int) && self.cofibrant(objects@[i] as int),
                forall|x: int| 0 <= x < object && #[trigger] self.fibrant(x) && self.cofibrant(x) ==> objects@.contains(x as usize),
            decreases n - object,
        {
            if self.is_bifibrant(object) {
                let ghost before = objects@;
                objects.push(object);
                proof {
                    lemma_push_keeps(before, object);
                }
            }
            object += 1;
        }
        objects
    }

    /// Factors a relation as a cofibration followed by an acyclic
    /// fibration, through the first element that allows it.  Every relation
    /// of the lattice has such a factorization; other edges have none.
    pub fn factor_as_cofibration_then_acyclic_fibration(&self, relation: Edge) -> (r: Option<FactorizationWitness>)
        requires
            self.wf(),
        ensures
            r is Some <==> is_lattice_relation(self.lattice_of(), relation),
            r matches Some(w) ==> is_first_factorization(
                self.lattice_of(),
                self.cofibrations_of().relations(),
                self.acyclic_fibrations_of().relations(),
                relation,
                w,
            ),
    {
        let r = factorization_witness(self.lattice(), relation, &self.cofibrations, &self.acyclic_fibrations);
        proof {
            let l = self.lattice_of();
            if is_lattice_relation(l, relation) {
                lemma_transfer_system_valid(self.acyclic_fibrations_of());
                let z = lemma_transfer_factorization(l, self.acyclic_fibrations_of().relations(), relation.from, relation.to);
                assert(factors_through(
                    l,
                    self.cofibrations_of().relations(),
                    self.acyclic_fibrations_of().relations(),
                    relation.from as int,
                    relation.to as int,
                    z as int,
                ));
            }
        }
        r
    }

    /// Factors a relation as an acyclic cofibration followed by a
    /// fibration, through the first element that allows it.  Every relation
    /// of the lattice has such a factorization; other edges have none.
    pub fn factor_as_acyclic_cofibration_then_fibration(&self, relation: Edge) -> (r: Option<FactorizationWitness>)
        requires
            self.wf(),
        ensures
            r is Some <==> is_lattice_relation(self.lattice_of(), relation),
            r matches Some(w) ==> is_first_factorization(
                self.lattice_of(),
                self.acyclic_cofibrations_of().relations(),
                self.fibrations_of().relations(),
                relation,
                w,
            ),
    {
        let r = factorization_witness(self.lattice(), relation, &self.acyclic_cofibrations, &self.fibrations);
        proof {
            let l = self.lattice_of();
            if is_lattice_relation(l, relation) {
                lemma_transfer_system_valid(self.fibrations_of());
                let z = lemma_transfer_factorization(l, self.fibrations_of().relations(), relation.from, relation.to);
                assert(factors_through(
                    l,
                    self.acyclic_cofibrations_of().relations(),
                    self.fibrations_of().relations(),
                    relation.from as int,
                    relation.to as int,
                    z as int,
                ));
            }
        }
        r
    }
}

/// The classes of a model structure determine one another as a model
/// category's do: cofibrations and acyclic cofibrations are cotransfer
/// systems whose right lifting classes are the acyclic fibrations and the
/// fibrations; the fibrations that are weak equivalences are the acyclic
/// fibrations; and the cofibrations that are weak equivalences are the
/// acyclic cofibrations.
pub proof fn lemma_model_structure_laws<A>(ms: ModelStructure<A>)
    requires
        ms.wf(),
    ensures
        is_cotransfer_system(ms.lattice_of(), ms.cofibrations_of().relations()),
        is_cotransfer_system(ms.lattice_of(), ms.acyclic_cofibrations_of().relations()),
        right_lifting_class(ms.lattice_of().order(), ms.lattice_of().card(), ms.cofibrations_of().relations())
            == ms.acyclic_fibrations_of().relations(),
        right_lifting_class(ms.lattice_of().order(), ms.lattice_of().card(), ms.acyclic_cofibrations_of().relations())
            == ms.fibrations_of().relations(),
        ms.fibrations_of().relations().intersect(ms.weak_of()) == ms.acyclic_fibrations_of().relations(),
        ms.cofibrations_of().relations().intersect(ms.weak_of()) == ms.acyclic_cofibrations_of().relations(),
{
    let l = ms.lattice_of();
    let m = l.order();
    let n = l.card();
    let r = ms.acyclic_fibrations_of().relations();
    let f = ms.fibrations_of().relations();
    let cof = ms.cofibrations_of().relations();
    let acof = ms.acyclic_cofibrations_of().relations();
    let weak = ms.weak_of();
    lemma_transfer_system_valid(ms.acyclic_fibrations_of());
    lemma_transfer_system_valid(ms.fibrations_of());
    crate::cotransfer_lattice::lemma_cotransfer_system_valid(ms.cofibrations_of());
    crate::cotransfer_lattice::lemma_cotransfer_system_valid(ms.acyclic_cofibrations_of());
    lemma_lifting_classes_are_inverse(l, r, cof);
    lemma_lifting_classes_are_inverse(l, f, acof);
    lemma_left_lifting_reverses_containment(m, n, r, f);
    assert forall|e: Edge| f.contains(e) && weak.contains(e) implies r.contains(e) by {
        let (a, g) = choose|a: Edge, g: Edge|
            #[trigger] r.contains(a) && #[trigger] acof.contains(g) && g.to == a.from && e == (Edge { from: g.from, to: a.to });
        lemma_ts_order(l, r, a);
        lemma_ts_order(l, f, e);
        if g.from != g.to {
            if e.from != e.to {
                assert(lifts(m, g, e));
                assert(m[g.from as int][g.from as int]);
                assert(m[g.to as int][e.to as int]);
            } else {
                assert(m[g.from as int][g.to as int]);
                assert(m[g.to as int][a.to as int]);
            }
        }
    }
    assert forall|e: Edge| r.contains(e) implies f.contains(e) && weak.contains(e) by {
        lemma_ts_order(l, r, e);
        let g = Edge { from: e.from, to: e.from };
        assert(m[e.from as int][e.from as int]);
        assert(acof.contains(g));
        assert(composite(r, acof).contains(e));
    }
    assert(f.intersect(weak) =~= r);
    assert forall|e: Edge| cof.contains(e) && weak.contains(e) implies acof.contains(e) by {
        let (a, g) = choose|a: Edge, g: Edge|
            #[trigger] r.contains(a) && #[trigger] acof.contains(g) && g.to == a.from && e == (Edge { from: g.from, to: a.to });
        lemma_ts_order(l, r, a);
        if a.from != a.to {
            assert(lifts(m, e, a));
            assert(m[g.from as int][g.to as int]);
            assert(m[a.to as int][a.to as int]);
        }
    }
    assert forall|e: Edge| acof.contains(e) implies cof.contains(e) && weak.contains(e) by {
        let a = Edge { from: e.to, to: e.to };
        lemma_ts_identity(l, r, e.to);
        assert(composite(r, acof).contains(e));
    }
    assert(cof.intersect(weak) =~= acof);
}

/// An object is fibrant exactly when its arrow to the top is a fibration:
/// being weakly equivalent to the top, or anything else, is not enough.
pub proof fn lemma_fibrant_iff_fibration_to_top<A>(ms: ModelStructure<A>, x: int)
    requires
        0 <= x < ms.lattice_of().card(),
    ensures
        ms.fibrant(x) <==> ms.fibrations_of().relations().contains(Edge { from: x as usize, to: ms.lattice_of().top_of() as usize }),
{
}

/// An object is cofibrant exactly when the arrow from the bottom to it is a
/// cofibration.
pub proof fn lemma_cofibrant_iff_cofibration_from_bottom<A>(ms: ModelStructure<A>, x: int)
    requires
        0 <= x < ms.lattice_of().card(),
    ensures
        ms.cofibrant(x) <==> ms.cofibrations_of().relations().contains(Edge { from: ms.lattice_of().bottom_of() as usize, to: x as usize }),
{
}

} // verus!
