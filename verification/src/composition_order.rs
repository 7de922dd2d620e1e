//! The composition-closed order on the transfer systems of a lattice.
//!
//! A transfer system `L` lies below `R` in this order when `L` is contained
//! in `R` and every square formed by an arrow `first` of `L` and an arrow
//! `second` of `R`, with `first.from <= second.from` and
//! `first.to <= second.to`, factors: there are `w` with `w -> second.to` in
//! `R` and `first.to <= w`, and `z` with `z -> w` in `L` and
//! `first.from <= z <= second.from`.  Unlike containment, this order need not
//! be a lattice.

use crate::bits::{is_subset, matrix_of, max_bits, subset_bits, Bits};
use crate::edges::{Edge, EdgeSet, ElementId};
use crate::lattice::Lattice;
use crate::poset::{Poset, PosetError};
use crate::order::relation_error;
use crate::shared::arc_clone;
use crate::transfer_lattice::{
    raw_bits, transfer_systems_on, RawTransferSystem, TransferError, TransferSystem, TransferUniverse,
};
use crate::transfer_theory::{is_closed, lists_closed_sets, system_of};
use std::sync::Arc;
use vstd::prelude::*;

verus! {

/// The square formed by `first` in `left` and `second` in `right` factors
/// through an intermediate pair of arrows.
pub open spec fn has_factorization<A>(l: Lattice<A>, left: Set<Edge>, right: Set<Edge>, first: Edge, second: Edge) -> bool {
    exists|w: usize, z: usize|
        #![trigger right.contains(Edge { from: w, to: second.to }), left.contains(Edge { from: z, to: w })]
        right.contains(Edge { from: w, to: second.to }) && l.le(first.to as int, w as int) && left.contains(
            Edge { from: z, to: w },
        ) && l.le(first.from as int, z as int) && l.le(z as int, second.from as int)
}

/// The square of `first` and `second` is one the condition constrains, and
/// it does not factor.
pub open spec fn square_fails<A>(l: Lattice<A>, left: Set<Edge>, right: Set<Edge>, first: Edge, second: Edge) -> bool {
    &&& l.le(first.from as int, second.from as int)
    &&& l.le(first.to as int, second.to as int)
    &&& !has_factorization(l, left, right, first, second)
}

/// Every constrained square of an arrow of `left` and an arrow of `right`
/// factors.
pub open spec fn factorization_condition<A>(l: Lattice<A>, left: Set<Edge>, right: Set<Edge>) -> bool {
    forall|first: Edge, second: Edge|
        #[trigger] left.contains(first) && #[trigger] right.contains(second) ==> !square_fails(l, left, right, first, second)
}

/// The relations selected by `bits[..k]`, in bit order.
pub open spec fn selected_edges(p: Seq<Edge>, bits: Seq<bool>, k: int) -> Seq<Edge>
    decreases k,
{
    if k <= 0 {
        Seq::empty()
    } else if bits[k - 1] {
        selected_edges(p, bits, k - 1).push(p[k - 1])
    } else {
        selected_edges(p, bits, k - 1)
    }
}

/// The relations of a system in the order the factorization check visits
/// them: the identities by element, then the selected relations in bit
/// order.
pub open spec fn relation_pairs(p: Seq<Edge>, bits: Seq<bool>, n: nat) -> Seq<Edge> {
    Seq::new(n, |i: int| Edge { from: i as usize, to: i as usize }) + selected_edges(p, bits, p.len() as int)
}

proof fn lemma_selected_edges(p: Seq<Edge>, bits: Seq<bool>, k: int)
    requires
        0 <= k <= p.len(),
        bits.len() == p.len(),
    ensures
        forall|e: Edge| selected_edges(p, bits, k).contains(e) <==> exists|j: int| 0 <= j < k && #[trigger] p[j] == e && bits[j],
    decreases k,
{
    if k > 0 {
        lemma_selected_edges(p, bits, k - 1);
        let prev = selected_edges(p, bits, k - 1);
        assert forall|e: Edge| selected_edges(p, bits, k).contains(e) <==> exists|j: int| 0 <= j < k && #[trigger] p[j] == e && bits[j] by {
            if bits[k - 1] {
                if selected_edges(p, bits, k).contains(e) {
                    let i = choose|i: int| 0 <= i < prev.push(p[k - 1]).len() && #[trigger] prev.push(p[k - 1])[i] == e;
                    if i < prev.len() {
                        assert(prev.contains(e));
                    } else {
                        assert(p[k - 1] == e);
                    }
                }
                if exists|j: int| 0 <= j < k && #[trigger] p[j] == e && bits[j] {
                    let j = choose|j: int| 0 <= j < k && #[trigger] p[j] == e && bits[j];
                    if j < k - 1 {
                        assert(prev.contains(e));
                        let i = choose|i: int| 0 <= i < prev.len() && prev[i] == e;
                        assert(prev.push(p[k - 1])[i] == e);
                    } else {
                        assert(prev.push(p[k - 1])[prev.len() as int] == e);
                    }
                }
            } else {
                if exists|j: int| 0 <= j < k && #[trigger] p[j] == e && bits[j] {
                    let j = choose|j: int| 0 <= j < k && #[trigger] p[j] == e && bits[j];
                    assert(j < k - 1);
                }
            }
        }
    }
}

/// The listed relations are exactly the relations of the system.
pub proof fn lemma_relation_pairs(p: Seq<Edge>, bits: Seq<bool>, n: nat)
    requires
        bits.len() == p.len(),
    ensures
        forall|e: Edge| relation_pairs(p, bits, n).contains(e) <==> #[trigger] system_of(p, bits, n).contains(e),
{
    lemma_selected_edges(p, bits, p.len() as int);
    let ids = Seq::new(n, |i: int| Edge { from: i as usize, to: i as usize });
    let sel = selected_edges(p, bits, p.len() as int);
    assert forall|e: Edge| relation_pairs(p, bits, n).contains(e) <==> #[trigger] system_of(p, bits, n).contains(e) by {
        if relation_pairs(p, bits, n).contains(e) {
            let i = choose|i: int| 0 <= i < (ids + sel).len() && (ids + sel)[i] == e;
            if i < n {
                assert(ids[i] == e);
            } else {
                assert(sel[i - n] == e);
                assert(sel.contains(e));
            }
        }
        if system_of(p, bits, n).contains(e) {
            if e.from == e.to && e.from < n {
                assert((ids + sel)[e.from as int] == e);
            } else {
                let j = choose|j: int| 0 <= j < p.len() && #[trigger] p[j] == e && bits[j];
                assert(sel.contains(e));
                let i = choose|i: int| 0 <= i < sel.len() && sel[i] == e;
                assert((ids + sel)[n + i] == e);
            }
        }
    }
}

/// A system listed as pairs and as columns: `cols[w][z]` holds exactly when
/// `z -> w` is a relation.
pub open spec fn columns_of(cols: Seq<Seq<bool>>, rel: Set<Edge>, n: nat) -> bool {
    &&& cols.len() == n
    &&& forall|w: int| 0 <= w < n ==> (#[trigger] cols[w]).len() == n
    &&& forall|w: int, z: int| 0 <= w < n && 0 <= z < n ==> #[trigger] cols[w][z] == rel.contains(Edge { from: z as usize, to: w as usize })
}

/// The identities, then the selected relations, and the columns of the
/// system with bits `bits` on `universe`.
fn as_partial_order<A>(universe: &TransferUniverse<A>, bits: &Bits) -> (r: (Vec<Edge>, Vec<Bits>))
    requires
        universe.wf(),
        bits@.len() == universe.edges_of().len(),
    ensures
        r.0@ == relation_pairs(universe.edges_of(), bits@, universe.lattice_of().card()),
        columns_of(matrix_of(r.1@), system_of(universe.edges_of(), bits@, universe.lattice_of().card()), universe.lattice_of().card()),
{
    let ghost p = universe.edges_of();
    let ghost n = universe.lattice_of().card();
    let ghost rel = system_of(p, bits@, n);
    let size = universe.lattice().size();
    let edges = universe.proper_edges();
    let mut pairs: Vec<Edge> = Vec::new();
    let mut cols = crate::bits::repeat_rows(false, size, size);
    let mut id: usize = 0;
    while id < size
        invariant
            universe.wf(),
            p == universe.edges_of(),
            n == universe.lattice_of().card(),
            size == n,
            id <= size,
            pairs@ == Seq::new(id as nat, |i: int| Edge { from: i as usize, to: i as usize }),
            cols@.len() == size,
            forall|w: int| 0 <= w < size ==> (#[trigger] cols@[w])@.len() == size,
            forall|w: int, z: int| 0 <= w < size && 0 <= z < size ==> #[trigger] cols@[w]@[z] == (z == w && w < id),
        decreases size - id,
    {
        pairs.push(Edge::new(id, id));
        cols[id].set(id, true);
        proof {
            assert(pairs@ =~= Seq::new((id + 1) as nat, |i: int| Edge { from: i as usize, to: i as usize }));
        }
        id += 1;
    }
    let ghost ids = pairs@;
    let mut k: usize = 0;
    while k < edges.len()
        invariant
            universe.wf(),
            p == universe.edges_of(),
            n == universe.lattice_of().card(),
            size == n,
            edges@ == p,
            bits@.len() == p.len(),
            k <= p.len(),
            ids == Seq::new(n, |i: int| Edge { from: i as usize, to: i as usize }),
            pairs@ == ids + selected_edges(p, bits@, k as int),
            cols@.len() == size,
            forall|w: int| 0 <= w < size ==> (#[trigger] cols@[w])@.len() == size,
            forall|w: int, z: int| 0 <= w < size && 0 <= z < size ==> #[trigger] cols@[w]@[z] == ((z == w) || exists|j: int|
                0 <= j < k && #[trigger] p[j] == (Edge { from: z as usize, to: w as usize }) && bits@[j]),
        decreases p.len() - k,
    {
        let ghost before = cols@;
        if bits.bit(k) {
            let edge = edges[k];
            assert(crate::transfer_theory::is_proper_list(universe.lattice_of(), p));
            assert(p[k as int].from < n && p[k as int].to < n);
            pairs.push(edge);
            cols[edge.to].set(edge.from, true);
            proof {
                assert(pairs@ =~= ids + selected_edges(p, bits@, k + 1));
            }
        } else {
            proof {
                assert(pairs@ =~= ids + selected_edges(p, bits@, k + 1));
            }
        }
        proof {
            assert forall|w: int, z: int| 0 <= w < size && 0 <= z < size implies #[trigger] cols@[w]@[z] == ((z == w) || exists|j: int|
                0 <= j < k + 1 && #[trigger] p[j] == (Edge { from: z as usize, to: w as usize }) && bits@[j]) by {
                if exists|j: int| 0 <= j < k && #[trigger] p[j] == (Edge { from: z as usize, to: w as usize }) && bits@[j] {
                    let j = choose|j: int| 0 <= j < k && #[trigger] p[j] == (Edge { from: z as usize, to: w as usize }) && bits@[j];
                    assert(0 <= j < k + 1);
                }
                if bits@[k as int] && p[k as int] == (Edge { from: z as usize, to: w as usize }) {
                    assert(0 <= k < k + 1);
                }
                if exists|j: int| 0 <= j < k + 1 && #[trigger] p[j] == (Edge { from: z as usize, to: w as usize }) && bits@[j] {
                    let j = choose|j: int| 0 <= j < k + 1 && #[trigger] p[j] == (Edge { from: z as usize, to: w as usize }) && bits@[j];
                    if j < k {
                        assert(exists|j: int| 0 <= j < k && #[trigger] p[j] == (Edge { from: z as usize, to: w as usize }) && bits@[j]);
                    }
                }
            }
        }
        k += 1;
    }
    proof {
        let m = matrix_of(cols@);
        assert forall|w: int| 0 <= w < n implies (#[trigger] m[w]).len() == n by {
            assert(m[w] == cols@[w]@);
        }
        assert forall|w: int, z: int| 0 <= w < n && 0 <= z < n implies #[trigger] m[w][z] == rel.contains(Edge { from: z as usize, to: w as usize }) by {
            assert(m[w] == cols@[w]@);
            let e = Edge { from: z as usize, to: w as usize };
            if rel.contains(e) && z != w {
                let j = choose|j: int| 0 <= j < p.len() && #[trigger] p[j] == e && bits@[j];
            }
        }
    }
    (pairs, cols)
}

/// The relations recorded by columns: `z -> w` when `cols[w][z]`.
pub open spec fn col_set(cols: Seq<Seq<bool>>, n: nat) -> Set<Edge> {
    Set::new(|e: Edge| e.from < n && e.to < n && cols[e.to as int][e.from as int])
}

/// Columns of a system record exactly its relations.
proof fn lemma_col_set(cols: Seq<Seq<bool>>, p: Seq<Edge>, bits: Seq<bool>, n: nat)
    requires
        columns_of(cols, system_of(p, bits, n), n),
        forall|k: int| 0 <= k < p.len() ==> (#[trigger] p[k]).from < n && p[k].to < n,
    ensures
        col_set(cols, n) == system_of(p, bits, n),
{
    assert forall|e: Edge| col_set(cols, n).contains(e) <==> system_of(p, bits, n).contains(e) by {
        if system_of(p, bits, n).contains(e) && !(e.from == e.to && e.from < n) {
            let k = choose|k: int| 0 <= k < p.len() && #[trigger] p[k] == e && bits[k];
        }
        if e.from < n && e.to < n {
            assert(cols[e.to as int][e.from as int] == system_of(p, bits, n).contains(Edge { from: e.from, to: e.to }));
        }
    }
    assert(col_set(cols, n) =~= system_of(p, bits, n));
}

/// Whether the square of `first` and `second` factors through the systems
/// recorded by `left_cols` and `right_cols`.
fn has_factorization_witness<A>(lattice: &Lattice<A>, left_cols: &Vec<Bits>, right_cols: &Vec<Bits>, first: Edge, second: Edge) -> (r: bool)
    requires
        lattice.wf(),
        columns_of(matrix_of(left_cols@), col_set(matrix_of(left_cols@), lattice.card()), lattice.card()),
        columns_of(matrix_of(right_cols@), col_set(matrix_of(right_cols@), lattice.card()), lattice.card()),
        first.from < lattice.card(),
        first.to < lattice.card(),
        second.from < lattice.card(),
        second.to < lattice.card(),
    ensures
        r == has_factorization(
            *lattice,
            col_set(matrix_of(left_cols@), lattice.card()),
            col_set(matrix_of(right_cols@), lattice.card()),
            first,
            second,
        ),
{
    let ghost n = lattice.card();
    let ghost left = col_set(matrix_of(left_cols@), n);
    let ghost right = col_set(matrix_of(right_cols@), n);
    let size = lattice.size();
    let mut w: usize = 0;
    while w < size
        invariant
            lattice.wf(),
            size == n,
            n == lattice.card(),
            left == col_set(matrix_of(left_cols@), n),
            right == col_set(matrix_of(right_cols@), n),
            columns_of(matrix_of(left_cols@), left, n),
            columns_of(matrix_of(right_cols@), right, n),
            first.from < n,
            first.to < n,
            second.from < n,
            second.to < n,
            w <= size,
            forall|w2: usize, z2: usize|
                #![trigger right.contains(Edge { from: w2, to: second.to }), left.contains(Edge { from: z2, to: w2 })]
                w2 < w ==> !(right.contains(Edge { from: w2, to: second.to }) && lattice.le(first.to as int, w2 as int)
                    && left.contains(Edge { from: z2, to: w2 }) && lattice.le(first.from as int, z2 as int) && lattice.le(
                    z2 as int,
                    second.from as int,
                )),
        decreases size - w,
    {
        assert(matrix_of(right_cols@)[second.to as int] == right_cols@[second.to as int]@);
        assert(matrix_of(left_cols@)[w as int] == left_cols@[w as int]@);
        if right_cols[second.to].bit(w) && lattice.leq(first.to, w) {
            assert(right.contains(Edge { from: w, to: second.to }));
            let mut z: usize = 0;
            while z < size
                invariant
                    lattice.wf(),
                    size == n,
                    n == lattice.card(),
                    left == col_set(matrix_of(left_cols@), n),
                    columns_of(matrix_of(left_cols@), left, n),
                    matrix_of(left_cols@)[w as int] == left_cols@[w as int]@,
                    right == col_set(matrix_of(right_cols@), n),
                    right.contains(Edge { from: w, to: second.to }),
                    lattice.le(first.to as int, w as int),
                    w < n,
                    first.from < n,
                    second.from < n,
                    z <= size,
                    forall|z2: usize| #![trigger left.contains(Edge { from: z2, to: w })]
                        z2 < z ==> !(left.contains(Edge { from: z2, to: w }) && lattice.le(first.from as int, z2 as int)
                            && lattice.le(z2 as int, second.from as int)),
                decreases size - z,
            {
                if left_cols[w].bit(z) && lattice.leq(first.from, z) && lattice.leq(z, second.from) {
                    assert(left.contains(Edge { from: z, to: w }));
                    return true;
                }
                z += 1;
            }
        }
        w += 1;
    }
    false
}

/// `(first, second)` is the first failing square, in the order in which the
/// pairs are listed.
pub open spec fn first_failure<A>(
    l: Lattice<A>,
    left: Set<Edge>,
    right: Set<Edge>,
    left_pairs: Seq<Edge>,
    right_pairs: Seq<Edge>,
    first: Edge,
    second: Edge,
) -> bool {
    exists|i: int, j: int|
        #![trigger left_pairs[i], right_pairs[j]]
        0 <= i < left_pairs.len() && 0 <= j < right_pairs.len() && left_pairs[i] == first && right_pairs[j] == second
            && square_fails(l, left, right, first, second) && forall|i2: int, j2: int|
            #![trigger left_pairs[i2], right_pairs[j2]]
            0 <= i2 < left_pairs.len() && 0 <= j2 < right_pairs.len() && (i2 < i || (i2 == i && j2 < j))
                ==> !square_fails(l, left, right, left_pairs[i2], right_pairs[j2])
}

/// A pair of arrows witnessing failure of the composition-closed
/// factorization condition.
#[derive(Debug, Clone, Copy, PartialEq, Eq, Structural)]
pub struct FactorizationFailure {
    /// The arrow in the smaller transfer system.
    pub first: Edge,
    /// The arrow in the larger transfer system.
    pub second: Edge,
}

/// Finds the first failing square, scanning the arrows of the smaller
/// system and, for each, those of the larger one.
fn factorization_failure<A>(
    lattice: &Lattice<A>,
    left_pairs: &Vec<Edge>,
    left_cols: &Vec<Bits>,
    right_pairs: &Vec<Edge>,
    right_cols: &Vec<Bits>,
) -> (r: Option<FactorizationFailure>)
    requires
        lattice.wf(),
        columns_of(matrix_of(left_cols@), col_set(matrix_of(left_cols@), lattice.card()), lattice.card()),
        columns_of(matrix_of(right_cols@), col_set(matrix_of(right_cols@), lattice.card()), lattice.card()),
        forall|i: int| 0 <= i < left_pairs@.len() ==> (#[trigger] left_pairs@[i]).from < lattice.card() && left_pairs@[i].to < lattice.card(),
        forall|j: int| 0 <= j < right_pairs@.len() ==> (#[trigger] right_pairs@[j]).from < lattice.card() && right_pairs@[j].to < lattice.card(),
    ensures
        match r {
            Some(f) => first_failure(
                *lattice,
                col_set(matrix_of(left_cols@), lattice.card()),
                col_set(matrix_of(right_cols@), lattice.card()),
                left_pairs@,
                right_pairs@,
                f.first,
                f.second,
            ),
            None => forall|i: int, j: int|
                0 <= i < left_pairs@.len() && 0 <= j < right_pairs@.len() ==> !square_fails(
                    *lattice,
                    col_set(matrix_of(left_cols@), lattice.card()),
                    col_set(matrix_of(right_cols@), lattice.card()),
                    #[trigger] left_pairs@[i],
                    #[trigger] right_pairs@[j],
                ),
        },
{
    let ghost n = lattice.card();
    let ghost left = col_set(matrix_of(left_cols@), n);
    let ghost right = col_set(matrix_of(right_cols@), n);
    let mut i: usize = 0;
    while i < left_pairs.len()
        invariant
            lattice.wf(),
            n == lattice.card(),
            left == col_set(matrix_of(left_cols@), n),
            right == col_set(matrix_of(right_cols@), n),
            columns_of(matrix_of(left_cols@), left, n),
            columns_of(matrix_of(right_cols@), right, n),
            forall|a: int| 0 <= a < left_pairs@.len() ==> (#[trigger] left_pairs@[a]).from < n && left_pairs@[a].to < n,
            forall|b: int| 0 <= b < right_pairs@.len() ==> (#[trigger] right_pairs@[b]).from < n && right_pairs@[b].to < n,
            i <= left_pairs@.len(),
            forall|a: int, b: int|
                0 <= a < i && 0 <= b < right_pairs@.len() ==> !square_fails(*lattice, left, right, #[trigger] left_pairs@[a], #[trigger] right_pairs@[b]),
        decreases left_pairs@.len() - i,
    {
        let first = left_pairs[i];
        let mut j: usize = 0;
        while j < right_pairs.len()
            invariant
                lattice.wf(),
                n == lattice.card(),
                left == col_set(matrix_of(left_cols@), n),
                right == col_set(matrix_of(right_cols@), n),
                columns_of(matrix_of(left_cols@), left, n),
                columns_of(matrix_of(right_cols@), right, n),
                forall|b: int| 0 <= b < right_pairs@.len() ==> (#[trigger] right_pairs@[b]).from < n && right_pairs@[b].to < n,
                i < left_pairs@.len(),
                first == left_pairs@[i as int],
                first.from < n,
                first.to < n,
                j <= right_pairs@.len(),
                forall|a: int, b: int|
                    0 <= a < i && 0 <= b < right_pairs@.len() ==> !square_fails(*lattice, left, right, #[trigger] left_pairs@[a], #[trigger] right_pairs@[b]),
                forall|b: int| 0 <= b < j ==> !square_fails(*lattice, left, right, first, #[trigger] right_pairs@[b]),
            decreases right_pairs@.len() - j,
        {
            let second = right_pairs[j];
            if lattice.leq(first.from, second.from) && lattice.leq(first.to, second.to)
                && !has_factorization_witness(lattice, left_cols, right_cols, first, second) {
                proof {
                    assert(square_fails(*lattice, left, right, left_pairs@[i as int], right_pairs@[j as int]));
                    assert forall|i2: int, j2: int|
                        0 <= i2 < left_pairs@.len() && 0 <= j2 < right_pairs@.len() && (i2 < i || (i2 == i && j2 < j)) implies !square_fails(
                        *lattice,
                        left,
                        right,
                        #[trigger] left_pairs@[i2],
                        #[trigger] right_pairs@[j2],
                    ) by {
                        if i2 == i {
                            assert(!square_fails(*lattice, left, right, first, right_pairs@[j2]));
                        }
                    }
                }
                return Some(FactorizationFailure { first, second });
            }
            j += 1;
        }
        i += 1;
    }
    None
}

/// The arrows of the system with bits `bits`, in the order the
/// factorization check visits them, and its columns.
pub open spec fn pairs_and_columns<A>(u: TransferUniverse<A>, bits: Seq<bool>, pairs: Seq<Edge>, cols: Seq<Seq<bool>>) -> bool {
    &&& pairs == relation_pairs(u.edges_of(), bits, u.lattice_of().card())
    &&& columns_of(cols, system_of(u.edges_of(), bits, u.lattice_of().card()), u.lattice_of().card())
    &&& col_set(cols, u.lattice_of().card()) == system_of(u.edges_of(), bits, u.lattice_of().card())
    &&& forall|i: int| 0 <= i < pairs.len() ==> (#[trigger] pairs[i]).from < u.lattice_of().card() && pairs[i].to < u.lattice_of().card()
}

/// The arrows and columns of a raw system.
fn pairs_and_columns_of<A>(universe: &TransferUniverse<A>, bits: &Bits) -> (r: (Vec<Edge>, Vec<Bits>))
    requires
        universe.wf(),
        bits@.len() == universe.edges_of().len(),
    ensures
        pairs_and_columns(*universe, bits@, r.0@, matrix_of(r.1@)),
{
    let r = as_partial_order(universe, bits);
    proof {
        let p = universe.edges_of();
        let n = universe.lattice_of().card();
        assert(crate::transfer_theory::is_proper_list(universe.lattice_of(), p));
        lemma_col_set(matrix_of(r.1@), p, bits@, n);
        lemma_relation_pairs(p, bits@, n);
        assert forall|i: int| 0 <= i < r.0@.len() implies (#[trigger] r.0@[i]).from < n && r.0@[i].to < n by {
            assert(relation_pairs(p, bits@, n).contains(r.0@[i]));
            assert(system_of(p, bits@, n).contains(r.0@[i]));
            if !(r.0@[i].from == r.0@[i].to && r.0@[i].from < n) {
                let k = choose|k: int| 0 <= k < p.len() && #[trigger] p[k] == r.0@[i] && bits@[k];
            }
        }
    }
    r
}

/// Returns the first failing square of two raw systems of `universe`, if
/// the pair does not satisfy the factorization condition.
pub(crate) fn factorization_failure_for_raw<A>(universe: &TransferUniverse<A>, left: &RawTransferSystem, right: &RawTransferSystem) -> (r: Option<FactorizationFailure>)
    requires
        universe.wf(),
        left.bits().len() == universe.edges_of().len(),
        right.bits().len() == universe.edges_of().len(),
    ensures
        match r {
            Some(f) => first_failure(
                universe.lattice_of(),
                system_of(universe.edges_of(), left.bits(), universe.lattice_of().card()),
                system_of(universe.edges_of(), right.bits(), universe.lattice_of().card()),
                relation_pairs(universe.edges_of(), left.bits(), universe.lattice_of().card()),
                relation_pairs(universe.edges_of(), right.bits(), universe.lattice_of().card()),
                f.first,
                f.second,
            ),
            None => factorization_condition(
                universe.lattice_of(),
                system_of(universe.edges_of(), left.bits(), universe.lattice_of().card()),
                system_of(universe.edges_of(), right.bits(), universe.lattice_of().card()),
            ),
        },
{
    let (left_pairs, left_cols) = pairs_and_columns_of(universe, left.arrows());
    let (right_pairs, right_cols) = pairs_and_columns_of(universe, right.arrows());
    let r = factorization_failure(&**universe.lattice(), &left_pairs, &left_cols, &right_pairs, &right_cols);
    proof {
        let p = universe.edges_of();
        let n = universe.lattice_of().card();
        let ls = system_of(p, left.bits(), n);
        let rs = system_of(p, right.bits(), n);
        if r is None {
            lemma_relation_pairs(p, left.bits(), n);
            lemma_relation_pairs(p, right.bits(), n);
            assert forall|first: Edge, second: Edge| #[trigger] ls.contains(first) && #[trigger] rs.contains(second) implies !square_fails(
                universe.lattice_of(),
                ls,
                rs,
                first,
                second,
            ) by {
                assert(left_pairs@.contains(first));
                assert(right_pairs@.contains(second));
                let i = choose|i: int| 0 <= i < left_pairs@.len() && left_pairs@[i] == first;
                let j = choose|j: int| 0 <= j < right_pairs@.len() && right_pairs@[j] == second;
                assert(!square_fails(universe.lattice_of(), ls, rs, left_pairs@[i], right_pairs@[j]));
            }
        }
    }
    r
}

/// Whether the factorization condition holds between two systems given by
/// their arrows and columns.
fn factorization_holds<A>(
    universe: &TransferUniverse<A>,
    left_bits: Ghost<Seq<bool>>,
    left_pairs: &Vec<Edge>,
    left_cols: &Vec<Bits>,
    right_bits: Ghost<Seq<bool>>,
    right_pairs: &Vec<Edge>,
    right_cols: &Vec<Bits>,
) -> (r: bool)
    requires
        universe.wf(),
        pairs_and_columns(*universe, left_bits@, left_pairs@, matrix_of(left_cols@)),
        pairs_and_columns(*universe, right_bits@, right_pairs@, matrix_of(right_cols@)),
        left_bits@.len() == universe.edges_of().len(),
        right_bits@.len() == universe.edges_of().len(),
    ensures
        r == factorization_condition(
            universe.lattice_of(),
            system_of(universe.edges_of(), left_bits@, universe.lattice_of().card()),
            system_of(universe.edges_of(), right_bits@, universe.lattice_of().card()),
        ),
{
    let found = factorization_failure(&**universe.lattice(), left_pairs, left_cols, right_pairs, right_cols);
    proof {
        let p = universe.edges_of();
        let n = universe.lattice_of().card();
        let ls = system_of(p, left_bits@, n);
        let rs = system_of(p, right_bits@, n);
        lemma_relation_pairs(p, left_bits@, n);
        lemma_relation_pairs(p, right_bits@, n);
        match found {
            None => {
                assert forall|first: Edge, second: Edge| #[trigger] ls.contains(first) && #[trigger] rs.contains(second) implies !square_fails(
                    universe.lattice_of(),
                    ls,
                    rs,
                    first,
                    second,
                ) by {
                    assert(left_pairs@.contains(first));
                    assert(right_pairs@.contains(second));
                    let i = choose|i: int| 0 <= i < left_pairs@.len() && left_pairs@[i] == first;
                    let j = choose|j: int| 0 <= j < right_pairs@.len() && right_pairs@[j] == second;
                    assert(!square_fails(universe.lattice_of(), ls, rs, left_pairs@[i], right_pairs@[j]));
                }
            },
            Some(f) => {
                let (i, j) = choose|i: int, j: int|
                    #![trigger left_pairs@[i], right_pairs@[j]]
                    0 <= i < left_pairs@.len() && 0 <= j < right_pairs@.len() && left_pairs@[i] == f.first && right_pairs@[j]
                        == f.second && square_fails(universe.lattice_of(), ls, rs, f.first, f.second) && forall|i2: int, j2: int|
                        #![trigger left_pairs@[i2], right_pairs@[j2]]
                        0 <= i2 < left_pairs@.len() && 0 <= j2 < right_pairs@.len() && (i2 < i || (i2 == i && j2 < j))
                            ==> !square_fails(universe.lattice_of(), ls, rs, left_pairs@[i2], right_pairs@[j2]);
                assert(left_pairs@.contains(f.first));
                assert(right_pairs@.contains(f.second));
                assert(ls.contains(f.first));
                assert(rs.contains(f.second));
            },
        }
    }
    found.is_none()
}

/// The composition-closed relation on the listed systems.
pub open spec fn composition_matrix<A>(u: TransferUniverse<A>, labels: Seq<Seq<bool>>) -> Seq<Seq<bool>> {
    Seq::new(
        labels.len(),
        |i: int|
            Seq::new(
                labels.len(),
                |j: int|
                    subset_bits(labels[i], labels[j]) && factorization_condition(
                        u.lattice_of(),
                        system_of(u.edges_of(), labels[i], u.lattice_of().card()),
                        system_of(u.edges_of(), labels[j], u.lattice_of().card()),
                    ),
            ),
    )
}

/// The transfer systems of a lattice under the composition-closed order.
#[derive(Debug)]
pub struct TransferPoset<A> {
    universe: Arc<TransferUniverse<A>>,
    poset: Poset<RawTransferSystem>,
}

impl<A> TransferPoset<A> {
    /// The universe shared by all systems of the poset.
    pub closed spec fn universe_of(&self) -> TransferUniverse<A> {
        *self.universe
    }

    /// The poset whose labels are the raw systems.
    pub closed spec fn poset_of(&self) -> Poset<RawTransferSystem> {
        self.poset
    }

    /// The bits of the system with each element id.
    pub open spec fn system_bits(&self) -> Seq<Seq<bool>> {
        raw_bits(self.poset_of().labels())
    }

    /// Every transfer system once, ordered by the composition-closed order.
    pub open spec fn wf(&self) -> bool {
        &&& self.universe_of().wf()
        &&& self.poset_of().wf()
        &&& lists_closed_sets(self.universe_of().context_rows(), self.universe_of().edges_of().len(), self.system_bits())
        &&& self.poset_of().order() == composition_matrix(self.universe_of(), self.system_bits())
    }

    /// Returns the universe shared by all systems in this poset.
    pub fn universe(&self) -> (r: &Arc<TransferUniverse<A>>)
        ensures
            **r == self.universe_of(),
    {
        &self.universe
    }

    /// Returns the raw poset whose labels are bit-vector transfer systems.
    pub fn raw_poset(&self) -> (r: &Poset<RawTransferSystem>)
        ensures
            *r == self.poset_of(),
    {
        &self.poset
    }

    /// Returns the number of transfer systems in the poset.
    pub fn size(&self) -> (r: usize)
        requires
            self.wf(),
        ensures
            r == self.poset_of().card(),
    {
        self.poset.size()
    }

    /// Returns the cover relations in the Hasse diagram of this poset.
    pub fn cover_relations(&self) -> (r: EdgeSet)
        requires
            self.wf(),
        ensures
            r@ == Set::new(
                |e: Edge|
                    e.from < self.poset_of().card() && e.to < self.poset_of().card() && crate::order::is_cover(
                        self.poset_of().order(),
                        self.poset_of().card(),
                        e.from as int,
                        e.to as int,
                    ),
            ),
    {
        self.poset.cover_relations()
    }

    /// Returns a transfer system by element id in this poset.
    pub fn system(&self, id: ElementId) -> (r: Option<TransferSystem<A>>)
        requires
            self.wf(),
        ensures
            match r {
                Some(ts) => id < self.poset_of().card() && ts.wf() && ts.universe_of() == self.universe_of() && ts.bits()
                    == self.system_bits()[id as int],
                None => id >= self.poset_of().card(),
            },
    {
        match self.poset.element(id) {
            Some(raw) => {
                assert(self.system_bits()[id as int] == raw.bits());
                Some(TransferSystem::new(raw.clone(), arc_clone(&self.universe)))
            },
            None => None,
        }
    }

    /// Lists all transfer systems in element-id order.
    pub fn systems(&self) -> (r: Vec<TransferSystem<A>>)
        requires
            self.wf(),
        ensures
            r@.len() == self.poset_of().card(),
            forall|i: int| 0 <= i < r@.len() ==> (#[trigger] r@[i]).wf() && r@[i].universe_of() == self.universe_of()
                && r@[i].bits() == self.system_bits()[i],
    {
        let elements = self.poset.elements();
        let mut result: Vec<TransferSystem<A>> = Vec::new();
        let mut i: usize = 0;
        while i < elements.len()
            invariant
                self.wf(),
                elements@ == self.poset_of().labels(),
                i <= elements@.len(),
                result@.len() == i,
                forall|k: int| 0 <= k < i ==> (#[trigger] result@[k]).wf() && result@[k].universe_of() == self.universe_of()
                    && result@[k].bits() == self.system_bits()[k],
            decreases elements@.len() - i,
        {
            assert(self.system_bits()[i as int] == elements@[i as int].bits());
            result.push(TransferSystem::new(elements[i].clone(), arc_clone(&self.universe)));
            i += 1;
        }
        result
    }

    /// Relabels the raw poset by user-facing transfer systems.
    pub fn to_system_poset(&self) -> (r: Poset<TransferSystem<A>>)
        requires
            self.wf(),
        ensures
            r.wf(),
            r.order() == self.poset_of().order(),
            r.card() == self.poset_of().card(),
            forall|i: int| 0 <= i < r.card() ==> (#[trigger] r.labels()[i]).wf() && r.labels()[i].universe_of()
                == self.universe_of() && r.labels()[i].bits() == self.system_bits()[i],
    {
        let universe = &self.universe;
        let ghost u = self.universe_of();
        let f = |raw: &RawTransferSystem| -> (ts: TransferSystem<A>)
            ensures
                ts.bits() == raw.bits() && ts.universe_of() == **universe,
            { TransferSystem::new(raw.clone(), arc_clone(universe)) };
        let r = self.poset.relabelled(f);
        proof {
            assert forall|i: int| 0 <= i < r.card() implies (#[trigger] r.labels()[i]).wf() && r.labels()[i].universe_of() == u
                && r.labels()[i].bits() == self.system_bits()[i] by {
                assert(self.system_bits()[i] == self.poset_of().labels()[i].bits());
            }
        }
        r
    }
}

impl<A> TransferUniverse<A> {
    /// Constructs the composition-closed order on transfer systems.
    ///
    /// The systems are enumerated and every ordered pair compared: a system
    /// lies below another when it is contained in it and every relevant
    /// square formed by one arrow from the smaller system and one from the
    /// larger admits an intermediate factorization.  Unlike containment,
    /// this relation need not be a lattice, and an error is returned when it
    /// is not a partial order.
    pub fn composition_closed_order(self: &Arc<Self>) -> (r: Result<TransferPoset<A>, TransferError>)
        requires
            self.wf(),
            transfer_systems_on(self.lattice_of()).len() <= max_bits(),
        ensures
            match r {
                Ok(tp) => tp.wf() && tp.universe_of() == **self,
                Err(TransferError::Poset(e)) => exists|labels: Seq<Seq<bool>>|
                    lists_closed_sets(self.context_rows(), self.edges_of().len(), labels) && relation_error(
                        composition_matrix(**self, labels),
                        labels.len(),
                        e,
                    ),
                Err(_) => false,
            },
    {
        let systems = crate::transfer_lattice::all_transfer_systems(self);
        let ghost labels = raw_bits(systems@);
        let n = systems.len();
        proof {
            self.lemma_listed_systems_len(labels);
        }
        let mut orders: Vec<(Vec<Edge>, Vec<Bits>)> = Vec::new();
        let mut i: usize = 0;
        while i < n
            invariant
                self.wf(),
                n == systems@.len(),
                labels == raw_bits(systems@),
                lists_closed_sets(self.context_rows(), self.edges_of().len(), labels),
                i <= n,
                orders@.len() == i,
                forall|k: int| 0 <= k < i ==> #[trigger] pairs_and_columns(**self, labels[k], orders@[k].0@, matrix_of(orders@[k].1@)),
            decreases n - i,
        {
            assert(labels[i as int] == systems@[i as int].bits());
            orders.push(pairs_and_columns_of(self, systems[i].arrows()));
            i += 1;
        }
        let mut relation: Vec<Bits> = Vec::new();
        let mut i: usize = 0;
        while i < n
            invariant
                self.wf(),
                n == systems@.len(),
                n <= max_bits(),
                labels == raw_bits(systems@),
                lists_closed_sets(self.context_rows(), self.edges_of().len(), labels),
                orders@.len() == n,
                forall|k: int| 0 <= k < n ==> #[trigger] pairs_and_columns(**self, labels[k], orders@[k].0@, matrix_of(orders@[k].1@)),
                i <= n,
                relation@.len() == i,
                forall|a: int| 0 <= a < i ==> (#[trigger] relation@[a])@ == composition_matrix(**self, labels)[a],
            decreases n - i,
        {
            let mut row = Bits::repeat(false, n);
            let mut j: usize = 0;
            while j < n
                invariant
                    self.wf(),
                    n == systems@.len(),
                    labels == raw_bits(systems@),
                    lists_closed_sets(self.context_rows(), self.edges_of().len(), labels),
                    orders@.len() == n,
                    forall|k: int| 0 <= k < n ==> #[trigger] pairs_and_columns(**self, labels[k], orders@[k].0@, matrix_of(orders@[k].1@)),
                    i < n,
                    j <= n,
                    row@.len() == n,
                    forall|b: int| 0 <= b < j ==> #[trigger] row@[b] == composition_matrix(**self, labels)[i as int][b],
                decreases n - j,
            {
                assert(labels[i as int] == systems@[i as int].bits());
                assert(labels[j as int] == systems@[j as int].bits());
                let contained = is_subset(systems[i].arrows(), systems[j].arrows());
                let b = contained && factorization_holds(
                    self,
                    Ghost(labels[i as int]),
                    &orders[i].0,
                    &orders[i].1,
                    Ghost(labels[j as int]),
                    &orders[j].0,
                    &orders[j].1,
                );
                row.set(j, b);
                j += 1;
            }
            proof {
                assert(row@ =~= composition_matrix(**self, labels)[i as int]);
            }
            relation.push(row);
            i += 1;
        }
        proof {
            assert(matrix_of(relation@) =~= composition_matrix(**self, labels)) by {
                assert forall|a: int| 0 <= a < n implies #[trigger] matrix_of(relation@)[a] == composition_matrix(**self, labels)[a] by {
                    assert(matrix_of(relation@)[a] == relation@[a]@);
                }
            }
        }
        match Poset::from_relation(systems, relation) {
            Ok(poset) => Ok(TransferPoset { universe: arc_clone(self), poset }),
            Err(e) => Err(TransferError::Poset(e)),
        }
    }
}

impl<A> Lattice<A> {
    /// Constructs the composition-closed order on the transfer systems of
    /// this lattice.
    pub fn transfer_systems_composition_closed(self: Arc<Self>) -> (r: Result<TransferPoset<A>, TransferError>)
        requires
            self.wf(),
            self.card() * self.card() <= max_bits(),
            transfer_systems_on(*self).len() <= max_bits(),
        ensures
            match r {
                Ok(tp) => tp.wf() && tp.universe_of().lattice_of() == *self,
                Err(e) => e is Poset,
            },
    {
        self.transfer_universe().composition_closed_order()
    }
}

} // verus!
