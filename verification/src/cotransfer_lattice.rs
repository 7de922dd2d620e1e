//! Cotransfer systems on finite lattices.
//!
//! A cotransfer system on a finite lattice `L` is a wide suborder `C` of
//! `L` that is closed under pushout: if `x C y` and `x <= z`, then
//! `z C (y \/ z)`.  Reversing every arrow identifies the cotransfer systems
//! on `L` with the transfer systems on the opposite lattice `L^op`
//! ([`lemma_cotransfer_iff_opposite_transfer`]).
//!
//! The module keeps cotransfer arrows in the orientation of `L`, and hands
//! generation, validation and enumeration to the transfer systems of `L^op`.

use crate::bits::{matrix_of, max_bits, subset_bits, Bits};
use crate::edges::{Edge, EdgeSet, ElementId};
use crate::lattice::Lattice;
use crate::lattice::{first_non_lattice_pair, LatticeError};
use crate::order::{
    has_join, has_meet, is_bottom, is_join, is_lattice_order, is_meet, is_partial_order, is_top,
    lemma_bounds_unique, lemma_error_not_partial_order,
};
use crate::order::{left_lifting_class, lifts, right_lifting_class};
use crate::poset::Poset;
use crate::shared::{arc_clone, arc_ptr_eq, shared_value};
use crate::transfer_lattice::{
    generator_ok, TransferLattice, lemma_system_of_injective, lemma_transfer_system_valid, transfer_systems_on,
    RawTransferSystem, TransferError, TransferSystem, TransferSystemError, TransferUniverse,
};
use crate::transfer_theory::{
    lemma_ts_compose, lemma_ts_identity, lemma_ts_order, lemma_ts_restrict, closure_of, is_closed, is_proper_list, is_transfer_system, join_bits,
    lemma_closed_iff_transfer_system, lemma_closed_sets_lattice, lists_closed_sets, meet_bits,
    system_of, transfer_context,
};
use std::sync::Arc;
use vstd::prelude::*;

verus! {

/// The reversed arrow `e.to -> e.from`.
pub open spec fn reversed(e: Edge) -> Edge {
    Edge { from: e.to, to: e.from }
}

/// The arrows whose reversals lie in `s`.
pub open spec fn reverse_set(s: Set<Edge>) -> Set<Edge> {
    Set::new(|e: Edge| s.contains(reversed(e)))
}

/// The transpose of the order `m` on `n` elements.
pub open spec fn transpose(m: Seq<Seq<bool>>, n: nat) -> Seq<Seq<bool>> {
    Seq::new(n, |i: int| Seq::new(n, |j: int| m[j][i]))
}

/// `op` is the opposite of the lattice `l`: the same elements, with the
/// order reversed.
pub open spec fn is_opposite<A, B>(op: Lattice<B>, l: Lattice<A>) -> bool {
    &&& op.wf()
    &&& l.wf()
    &&& op.card() == l.card()
    &&& forall|i: int, j: int| 0 <= i < l.card() && 0 <= j < l.card() ==> #[trigger] op.le(i, j) == l.le(j, i)
}

/// `c` is a cotransfer system on `l`: a wide suborder of `l` closed under
/// pushout.
pub open spec fn is_cotransfer_system<A>(l: Lattice<A>, c: Set<Edge>) -> bool {
    &&& forall|e: Edge|
        #[trigger] c.contains(e) ==> e.from < l.card() && e.to < l.card() && l.le(e.from as int, e.to as int)
    &&& forall|i: usize| i < l.card() ==> #[trigger] c.contains(Edge { from: i, to: i })
    &&& forall|e: Edge, f: Edge|
        #[trigger] c.contains(e) && #[trigger] c.contains(f) && e.to == f.from ==> c.contains(
            Edge { from: e.from, to: f.to },
        )
    &&& forall|e: Edge, z: usize|
        #[trigger] c.contains(e) && z < l.card() && #[trigger] l.le(e.from as int, z as int)
            ==> c.contains(Edge { from: z, to: l.join_of(e.to as int, z as int) as usize })
}

/// The transpose of a partial order is a partial order; its meets are the
/// joins of the original, its joins the meets, its bottom the top and its
/// top the bottom.
pub proof fn lemma_transpose_order(m: Seq<Seq<bool>>, n: nat)
    requires
        is_partial_order(m, n),
    ensures
        is_partial_order(transpose(m, n), n),
        forall|a: int, b: int, c: int|
            0 <= a < n && 0 <= b < n ==> (#[trigger] is_meet(transpose(m, n), n, a, b, c) <==> is_join(m, n, a, b, c)),
        forall|a: int, b: int, c: int|
            0 <= a < n && 0 <= b < n ==> (#[trigger] is_join(transpose(m, n), n, a, b, c) <==> is_meet(m, n, a, b, c)),
        forall|b: int| #[trigger] is_bottom(transpose(m, n), n, b) <==> is_top(m, n, b),
        forall|t: int| #[trigger] is_top(transpose(m, n), n, t) <==> is_bottom(m, n, t),
        is_lattice_order(m, n) ==> is_lattice_order(transpose(m, n), n),
{
    let t = transpose(m, n);
    assert forall|i: int| 0 <= i < n implies (#[trigger] t[i]).len() == n by {}
    assert forall|i: int, j: int| 0 <= i < n && 0 <= j < n implies #[trigger] t[i][j] == m[j][i] by {}
    assert forall|i: int, j: int, k: int|
        0 <= i < n && 0 <= j < n && 0 <= k < n && #[trigger] t[i][j] && #[trigger] t[j][k] implies t[i][k] by {
        assert(m[k][j] && m[j][i]);
    }
    assert forall|i: int, j: int| 0 <= i < n && 0 <= j < n && #[trigger] t[i][j] && #[trigger] t[j][i] implies i == j by {
        assert(m[j][i] && m[i][j]);
    }
    assert forall|a: int, b: int, c: int| 0 <= a < n && 0 <= b < n implies (#[trigger] is_meet(t, n, a, b, c) <==> is_join(m, n, a, b, c)) by {
        if 0 <= c < n && 0 <= a < n && 0 <= b < n {
            if is_meet(t, n, a, b, c) {
                assert forall|k: int| 0 <= k < n && #[trigger] m[a][k] && m[b][k] implies m[c][k] by {
                    assert(t[k][a] && t[k][b]);
                }
            }
            if is_join(m, n, a, b, c) {
                assert forall|k: int| 0 <= k < n && #[trigger] t[k][a] && t[k][b] implies t[k][c] by {
                    assert(m[a][k] && m[b][k]);
                }
            }
        }
    }
    assert forall|a: int, b: int, c: int| 0 <= a < n && 0 <= b < n implies (#[trigger] is_join(t, n, a, b, c) <==> is_meet(m, n, a, b, c)) by {
        if 0 <= c < n && 0 <= a < n && 0 <= b < n {
            if is_join(t, n, a, b, c) {
                assert forall|k: int| 0 <= k < n && #[trigger] m[k][a] && m[k][b] implies m[k][c] by {
                    assert(t[a][k] && t[b][k]);
                }
            }
            if is_meet(m, n, a, b, c) {
                assert forall|k: int| 0 <= k < n && #[trigger] t[a][k] && t[b][k] implies t[c][k] by {
                    assert(m[k][a] && m[k][b]);
                }
            }
        }
    }
    assert forall|b: int| #[trigger] is_bottom(t, n, b) <==> is_top(m, n, b) by {
        if 0 <= b < n {
            if is_bottom(t, n, b) {
                assert forall|x: int| 0 <= x < n implies #[trigger] m[x][b] by {
                    assert(t[b][x]);
                }
            }
        }
    }
    assert forall|b: int| #[trigger] is_top(t, n, b) <==> is_bottom(m, n, b) by {
        if 0 <= b < n {
            if is_top(t, n, b) {
                assert forall|x: int| 0 <= x < n implies #[trigger] m[b][x] by {
                    assert(t[x][b]);
                }
            }
        }
    }
    if is_lattice_order(m, n) {
        assert forall|a: int, b: int| 0 <= a < n && 0 <= b < n implies #[trigger] has_meet(t, n, a, b) by {
            assert(has_join(m, n, a, b));
            let c = choose|c: int| is_join(m, n, a, b, c);
            assert(is_meet(t, n, a, b, c));
        }
        assert forall|a: int, b: int| 0 <= a < n && 0 <= b < n implies #[trigger] has_join(t, n, a, b) by {
            assert(has_meet(m, n, a, b));
            let c = choose|c: int| is_meet(m, n, a, b, c);
            assert(is_join(t, n, a, b, c));
        }
    }
}

/// The meets of the opposite lattice are the joins of the lattice, and its
/// joins are the meets.
pub proof fn lemma_opposite_bounds<A, B>(op: Lattice<B>, l: Lattice<A>, a: int, b: int)
    requires
        is_opposite(op, l),
        0 <= a < l.card(),
        0 <= b < l.card(),
    ensures
        op.meet_of(a, b) == l.join_of(a, b),
        op.join_of(a, b) == l.meet_of(a, b),
{
    let n = l.card();
    let m = l.order();
    assert(op.order() =~= transpose(m, n)) by {
        assert forall|i: int| 0 <= i < n implies #[trigger] op.order()[i] =~= transpose(m, n)[i] by {
            assert forall|j: int| 0 <= j < n implies op.order()[i][j] == transpose(m, n)[i][j] by {
                assert(op.le(i, j) == l.le(j, i));
            }
        }
    }
    lemma_transpose_order(m, n);
    assert(is_meet(op.order(), n, a, b, op.meet_of(a, b)));
    assert(is_join(m, n, a, b, op.meet_of(a, b)));
    lemma_bounds_unique(m, n, a, b, op.meet_of(a, b), l.join_of(a, b));
    assert(is_join(op.order(), n, a, b, op.join_of(a, b)));
    assert(is_meet(m, n, a, b, op.join_of(a, b)));
    lemma_bounds_unique(m, n, a, b, op.join_of(a, b), l.meet_of(a, b));
}

/// Reversing every arrow turns the cotransfer systems on a lattice into the
/// transfer systems on its opposite, and back.
pub proof fn lemma_cotransfer_iff_opposite_transfer<A, B>(l: Lattice<A>, op: Lattice<B>, c: Set<Edge>)
    requires
        is_opposite(op, l),
    ensures
        is_cotransfer_system(l, c) <==> is_transfer_system(op, reverse_set(c)),
{
    reveal(is_transfer_system);
    let r = reverse_set(c);
    let n = l.card();
    assert forall|e: Edge| #[trigger] r.contains(e) <==> c.contains(reversed(e)) by {}
    assert forall|e: Edge| reversed(reversed(e)) == e by {}
    if is_cotransfer_system(l, c) {
        assert forall|e: Edge| #[trigger] r.contains(e) implies e.from < op.card() && e.to < op.card() && op.le(e.from as int, e.to as int) by {
            assert(c.contains(reversed(e)));
        }
        assert forall|i: usize| i < op.card() implies #[trigger] r.contains(Edge { from: i, to: i }) by {
            assert(c.contains(Edge { from: i, to: i }));
        }
        assert forall|e: Edge, f: Edge|
            #[trigger] r.contains(e) && #[trigger] r.contains(f) && e.to == f.from implies r.contains(Edge { from: e.from, to: f.to }) by {
            assert(c.contains(reversed(f)) && c.contains(reversed(e)));
            assert(reversed(Edge { from: e.from, to: f.to }) == Edge { from: reversed(f).from, to: reversed(e).to });
        }
        assert forall|e: Edge, z: usize|
            #[trigger] r.contains(e) && z < op.card() && #[trigger] op.le(z as int, e.to as int) implies r.contains(
            Edge { from: op.meet_of(e.from as int, z as int) as usize, to: z }) by {
            let g = reversed(e);
            assert(c.contains(g));
            assert(l.le(g.from as int, z as int));
            lemma_opposite_bounds(op, l, e.from as int, z as int);
            assert(c.contains(Edge { from: z, to: l.join_of(g.to as int, z as int) as usize }));
        }
    }
    if is_transfer_system(op, r) {
        assert forall|e: Edge| #[trigger] c.contains(e) implies e.from < l.card() && e.to < l.card() && l.le(e.from as int, e.to as int) by {
            assert(r.contains(reversed(e)));
        }
        assert forall|i: usize| i < l.card() implies #[trigger] c.contains(Edge { from: i, to: i }) by {
            assert(r.contains(Edge { from: i, to: i }));
        }
        assert forall|e: Edge, f: Edge|
            #[trigger] c.contains(e) && #[trigger] c.contains(f) && e.to == f.from implies c.contains(Edge { from: e.from, to: f.to }) by {
            assert(r.contains(reversed(f)) && r.contains(reversed(e)));
            assert(r.contains(Edge { from: reversed(f).from, to: reversed(e).to }));
        }
        assert forall|e: Edge, z: usize|
            #[trigger] c.contains(e) && z < l.card() && #[trigger] l.le(e.from as int, z as int) implies c.contains(
            Edge { from: z, to: l.join_of(e.to as int, z as int) as usize }) by {
            let g = reversed(e);
            assert(r.contains(g));
            assert(op.le(z as int, g.to as int));
            lemma_opposite_bounds(op, l, g.from as int, z as int);
            assert(r.contains(Edge { from: op.meet_of(g.from as int, z as int) as usize, to: z }));
        }
    }
}

/// The left lifting class of any set of relations of a lattice is a
/// cotransfer system.
pub proof fn lemma_left_lifting_class_is_cotransfer<A>(l: Lattice<A>, arrows: Set<Edge>)
    requires
        l.wf(),
        forall|f: Edge| #[trigger] arrows.contains(f) && f.from != f.to ==> f.from < l.card() && f.to < l.card(),
    ensures
        is_cotransfer_system(l, left_lifting_class(l.order(), l.card(), arrows)),
{
    let m = l.order();
    let n = l.card();
    let c = left_lifting_class(m, n, arrows);
    assert forall|i: usize| i < n implies #[trigger] c.contains(Edge { from: i, to: i }) by {
        assert(m[i as int][i as int]);
    }
    assert forall|e: Edge, g: Edge| #[trigger] c.contains(e) && #[trigger] c.contains(g) && e.to == g.from implies c.contains(
        Edge { from: e.from, to: g.to }) by {
        let h = Edge { from: e.from, to: g.to };
        assert(m[e.from as int][g.to as int]);
        assert forall|f: Edge| #[trigger] arrows.contains(f) && f.from != f.to implies lifts(m, h, f) by {
            if m[h.from as int][f.from as int] && m[h.to as int][f.to as int] {
                assert(m[e.to as int][f.to as int]);
                assert(lifts(m, e, f));
                assert(m[e.to as int][f.from as int]);
                assert(lifts(m, g, f));
            }
        }
    }
    assert forall|e: Edge, z: usize| #[trigger] c.contains(e) && z < n && #[trigger] l.le(e.from as int, z as int) implies c.contains(
        Edge { from: z, to: l.join_of(e.to as int, z as int) as usize }) by {
        let j = l.join_of(e.to as int, z as int);
        assert(is_join(m, n, e.to as int, z as int, j));
        let h = Edge { from: z, to: j as usize };
        assert forall|f: Edge| #[trigger] arrows.contains(f) && f.from != f.to implies lifts(m, h, f) by {
            if m[z as int][f.from as int] && m[j][f.to as int] {
                assert(m[e.from as int][f.from as int]);
                assert(m[e.to as int][f.to as int]);
                assert(lifts(m, e, f));
                assert(m[e.to as int][f.from as int]);
            }
        }
    }
}

/// The right lifting class of any set of relations of a lattice is a
/// transfer system.
pub proof fn lemma_right_lifting_class_is_transfer<A>(l: Lattice<A>, arrows: Set<Edge>)
    requires
        l.wf(),
        forall|f: Edge| #[trigger] arrows.contains(f) && f.from != f.to ==> f.from < l.card() && f.to < l.card(),
    ensures
        is_transfer_system(l, right_lifting_class(l.order(), l.card(), arrows)),
{
    reveal(is_transfer_system);
    let m = l.order();
    let n = l.card();
    let r = right_lifting_class(m, n, arrows);
    assert forall|i: usize| i < n implies #[trigger] r.contains(Edge { from: i, to: i }) by {
        assert(m[i as int][i as int]);
    }
    assert forall|e: Edge, g: Edge| #[trigger] r.contains(e) && #[trigger] r.contains(g) && e.to == g.from implies r.contains(
        Edge { from: e.from, to: g.to }) by {
        let h = Edge { from: e.from, to: g.to };
        assert(m[e.from as int][g.to as int]);
        assert forall|f: Edge| #[trigger] arrows.contains(f) && f.from != f.to implies lifts(m, f, h) by {
            if m[f.from as int][h.from as int] && m[f.to as int][h.to as int] {
                assert(m[f.from as int][g.from as int]);
                assert(lifts(m, f, g));
                assert(m[f.to as int][g.from as int]);
                assert(lifts(m, f, e));
            }
        }
    }
    assert forall|e: Edge, z: usize| #[trigger] r.contains(e) && z < n && #[trigger] l.le(z as int, e.to as int) implies r.contains(
        Edge { from: l.meet_of(e.from as int, z as int) as usize, to: z }) by {
        let k = l.meet_of(e.from as int, z as int);
        assert(is_meet(m, n, e.from as int, z as int, k));
        let h = Edge { from: k as usize, to: z };
        assert forall|f: Edge| #[trigger] arrows.contains(f) && f.from != f.to implies lifts(m, f, h) by {
            if m[f.from as int][k] && m[f.to as int][z as int] {
                assert(m[f.from as int][e.from as int]);
                assert(m[f.to as int][e.to as int]);
                assert(lifts(m, f, e));
                assert(m[f.to as int][e.from as int]);
            }
        }
    }
}

/// The meet, under `meet`, of `y` with the elements `w < k` for which
/// `in_set(w)` holds.
pub open spec fn meet_below(meet: spec_fn(int, int) -> int, in_set: spec_fn(int) -> bool, y: int, k: nat) -> int
    decreases k,
{
    if k == 0 {
        y
    } else if in_set(k - 1) {
        meet(meet_below(meet, in_set, y, (k - 1) as nat), k - 1)
    } else {
        meet_below(meet, in_set, y, (k - 1) as nat)
    }
}

/// A set holding `y` and closed under the meets of `m` holds the meet of
/// `y` with its members below `k`, which lies below each of them.
proof fn lemma_meet_below(m: Seq<Seq<bool>>, n: nat, meet: spec_fn(int, int) -> int, in_set: spec_fn(int) -> bool, y: int, k: nat)
    requires
        crate::order::is_transitive(m, n),
        forall|a: int, b: int| 0 <= a < n && 0 <= b < n ==> #[trigger] is_meet(m, n, a, b, meet(a, b)),
        0 <= y < n,
        in_set(y),
        k <= n,
        forall|a: int, b: int| 0 <= a < n && 0 <= b < n && #[trigger] in_set(a) && #[trigger] in_set(b) ==> in_set(meet(a, b)),
    ensures
        0 <= meet_below(meet, in_set, y, k) < n,
        in_set(meet_below(meet, in_set, y, k)),
        forall|w: int| 0 <= w < k && #[trigger] in_set(w) ==> m[meet_below(meet, in_set, y, k)][w],
    decreases k,
{
    if k > 0 {
        let kk = (k - 1) as nat;
        lemma_meet_below(m, n, meet, in_set, y, kk);
        let prev = meet_below(meet, in_set, y, kk);
        if in_set(k - 1) {
            let cur = meet(prev, k - 1);
            assert(is_meet(m, n, prev, k - 1, cur));
            assert forall|w: int| 0 <= w < k && #[trigger] in_set(w) implies m[cur][w] by {
                if w < k - 1 {
                    assert(m[prev][w]);
                    assert(m[cur][prev]);
                }
            }
        }
    }
}

/// The join, under `join`, of `x` with the elements `w < k` for which
/// `in_set(w)` holds.
pub open spec fn join_below(join: spec_fn(int, int) -> int, in_set: spec_fn(int) -> bool, x: int, k: nat) -> int
    decreases k,
{
    if k == 0 {
        x
    } else if in_set(k - 1) {
        join(join_below(join, in_set, x, (k - 1) as nat), k - 1)
    } else {
        join_below(join, in_set, x, (k - 1) as nat)
    }
}

/// A set holding `x` and closed under the joins of `m` holds the join of
/// `x` with its members below `k`, which lies above each of them.
proof fn lemma_join_below(m: Seq<Seq<bool>>, n: nat, join: spec_fn(int, int) -> int, in_set: spec_fn(int) -> bool, x: int, k: nat)
    requires
        crate::order::is_transitive(m, n),
        forall|a: int, b: int| 0 <= a < n && 0 <= b < n ==> #[trigger] is_join(m, n, a, b, join(a, b)),
        0 <= x < n,
        in_set(x),
        k <= n,
        forall|a: int, b: int| 0 <= a < n && 0 <= b < n && #[trigger] in_set(a) && #[trigger] in_set(b) ==> in_set(join(a, b)),
    ensures
        0 <= join_below(join, in_set, x, k) < n,
        in_set(join_below(join, in_set, x, k)),
        forall|w: int| 0 <= w < k && #[trigger] in_set(w) ==> m[w][join_below(join, in_set, x, k)],
    decreases k,
{
    if k > 0 {
        let kk = (k - 1) as nat;
        lemma_join_below(m, n, join, in_set, x, kk);
        let prev = join_below(join, in_set, x, kk);
        if in_set(k - 1) {
            let cur = join(prev, k - 1);
            assert(is_join(m, n, prev, k - 1, cur));
            assert forall|w: int| 0 <= w < k && #[trigger] in_set(w) implies m[w][cur] by {
                if w < k - 1 {
                    assert(m[w][prev]);
                    assert(m[prev][cur]);
                }
            }
        }
    }
}

/// Every relation `x <= y` factors as a relation of the left lifting class
/// of a transfer system followed by a relation of the transfer system.
pub proof fn lemma_transfer_factorization<A>(l: Lattice<A>, r: Set<Edge>, x: usize, y: usize) -> (z: usize)
    requires
        l.wf(),
        is_transfer_system(l, r),
        x < l.card(),
        y < l.card(),
        l.le(x as int, y as int),
    ensures
        z < l.card(),
        l.le(x as int, z as int),
        l.le(z as int, y as int),
        left_lifting_class(l.order(), l.card(), r).contains(Edge { from: x, to: z }),
        r.contains(Edge { from: z, to: y }),
{
    let m = l.order();
    let n = l.card();
    let xi = x as int;
    let yi = y as int;
    let in_set = |w: int| 0 <= w < n && m[xi][w] && m[w][yi] && r.contains(Edge { from: w as usize, to: y });
    lemma_ts_identity(l, r, y);
    assert(m[yi][yi]);
    assert forall|a: int, b: int| 0 <= a < n && 0 <= b < n && #[trigger] in_set(a) && #[trigger] in_set(b) implies in_set(l.meet_of(a, b)) by {
        let k = l.meet_of(a, b);
        assert(is_meet(m, n, a, b, k));
        lemma_ts_restrict(l, r, Edge { from: a as usize, to: y }, b as usize);
        lemma_ts_compose(l, r, Edge { from: k as usize, to: b as usize }, Edge { from: b as usize, to: y });
        assert(m[k][yi]);
    }
    let meet = |a: int, b: int| l.meet_of(a, b);
    assert forall|a: int, b: int| 0 <= a < n && 0 <= b < n implies #[trigger] is_meet(m, n, a, b, meet(a, b)) by {
        assert(is_meet(m, n, a, b, l.meet_of(a, b)));
    }
    assert forall|a: int, b: int| 0 <= a < n && 0 <= b < n && #[trigger] in_set(a) && #[trigger] in_set(b) implies in_set(meet(a, b)) by {
        assert(in_set(l.meet_of(a, b)));
    }
    lemma_meet_below(m, n, meet, in_set, yi, n);
    let zi = meet_below(meet, in_set, yi, n);
    let z = zi as usize;
    let g = Edge { from: x, to: z };
    assert forall|f: Edge| #[trigger] r.contains(f) && f.from != f.to implies lifts(m, g, f) by {
        if m[xi][f.from as int] && m[zi][f.to as int] {
            lemma_ts_order(l, r, f);
            let k = l.meet_of(f.from as int, zi);
            assert(is_meet(m, n, f.from as int, zi, k));
            lemma_ts_restrict(l, r, f, z);
            lemma_ts_compose(l, r, Edge { from: k as usize, to: z }, Edge { from: z, to: y });
            assert(m[k][yi]);
            assert(in_set(k));
            assert(m[zi][k]);
        }
    }
    z
}

/// Every relation `x <= y` factors as a relation of a cotransfer system
/// followed by a relation of its right lifting class.
pub proof fn lemma_cotransfer_factorization<A>(l: Lattice<A>, c: Set<Edge>, x: usize, y: usize) -> (z: usize)
    requires
        l.wf(),
        is_cotransfer_system(l, c),
        x < l.card(),
        y < l.card(),
        l.le(x as int, y as int),
    ensures
        z < l.card(),
        l.le(x as int, z as int),
        l.le(z as int, y as int),
        c.contains(Edge { from: x, to: z }),
        right_lifting_class(l.order(), l.card(), c).contains(Edge { from: z, to: y }),
{
    let m = l.order();
    let n = l.card();
    let xi = x as int;
    let yi = y as int;
    let in_set = |w: int| 0 <= w < n && m[xi][w] && m[w][yi] && c.contains(Edge { from: x, to: w as usize });
    assert(c.contains(Edge { from: x, to: x }));
    assert(m[xi][xi]);
    assert forall|a: int, b: int| 0 <= a < n && 0 <= b < n && #[trigger] in_set(a) && #[trigger] in_set(b) implies in_set(l.join_of(a, b)) by {
        let j = l.join_of(a, b);
        assert(is_join(m, n, a, b, j));
        let ea = Edge { from: x, to: a as usize };
        assert(c.contains(ea) && l.le(xi, b));
        assert(l.join_of(a, b) == l.join_of(ea.to as int, b));
        assert(c.contains(Edge { from: b as usize, to: j as usize }));
        assert(c.contains(Edge { from: x, to: j as usize }));
    }
    let join = |a: int, b: int| l.join_of(a, b);
    assert forall|a: int, b: int| 0 <= a < n && 0 <= b < n implies #[trigger] is_join(m, n, a, b, join(a, b)) by {
        assert(is_join(m, n, a, b, l.join_of(a, b)));
    }
    assert forall|a: int, b: int| 0 <= a < n && 0 <= b < n && #[trigger] in_set(a) && #[trigger] in_set(b) implies in_set(join(a, b)) by {
        assert(in_set(l.join_of(a, b)));
    }
    lemma_join_below(m, n, join, in_set, xi, n);
    let zi = join_below(join, in_set, xi, n);
    let z = zi as usize;
    let g = Edge { from: z, to: y };
    assert forall|f: Edge| #[trigger] c.contains(f) && f.from != f.to implies lifts(m, f, g) by {
        if m[f.from as int][zi] && m[f.to as int][yi] {
            assert(l.le(f.from as int, z as int));
            let j = l.join_of(f.to as int, zi);
            assert(is_join(m, n, f.to as int, zi, j));
            assert(c.contains(Edge { from: z, to: j as usize }));
            assert(c.contains(Edge { from: x, to: j as usize }));
            assert(m[j][yi]);
            assert(in_set(j));
            assert(m[j][zi]);
        }
    }
    z
}

/// The right lifting class of the left lifting class of a transfer system
/// is the transfer system itself.
pub proof fn lemma_lifting_round_trip_transfer<A>(l: Lattice<A>, r: Set<Edge>)
    requires
        l.wf(),
        is_transfer_system(l, r),
    ensures
        right_lifting_class(l.order(), l.card(), left_lifting_class(l.order(), l.card(), r)) == r,
{
    let m = l.order();
    let n = l.card();
    let left = left_lifting_class(m, n, r);
    let back = right_lifting_class(m, n, left);
    assert forall|e: Edge| r.contains(e) implies back.contains(e) by {
        lemma_ts_order(l, r, e);
        assert forall|f: Edge| #[trigger] left.contains(f) && f.from != f.to implies lifts(m, f, e) by {
            if e.from != e.to {
                assert(r.contains(e));
            }
        }
    }
    assert forall|e: Edge| back.contains(e) implies r.contains(e) by {
        let z = lemma_transfer_factorization(l, r, e.from, e.to);
        let g = Edge { from: e.from, to: z };
        if g.from != g.to {
            assert(lifts(m, g, e));
            assert(m[e.from as int][e.from as int]);
        }
    }
    assert(back =~= r);
}

/// The left lifting class of the right lifting class of a cotransfer
/// system is the cotransfer system itself.
pub proof fn lemma_lifting_round_trip_cotransfer<A>(l: Lattice<A>, c: Set<Edge>)
    requires
        l.wf(),
        is_cotransfer_system(l, c),
    ensures
        left_lifting_class(l.order(), l.card(), right_lifting_class(l.order(), l.card(), c)) == c,
{
    let m = l.order();
    let n = l.card();
    let right = right_lifting_class(m, n, c);
    let back = left_lifting_class(m, n, right);
    assert forall|e: Edge| c.contains(e) implies back.contains(e) by {
        assert forall|f: Edge| #[trigger] right.contains(f) && f.from != f.to implies lifts(m, e, f) by {
            if e.from != e.to {
                assert(c.contains(e));
            }
        }
    }
    assert forall|e: Edge| back.contains(e) implies c.contains(e) by {
        let z = lemma_cotransfer_factorization(l, c, e.from, e.to);
        let g = Edge { from: z, to: e.to };
        if g.from != g.to {
            assert(lifts(m, e, g));
            assert(m[e.to as int][e.to as int]);
        }
    }
    assert(back =~= c);
}

/// Left lifting classes reverse containment.
pub proof fn lemma_left_lifting_reverses_containment(m: Seq<Seq<bool>>, n: nat, lower: Set<Edge>, upper: Set<Edge>)
    requires
        lower.subset_of(upper),
    ensures
        left_lifting_class(m, n, upper).subset_of(left_lifting_class(m, n, lower)),
{
}

/// The rows of the transposed order of a poset.
fn transposed_rows<A>(poset: &Poset<A>) -> (r: Vec<Bits>)
    requires
        poset.wf(),
    ensures
        matrix_of(r@) == transpose(poset.order(), poset.card()),
{
    let columns = poset.relation_matrix_transpose();
    let ghost n = poset.card();
    let ghost m = poset.order();
    let mut rows: Vec<Bits> = Vec::new();
    let mut i: usize = 0;
    while i < columns.len()
        invariant
            poset.wf(),
            n == poset.card(),
            m == poset.order(),
            columns@.len() == n,
            forall|a: int, b: int| 0 <= a < n && 0 <= b < n ==> #[trigger] columns@[b]@[a] == poset.le(a, b),
            forall|b: int| 0 <= b < n ==> (#[trigger] columns@[b])@.len() == n,
            i <= n,
            rows@.len() == i,
            forall|k: int| 0 <= k < i ==> (#[trigger] rows@[k])@ == transpose(m, n)[k],
        decreases n - i,
    {
        let row = columns[i].duplicate();
        assert(row@ =~= transpose(m, n)[i as int]) by {
            assert forall|j: int| 0 <= j < n implies row@[j] == transpose(m, n)[i as int][j] by {
                assert(columns@[i as int]@[j] == poset.le(j, i as int));
            }
        }
        rows.push(row);
        i += 1;
    }
    assert(matrix_of(rows@) =~= transpose(m, n));
    rows
}

/// Builds the opposite lattice from labels and the transposed order.
fn opposite_from_rows<A, B>(lattice: &Lattice<A>, labels: Vec<B>, rows: Vec<Bits>) -> (r: Lattice<B>)
    requires
        lattice.wf(),
        labels@.len() == lattice.card(),
        matrix_of(rows@) == transpose(lattice.order(), lattice.card()),
    ensures
        is_opposite(r, *lattice),
        r.labels() == labels@,
{
    let ghost n = lattice.card();
    let ghost m = lattice.order();
    proof {
        lemma_transpose_order(m, n);
    }
    let poset = Poset::from_relation(labels, rows);
    proof {
        if let Err(e) = poset {
            lemma_error_not_partial_order(transpose(m, n), n, e);
        }
    }
    let poset = poset.unwrap();
    let ghost t = poset.order();
    let result = Lattice::new(poset);
    proof {
        match result {
            Err(LatticeError::NotALattice { left, right }) => {
                assert(has_meet(t, n, left as int, right as int) && has_join(t, n, left as int, right as int));
            },
            Err(LatticeError::MissingBottom) => {
                assert(is_top(m, n, lattice.top_of()));
                assert(is_bottom(t, n, lattice.top_of()));
            },
            Err(LatticeError::MissingTop) => {
                assert(is_bottom(m, n, lattice.bottom_of()));
                assert(is_top(t, n, lattice.bottom_of()));
            },
            _ => {},
        }
    }
    let r = result.unwrap();
    assert forall|i: int, j: int| 0 <= i < n && 0 <= j < n implies #[trigger] r.le(i, j) == lattice.le(j, i) by {
        assert(r.order() == transpose(m, n));
    }
    r
}

/// The opposite of a lattice with the element ids as labels.
pub(crate) fn opposite_lattice_with_id_labels<A>(lattice: &Lattice<A>) -> (r: Lattice<ElementId>)
    requires
        lattice.wf(),
    ensures
        is_opposite(r, *lattice),
        r.labels() == Seq::new(lattice.card(), |i: int| i as usize),
{
    let n = lattice.size();
    let mut labels: Vec<ElementId> = Vec::new();
    let mut i: usize = 0;
    while i < n
        invariant
            i <= n,
            labels@ == Seq::new(i as nat, |k: int| k as usize),
        decreases n - i,
    {
        labels.push(i);
        i += 1;
        assert(labels@ =~= Seq::new(i as nat, |k: int| k as usize));
    }
    let rows = transposed_rows(lattice.as_poset());
    opposite_from_rows(lattice, labels, rows)
}

/// The opposite of a lattice: the same elements and labels, with the order
/// reversed.
pub fn opposite_lattice<A: Clone>(lattice: &Lattice<A>) -> (r: Lattice<A>)
    requires
        lattice.wf(),
    ensures
        is_opposite(r, *lattice),
        forall|i: int| 0 <= i < lattice.card() ==> cloned::<A>(lattice.labels()[i], #[trigger] r.labels()[i]),
{
    let elements = lattice.elements();
    let mut labels: Vec<A> = Vec::new();
    let mut i: usize = 0;
    while i < elements.len()
        invariant
            lattice.wf(),
            elements@ == lattice.labels(),
            i <= elements@.len(),
            labels@.len() == i,
            forall|k: int| 0 <= k < i ==> cloned::<A>(lattice.labels()[k], #[trigger] labels@[k]),
        decreases elements@.len() - i,
    {
        labels.push(elements[i].clone());
        i += 1;
    }
    let rows = transposed_rows(lattice.as_poset());
    opposite_from_rows(lattice, labels, rows)
}

/// The reversal of a list of relations lists the reversed relations.
pub proof fn lemma_reversed_system(p: Seq<Edge>, bits: Seq<bool>, n: nat)
    ensures
        system_of(p.map_values(|e: Edge| reversed(e)), bits, n) == reverse_set(system_of(p, bits, n)),
{
    let q = p.map_values(|e: Edge| reversed(e));
    assert forall|e: Edge| system_of(q, bits, n).contains(e) <==> reverse_set(system_of(p, bits, n)).contains(e) by {
        if system_of(q, bits, n).contains(e) && !(e.from == e.to && e.from < n) {
            let k = choose|k: int| 0 <= k < q.len() && #[trigger] q[k] == e && bits[k];
            assert(p[k] == reversed(e));
        }
        if reverse_set(system_of(p, bits, n)).contains(e) && !(e.from == e.to && e.from < n) {
            let k = choose|k: int| 0 <= k < p.len() && #[trigger] p[k] == reversed(e) && bits[k];
            assert(q[k] == e);
        }
    }
    assert(system_of(q, bits, n) =~= reverse_set(system_of(p, bits, n)));
}

/// Reversing twice gives the relations back.
pub proof fn lemma_reverse_twice(s: Set<Edge>)
    ensures
        reverse_set(reverse_set(s)) == s,
{
    assert forall|e: Edge| reversed(reversed(e)) == e by {}
    assert(reverse_set(reverse_set(s)) =~= s);
}

/// A cotransfer system stored in the relation coordinates of `L^op`: bit
/// `i` stands for the reversal of the `i`-th proper relation of `L^op`.
/// Identity relations are implicit.
#[derive(Debug)]
pub struct RawCotransferSystem {
    arrows: Bits,
}

impl RawCotransferSystem {
    /// The selected relations, one bit per proper relation.
    pub closed spec fn bits(&self) -> Seq<bool> {
        self.arrows@
    }

    /// Wraps a bit vector.
    pub(crate) fn new(arrows: Bits) -> (r: Self)
        ensures
            r.bits() == arrows@,
    {
        RawCotransferSystem { arrows }
    }

    /// Returns the bit vector of non-identity relations.
    pub fn arrows(&self) -> (r: &Bits)
        ensures
            r@ == self.bits(),
    {
        &self.arrows
    }
}

impl Clone for RawCotransferSystem {
    fn clone(&self) -> (r: Self)
        ensures
            r.bits() == self.bits(),
    {
        RawCotransferSystem { arrows: self.arrows.duplicate() }
    }
}

impl PartialEq for RawCotransferSystem {
    fn eq(&self, other: &Self) -> (r: bool) {
        crate::bits::equal_bits(&self.arrows, &other.arrows)
    }
}

impl Eq for RawCotransferSystem {
}

impl vstd::std_specs::cmp::PartialEqSpecImpl for RawCotransferSystem {
    open spec fn obeys_eq_spec() -> bool {
        true
    }

    open spec fn eq_spec(&self, other: &Self) -> bool {
        self.bits() == other.bits()
    }
}

/// Errors that can occur while constructing one cotransfer system.
#[derive(Debug, Clone, Copy, PartialEq, Eq, Structural)]
pub enum CotransferSystemError {
    /// A relation references an element outside the lattice.
    EdgeOutOfBounds {
        /// The invalid relation.
        edge: Edge,
        /// The number of lattice elements.
        lattice_size: usize,
    },
    /// A non-identity relation is not present in the lattice order.
    NotLatticeRelation {
        /// The invalid relation.
        edge: Edge,
    },
    /// A raw bit vector has the wrong number of coordinates.
    WrongArrowCount {
        /// The number of proper relations in the universe.
        expected: usize,
        /// The number of supplied bits.
        actual: usize,
    },
    /// Raw arrows are not closed under the cotransfer-system axioms.
    RawNotClosed,
    /// A lifting or opposite-conversion input uses a different ambient
    /// transfer universe.
    LatticeMismatch,
}

/// A cotransfer error for a transfer error on the opposite lattice: the
/// relations it names are reversed back.
pub open spec fn from_opposite_error(error: TransferSystemError) -> CotransferSystemError {
    match error {
        TransferSystemError::EdgeOutOfBounds { edge, lattice_size } => CotransferSystemError::EdgeOutOfBounds {
            edge: reversed(edge),
            lattice_size,
        },
        TransferSystemError::NotLatticeRelation { edge } => CotransferSystemError::NotLatticeRelation {
            edge: reversed(edge),
        },
        TransferSystemError::WrongArrowCount { expected, actual } => CotransferSystemError::WrongArrowCount {
            expected,
            actual,
        },
        TransferSystemError::RawNotClosed => CotransferSystemError::RawNotClosed,
    }
}

impl From<TransferSystemError> for CotransferSystemError {
    fn from(error: TransferSystemError) -> (r: Self) {
        match error {
            TransferSystemError::EdgeOutOfBounds { edge, lattice_size } => CotransferSystemError::EdgeOutOfBounds {
                edge: reverse(edge),
                lattice_size,
            },
            TransferSystemError::NotLatticeRelation { edge } => CotransferSystemError::NotLatticeRelation {
                edge: reverse(edge),
            },
            TransferSystemError::WrongArrowCount { expected, actual } => CotransferSystemError::WrongArrowCount {
                expected,
                actual,
            },
            TransferSystemError::RawNotClosed => CotransferSystemError::RawNotClosed,
        }
    }
}

impl vstd::std_specs::convert::FromSpecImpl<TransferSystemError> for CotransferSystemError {
    open spec fn obeys_from_spec() -> bool {
        true
    }

    open spec fn from_spec(error: TransferSystemError) -> Self {
        from_opposite_error(error)
    }
}

/// The reversed relation.
pub(crate) fn reverse(edge: Edge) -> (r: Edge)
    ensures
        r == reversed(edge),
{
    Edge::new(edge.to, edge.from)
}

/// An error while constructing a cotransfer-system containment lattice: the
/// errors of the transfer-system enumeration on the opposite lattice.
pub type CotransferError = TransferError;

/// Shared coordinates and closure data for cotransfer systems on a lattice.
#[derive(Debug)]
pub struct CotransferUniverse<A> {
    lattice: Arc<Lattice<A>>,
    transfer_universe: Arc<TransferUniverse<A>>,
    opposite_lattice: Arc<Lattice<ElementId>>,
    opposite_transfer_universe: Arc<TransferUniverse<ElementId>>,
    proper_edges: Vec<Edge>,
}

/// A relation is an admissible generator: it lies in the lattice and is a
/// relation of its order.
pub open spec fn cogenerator_ok<A>(l: Lattice<A>, e: Edge) -> bool {
    e.from < l.card() && e.to < l.card() && l.le(e.from as int, e.to as int)
}

impl<A> CotransferUniverse<A> {
    /// The lattice, in its own orientation.
    pub closed spec fn lattice_of(&self) -> Lattice<A> {
        *self.lattice
    }

    /// The transfer universe on the same lattice.
    pub closed spec fn transfer_universe_of(&self) -> TransferUniverse<A> {
        *self.transfer_universe
    }

    /// The opposite lattice, labelled by element ids.
    pub closed spec fn opposite_lattice_of(&self) -> Lattice<ElementId> {
        *self.opposite_lattice
    }

    /// The transfer universe on the opposite lattice.
    pub closed spec fn opposite_universe_of(&self) -> TransferUniverse<ElementId> {
        *self.opposite_transfer_universe
    }

    /// The proper relations of the lattice, in bit order.
    pub closed spec fn edges_of(&self) -> Seq<Edge> {
        self.proper_edges@
    }

    /// A well-formed cotransfer universe: the transfer universe of the
    /// opposite lattice, with its relations reversed.
    pub open spec fn wf(&self) -> bool {
        &&& self.transfer_universe_of().wf()
        &&& self.transfer_universe_of().lattice_of() == self.lattice_of()
        &&& self.opposite_universe_of().wf()
        &&& self.opposite_universe_of().lattice_of() == self.opposite_lattice_of()
        &&& is_opposite(self.opposite_lattice_of(), self.lattice_of())
        &&& self.opposite_lattice_of().labels() == Seq::new(self.lattice_of().card(), |i: int| i as usize)
        &&& self.edges_of() == self.opposite_universe_of().edges_of().map_values(|e: Edge| reversed(e))
    }

    /// The incidence rows of the transfer context of the opposite lattice.
    pub open spec fn opposite_rows(&self) -> Seq<Seq<bool>> {
        transfer_context(self.opposite_lattice_of(), self.opposite_universe_of().edges_of())
    }

    /// Constructs a cotransfer universe on `lattice`.
    pub fn new(lattice: Arc<Lattice<A>>) -> (r: Self)
        requires
            lattice.wf(),
            lattice.card() * lattice.card() <= max_bits(),
        ensures
            r.wf(),
            r.lattice_of() == *lattice,
    {
        Self::from_transfer_universe(Arc::new(TransferUniverse::new(lattice)))
    }

    /// Constructs the cotransfer universe dual to an existing transfer
    /// universe, which it keeps: lifting classes between the two then come
    /// back to the same universe.
    pub fn from_transfer_universe(transfer_universe: Arc<TransferUniverse<A>>) -> (r: Self)
        requires
            transfer_universe.wf(),
            transfer_universe.lattice_of().card() * transfer_universe.lattice_of().card() <= max_bits(),
        ensures
            r.wf(),
            r.transfer_universe_of() == *transfer_universe,
            r.lattice_of() == transfer_universe.lattice_of(),
    {
        let lattice = arc_clone(transfer_universe.lattice());
        let opposite_lattice = Arc::new(opposite_lattice_with_id_labels(&lattice));
        let opposite_transfer_universe = Arc::new(TransferUniverse::new(arc_clone(&opposite_lattice)));
        let opposite_edges = opposite_transfer_universe.proper_edges();
        let mut proper_edges: Vec<Edge> = Vec::new();
        let mut k: usize = 0;
        while k < opposite_edges.len()
            invariant
                k <= opposite_edges@.len(),
                proper_edges@ == opposite_edges@.subrange(0, k as int).map_values(|e: Edge| reversed(e)),
            decreases opposite_edges@.len() - k,
        {
            proper_edges.push(reverse(opposite_edges[k]));
            k += 1;
            assert(proper_edges@ =~= opposite_edges@.subrange(0, k as int).map_values(|e: Edge| reversed(e)));
        }
        assert(opposite_edges@.subrange(0, k as int) =~= opposite_edges@);
        CotransferUniverse {
            lattice,
            transfer_universe,
            opposite_lattice,
            opposite_transfer_universe,
            proper_edges,
        }
    }

    /// Returns the underlying lattice in its own orientation.
    pub fn lattice(&self) -> (r: &Arc<Lattice<A>>)
        ensures
            **r == self.lattice_of(),
    {
        &self.lattice
    }

    /// Returns the transfer universe dualized by lifting classes.
    pub fn transfer_universe(&self) -> (r: &Arc<TransferUniverse<A>>)
        ensures
            **r == self.transfer_universe_of(),
    {
        &self.transfer_universe
    }

    /// Returns `L^op`, with element ids as labels.
    pub fn opposite_lattice(&self) -> (r: &Arc<Lattice<ElementId>>)
        ensures
            **r == self.opposite_lattice_of(),
    {
        &self.opposite_lattice
    }

    /// Returns the transfer universe on `L^op` that these cotransfer systems
    /// are stored in.
    pub fn opposite_transfer_universe(&self) -> (r: &Arc<TransferUniverse<ElementId>>)
        ensures
            **r == self.opposite_universe_of(),
    {
        &self.opposite_transfer_universe
    }

    /// Returns the proper relations of the lattice, in bit order.
    pub fn proper_edges(&self) -> (r: &[Edge])
        ensures
            r@ == self.edges_of(),
    {
        self.proper_edges.as_slice()
    }
}

/// An owned cotransfer system together with its ambient universe.
#[derive(Debug)]
pub struct CotransferSystem<A> {
    raw: RawCotransferSystem,
    universe: Arc<CotransferUniverse<A>>,
}

impl<A> CotransferSystem<A> {
    /// The universe that interprets this system.
    pub closed spec fn universe_of(&self) -> CotransferUniverse<A> {
        *self.universe
    }

    /// The selected proper relations, one bit per relation of the universe.
    pub closed spec fn bits(&self) -> Seq<bool> {
        self.raw.bits()
    }

    /// The relations of the system, identities included.
    pub open spec fn relations(&self) -> Set<Edge> {
        system_of(self.universe_of().edges_of(), self.bits(), self.universe_of().lattice_of().card())
    }

    /// The relations of the corresponding transfer system on `L^op`.
    pub open spec fn opposite_relations(&self) -> Set<Edge> {
        system_of(
            self.universe_of().opposite_universe_of().edges_of(),
            self.bits(),
            self.universe_of().opposite_lattice_of().card(),
        )
    }

    /// A well-formed cotransfer system: a bit vector of the right length,
    /// closed in the transfer context of the opposite lattice.
    pub open spec fn wf(&self) -> bool {
        &&& self.universe_of().wf()
        &&& self.bits().len() == self.universe_of().opposite_universe_of().edges_of().len()
        &&& is_closed(self.universe_of().opposite_rows(), self.bits().len(), self.bits())
    }
}

/// The relations of a well-formed cotransfer system form a cotransfer
/// system; reversed, they are the relations of the corresponding transfer
/// system on the opposite lattice.
pub proof fn lemma_cotransfer_system_valid<A>(cs: CotransferSystem<A>)
    requires
        cs.wf(),
    ensures
        cs.relations() == reverse_set(cs.opposite_relations()),
        is_transfer_system(cs.universe_of().opposite_lattice_of(), cs.opposite_relations()),
        is_cotransfer_system(cs.universe_of().lattice_of(), cs.relations()),
{
    let u = cs.universe_of();
    let op = u.opposite_lattice_of();
    let p = u.opposite_universe_of().edges_of();
    lemma_reversed_system(p, cs.bits(), op.card());
    lemma_closed_iff_transfer_system(op, p, cs.bits());
    lemma_reverse_twice(cs.opposite_relations());
    lemma_cotransfer_iff_opposite_transfer(u.lattice_of(), op, cs.relations());
}

impl<A> CotransferSystem<A> {
    /// Pairs raw data with the universe that interprets it.
    pub(crate) fn new(raw: RawCotransferSystem, universe: Arc<CotransferUniverse<A>>) -> (r: Self)
        ensures
            r.bits() == raw.bits(),
            r.universe_of() == *universe,
    {
        CotransferSystem { raw, universe }
    }

    /// Returns the raw bit vector representation.
    pub fn raw(&self) -> (r: &RawCotransferSystem)
        ensures
            r.bits() == self.bits(),
    {
        &self.raw
    }

    /// Returns the ambient cotransfer universe.
    pub fn universe(&self) -> (r: &Arc<CotransferUniverse<A>>)
        ensures
            **r == self.universe_of(),
    {
        &self.universe
    }

    /// Returns the underlying lattice.
    pub fn lattice(&self) -> (r: &Arc<Lattice<A>>)
        ensures
            **r == self.universe_of().lattice_of(),
    {
        self.universe.lattice()
    }

    /// Returns whether a relation belongs to this cotransfer system: every
    /// in-range identity does; a non-identity relation does when its bit is
    /// selected; other edges do not.
    pub fn contains_relation(&self, relation: Edge) -> (r: bool)
        requires
            self.wf(),
        ensures
            r == self.relations().contains(relation),
    {
        let ghost p = self.universe_of().edges_of();
        let ghost n = self.universe_of().lattice_of().card();
        if relation.is_identity() {
            return relation.from < self.lattice().size();
        }
        let edges = self.universe.proper_edges();
        let arrows = self.raw.arrows();
        let mut k: usize = 0;
        while k < edges.len()
            invariant
                self.wf(),
                p == self.universe_of().edges_of(),
                edges@ == p,
                arrows@ == self.bits(),
                arrows@.len() == p.len(),
                relation.from != relation.to,
                k <= p.len(),
                forall|q: int| 0 <= q < k ==> #[trigger] p[q] != relation,
            decreases p.len() - k,
        {
            if edges[k] == relation {
                let b = arrows.bit(k);
                proof {
                    if self.relations().contains(relation) {
                        let q = choose|q: int| 0 <= q < p.len() && #[trigger] p[q] == relation && self.bits()[q];
                        assert(q >= k);
                        if q > k {
                            assert(p.no_duplicates()) by {
                                let o = self.universe_of().opposite_universe_of().edges_of();
                                assert(o.no_duplicates());
                                assert forall|i: int, j: int| 0 <= i < p.len() && 0 <= j < p.len() && i != j implies p[i] != p[j] by {
                                    assert(p[i] == reversed(o[i]) && p[j] == reversed(o[j]));
                                    assert(o[i] != o[j]);
                                }
                            }
                        }
                    }
                }
                return b;
            }
            k += 1;
        }
        false
    }

    /// Returns the relations of this cotransfer system, with the
    /// identities `x <= x` when `include_identities` holds.
    pub fn edges(&self, include_identities: bool) -> (r: EdgeSet)
        requires
            self.wf(),
        ensures
            forall|e: Edge| #[trigger] r@.contains(e) <==> (self.relations().contains(e) && (include_identities || e.from != e.to)),
    {
        let ghost p = self.universe_of().edges_of();
        let ghost n = self.universe_of().lattice_of().card();
        let mut result = EdgeSet::new();
        if include_identities {
            let size = self.lattice().size();
            let mut id: usize = 0;
            while id < size
                invariant
                    size == n,
                    id <= size,
                    forall|e: Edge| #[trigger] result@.contains(e) <==> (e.from == e.to && e.from < id),
                decreases size - id,
            {
                result.insert(Edge::new(id, id));
                id += 1;
            }
        }
        let edges = self.universe.proper_edges();
        let arrows = self.raw.arrows();
        let mut k: usize = 0;
        while k < edges.len()
            invariant
                self.wf(),
                p == self.universe_of().edges_of(),
                n == self.universe_of().lattice_of().card(),
                edges@ == p,
                arrows@ == self.bits(),
                arrows@.len() == p.len(),
                k <= p.len(),
                forall|e: Edge| #[trigger] result@.contains(e) <==> ((include_identities && e.from == e.to && e.from < n) || exists|q: int| 0 <= q < k && p[q] == e && arrows@[q]),
            decreases p.len() - k,
        {
            if arrows.bit(k) {
                result.insert(edges[k]);
            }
            k += 1;
        }
        proof {
            let o = self.universe_of().opposite_universe_of().edges_of();
            assert forall|e: Edge| #[trigger] result@.contains(e) <==> (self.relations().contains(e) && (include_identities || e.from != e.to)) by {
                if exists|q: int| 0 <= q < p.len() && p[q] == e && arrows@[q] {
                    let q = choose|q: int| 0 <= q < p.len() && p[q] == e && arrows@[q];
                    assert(p[q] == reversed(o[q]));
                    assert(o[q].from != o[q].to);
                    assert(self.relations().contains(e));
                }
                if self.relations().contains(e) && (include_identities || e.from != e.to) {
                    if !(e.from == e.to && e.from < n) {
                        let q = choose|q: int| 0 <= q < p.len() && #[trigger] p[q] == e && self.bits()[q];
                    }
                }
            }
        }
        result
    }

    /// Returns the corresponding transfer system on `L^op`: the same bits,
    /// read in the opposite universe.  This realizes the isomorphism
    /// `coTr(L) ~= Tr(L^op)`.
    pub fn opposite_transfer_system(&self) -> (r: TransferSystem<ElementId>)
        requires
            self.wf(),
        ensures
            r.wf(),
            r.universe_of() == self.universe_of().opposite_universe_of(),
            r.relations() == self.opposite_relations(),
            self.relations() == reverse_set(r.relations()),
    {
        proof {
            lemma_cotransfer_system_valid(*self);
        }
        TransferSystem::new(
            RawTransferSystem::new(self.raw.arrows().duplicate()),
            arc_clone(self.universe.opposite_transfer_universe()),
        )
    }
}

impl<A> Clone for CotransferSystem<A> {
    fn clone(&self) -> (r: Self)
        ensures
            r.bits() == self.bits(),
            r.universe_of() == self.universe_of(),
    {
        CotransferSystem::new(self.raw.clone(), arc_clone(&self.universe))
    }
}

impl<A> CotransferUniverse<A> {
    /// Constructs the least cotransfer system containing `generators`.
    ///
    /// Every generator must lie in the lattice and be a relation of its
    /// order; the first one that does not is reported.
    pub fn generated_by(self: &Arc<Self>, generators: Vec<Edge>) -> (r: Result<CotransferSystem<A>, CotransferSystemError>)
        requires
            self.wf(),
        ensures
            match r {
                Ok(cs) => {
                    &&& cs.wf()
                    &&& cs.universe_of() == **self
                    &&& is_cotransfer_system(self.lattice_of(), cs.relations())
                    &&& forall|k: int| 0 <= k < generators@.len() ==> cs.relations().contains(#[trigger] generators@[k])
                    &&& forall|q: Set<Edge>| #[trigger] is_cotransfer_system(self.lattice_of(), q) && (forall|k: int|
                        0 <= k < generators@.len() ==> q.contains(#[trigger] generators@[k])) ==> cs.relations().subset_of(q)
                },
                Err(CotransferSystemError::EdgeOutOfBounds { edge, lattice_size }) => {
                    &&& lattice_size == self.lattice_of().card()
                    &&& (edge.from >= lattice_size || edge.to >= lattice_size)
                    &&& exists|k: int| 0 <= k < generators@.len() && generators@[k] == edge && forall|j: int|
                        0 <= j < k ==> #[trigger] cogenerator_ok(self.lattice_of(), generators@[j])
                },
                Err(CotransferSystemError::NotLatticeRelation { edge }) => {
                    &&& edge.from < self.lattice_of().card()
                    &&& edge.to < self.lattice_of().card()
                    &&& !self.lattice_of().le(edge.from as int, edge.to as int)
                    &&& exists|k: int| 0 <= k < generators@.len() && generators@[k] == edge && forall|j: int|
                        0 <= j < k ==> #[trigger] cogenerator_ok(self.lattice_of(), generators@[j])
                },
                Err(_) => false,
            },
    {
        let ghost l = self.lattice_of();
        let ghost op = self.opposite_lattice_of();
        let lattice_size = self.lattice.size();
        let mut reversed_generators: Vec<Edge> = Vec::new();
        let mut k: usize = 0;
        while k < generators.len()
            invariant
                self.wf(),
                l == self.lattice_of(),
                op == self.opposite_lattice_of(),
                lattice_size == l.card(),
                k <= generators@.len(),
                reversed_generators@.len() == k,
                forall|j: int| 0 <= j < k ==> #[trigger] cogenerator_ok(l, generators@[j]),
                forall|j: int| 0 <= j < k ==> #[trigger] reversed_generators@[j] == reversed(generators@[j]),
            decreases generators@.len() - k,
        {
            let edge = generators[k];
            if edge.from >= lattice_size || edge.to >= lattice_size {
                return Err(CotransferSystemError::EdgeOutOfBounds { edge, lattice_size });
            }
            if !self.lattice.leq(edge.from, edge.to) {
                return Err(CotransferSystemError::NotLatticeRelation { edge });
            }
            reversed_generators.push(reverse(edge));
            k += 1;
        }
        let ghost rg = reversed_generators@;
        proof {
            assert forall|j: int| 0 <= j < rg.len() implies #[trigger] generator_ok(op, rg[j]) by {
                assert(cogenerator_ok(l, generators@[j]));
                assert(op.le(rg[j].from as int, rg[j].to as int) == l.le(generators@[j].from as int, generators@[j].to as int));
            }
        }
        match self.opposite_transfer_universe.generated_by(reversed_generators) {
            Ok(ts) => {
                let cs = CotransferSystem::new(
                    RawCotransferSystem::new(ts.raw().arrows().duplicate()),
                    arc_clone(self),
                );
                proof {
                    lemma_cotransfer_system_valid(cs);
                    assert(cs.opposite_relations() == ts.relations());
                    assert forall|g: int| 0 <= g < generators@.len() implies cs.relations().contains(#[trigger] generators@[g]) by {
                        assert(ts.relations().contains(rg[g]));
                        assert(reversed(rg[g]) == generators@[g]);
                    }
                    assert forall|q: Set<Edge>| #[trigger] is_cotransfer_system(l, q) && (forall|g: int|
                        0 <= g < generators@.len() ==> q.contains(#[trigger] generators@[g])) implies cs.relations().subset_of(q) by {
                        lemma_cotransfer_iff_opposite_transfer(l, op, q);
                        assert forall|g: int| 0 <= g < rg.len() implies reverse_set(q).contains(#[trigger] rg[g]) by {
                            assert(q.contains(generators@[g]));
                            assert(reversed(rg[g]) == generators@[g]);
                        }
                        assert(is_transfer_system(op, reverse_set(q)));
                        assert(ts.relations().subset_of(reverse_set(q)));
                        lemma_reverse_twice(q);
                        assert forall|e: Edge| cs.relations().contains(e) implies q.contains(e) by {
                            assert(ts.relations().contains(reversed(e)));
                            assert(reverse_set(q).contains(reversed(e)));
                        }
                    }
                }
                Ok(cs)
            },
            Err(e) => {
                proof {
                    match e {
                        TransferSystemError::EdgeOutOfBounds { edge, lattice_size } => {
                            let k = choose|k: int| 0 <= k < rg.len() && rg[k] == edge && forall|j: int|
                                0 <= j < k ==> #[trigger] generator_ok(op, rg[j]);
                            assert(generator_ok(op, rg[k]));
                        },
                        TransferSystemError::NotLatticeRelation { edge } => {
                            let k = choose|k: int| 0 <= k < rg.len() && rg[k] == edge && forall|j: int|
                                0 <= j < k ==> #[trigger] generator_ok(op, rg[j]);
                            assert(generator_ok(op, rg[k]));
                        },
                        _ => {},
                    }
                }
                Err(CotransferSystemError::from(e))
            },
        }
    }
}

impl<A> CotransferUniverse<A> {
    /// Validates raw data and pairs it with this universe: the vector must
    /// have one bit per proper relation and already be closed under the
    /// cotransfer-system axioms.
    pub fn try_from_raw(self: &Arc<Self>, raw: RawCotransferSystem) -> (r: Result<CotransferSystem<A>, CotransferSystemError>)
        requires
            self.wf(),
        ensures
            match r {
                Ok(cs) => cs.wf() && cs.universe_of() == **self && cs.bits() == raw.bits(),
                Err(CotransferSystemError::WrongArrowCount { expected, actual }) => expected == self.edges_of().len()
                    && actual == raw.bits().len() && expected != actual,
                Err(CotransferSystemError::RawNotClosed) => raw.bits().len() == self.edges_of().len()
                    && !is_cotransfer_system(self.lattice_of(), system_of(self.edges_of(), raw.bits(), self.lattice_of().card())),
                Err(_) => false,
            },
    {
        let ghost u = shared_value(self);
        let ghost p = u.opposite_universe_of().edges_of();
        let opposite_raw = RawTransferSystem::new(raw.arrows().duplicate());
        match self.opposite_transfer_universe.try_from_raw(opposite_raw) {
            Ok(_) => {
                let cs = CotransferSystem::new(raw, arc_clone(self));
                proof {
                    lemma_closed_iff_transfer_system(u.opposite_lattice_of(), p, cs.bits());
                }
                Ok(cs)
            },
            Err(e) => {
                proof {
                    if e == TransferSystemError::RawNotClosed {
                        let n = u.lattice_of().card();
                        lemma_reversed_system(p, raw.bits(), n);
                        lemma_reverse_twice(system_of(p, raw.bits(), n));
                        lemma_cotransfer_iff_opposite_transfer(u.lattice_of(), u.opposite_lattice_of(), system_of(u.edges_of(), raw.bits(), n));
                    }
                }
                Err(CotransferSystemError::from(e))
            },
        }
    }

    /// Converts a transfer system on the opposite lattice of this universe
    /// to the cotransfer system of the reversed relations.  The system must
    /// belong to this universe's opposite transfer universe (the same shared
    /// handle); a system of another universe is answered `LatticeMismatch`.
    pub fn from_opposite_transfer_system(self: &Arc<Self>, opposite: &TransferSystem<ElementId>) -> (r: Result<CotransferSystem<A>, CotransferSystemError>)
        requires
            self.wf(),
            opposite.wf(),
        ensures
            r is Ok || r == Err::<CotransferSystem<A>, CotransferSystemError>(CotransferSystemError::LatticeMismatch),
            opposite.universe_of() != self.opposite_universe_of() ==> r == Err::<CotransferSystem<A>, CotransferSystemError>(
                CotransferSystemError::LatticeMismatch,
            ),
            r matches Ok(cs) ==> {
                &&& cs.wf()
                &&& cs.universe_of() == **self
                &&& opposite.universe_of() == self.opposite_universe_of()
                &&& cs.relations() == reverse_set(opposite.relations())
            },
    {
        if !arc_ptr_eq(&self.opposite_transfer_universe, opposite.universe()) {
            return Err(CotransferSystemError::LatticeMismatch);
        }
        Ok(self.from_opposite_in_universe(opposite))
    }

    /// Converts a transfer system of this universe's opposite transfer
    /// universe to the cotransfer system of the reversed relations.
    pub fn from_opposite_in_universe(self: &Arc<Self>, opposite: &TransferSystem<ElementId>) -> (r: CotransferSystem<A>)
        requires
            self.wf(),
            opposite.wf(),
            opposite.universe_of() == self.opposite_universe_of(),
        ensures
            r.wf(),
            r.universe_of() == **self,
            r.relations() == reverse_set(opposite.relations()),
    {
        let ghost u = shared_value(self);
        let ghost l = u.lattice_of();
        let ghost op = u.opposite_lattice_of();
        let ghost t = opposite.relations();
        let proper_set = opposite.edges(false);
        let proper = proper_set.to_vec();
        let mut generators: Vec<Edge> = Vec::new();
        let mut k: usize = 0;
        while k < proper.len()
            invariant
                k <= proper@.len(),
                generators@.len() == k,
                forall|j: int| 0 <= j < k ==> #[trigger] generators@[j] == reversed(proper@[j]),
            decreases proper@.len() - k,
        {
            generators.push(reverse(proper[k]));
            k += 1;
        }
        proof {
            lemma_transfer_system_valid(*opposite);
            lemma_cotransfer_iff_opposite_transfer(l, op, reverse_set(t));
            lemma_reverse_twice(t);
        }
        let result = self.generated_by(generators);
        let ghost outcome = result;
        proof {
            match outcome {
                Ok(cs) => {
                    assert forall|j: int| 0 <= j < generators@.len() implies reverse_set(t).contains(#[trigger] generators@[j]) by {
                        assert(proper@.to_set().contains(proper@[j]));
                        assert(proper_set@.contains(proper@[j]));
                        assert(reversed(generators@[j]) == proper@[j]);
                    }
                    assert(cs.relations().subset_of(reverse_set(t)));
                    assert forall|e: Edge| reverse_set(t).contains(e) implies cs.relations().contains(e) by {
                        lemma_cotransfer_system_valid(cs);
                        if e.from == e.to {
                            crate::transfer_theory::lemma_ts_order(op, t, reversed(e));
                        } else {
                            assert(proper_set@.contains(reversed(e)));
                            assert(proper@.to_set().contains(reversed(e)));
                            let j = choose|j: int| 0 <= j < proper@.len() && proper@[j] == reversed(e);
                            assert(generators@[j] == e);
                        }
                    }
                    assert(cs.relations() =~= reverse_set(t));
                },
                Err(CotransferSystemError::EdgeOutOfBounds { edge, lattice_size }) => {
                    let j = choose|j: int| 0 <= j < generators@.len() && generators@[j] == edge && forall|i: int|
                        0 <= i < j ==> #[trigger] cogenerator_ok(l, generators@[i]);
                    assert(proper@.to_set().contains(proper@[j]));
                    assert(proper_set@.contains(proper@[j]));
                    crate::transfer_theory::lemma_ts_order(op, t, proper@[j]);
                },
                Err(CotransferSystemError::NotLatticeRelation { edge }) => {
                    let j = choose|j: int| 0 <= j < generators@.len() && generators@[j] == edge && forall|i: int|
                        0 <= i < j ==> #[trigger] cogenerator_ok(l, generators@[i]);
                    assert(proper@.to_set().contains(proper@[j]));
                    assert(proper_set@.contains(proper@[j]));
                    crate::transfer_theory::lemma_ts_order(op, t, proper@[j]);
                    assert(op.le(proper@[j].from as int, proper@[j].to as int));
                },
                _ => {},
            }
        }
        match result {
            Ok(cs) => cs,
            Err(_) => vstd::pervasive::unreached(),
        }
    }

    /// Forms the left lifting class of a transfer system of this universe
    /// as a cotransfer system: the least cotransfer system containing it.
    /// A system of another universe (not the same shared handle) is
    /// answered `LatticeMismatch`.
    pub fn left_lifting_of(self: &Arc<Self>, right: &TransferSystem<A>) -> (r: Result<CotransferSystem<A>, CotransferSystemError>)
        requires
            self.wf(),
            right.wf(),
        ensures
            r is Ok || r == Err::<CotransferSystem<A>, CotransferSystemError>(CotransferSystemError::LatticeMismatch),
            right.universe_of() != self.transfer_universe_of() ==> r == Err::<CotransferSystem<A>, CotransferSystemError>(
                CotransferSystemError::LatticeMismatch,
            ),
            r matches Ok(cs) ==> {
                &&& cs.wf()
                &&& cs.universe_of() == **self
                &&& right.universe_of() == self.transfer_universe_of()
                &&& cs.relations() == left_lifting_class(self.lattice_of().order(), self.lattice_of().card(), right.relations())
            },
    {
        if !arc_ptr_eq(&self.transfer_universe, right.universe()) {
            return Err(CotransferSystemError::LatticeMismatch);
        }
        Ok(self.left_lifting_in_universe(right))
    }

    /// The left lifting class of a transfer system of this universe's
    /// transfer universe, as a cotransfer system.
    pub fn left_lifting_in_universe(self: &Arc<Self>, right: &TransferSystem<A>) -> (r: CotransferSystem<A>)
        requires
            self.wf(),
            right.wf(),
            right.universe_of() == self.transfer_universe_of(),
        ensures
            r.wf(),
            r.universe_of() == **self,
            r.relations() == left_lifting_class(self.lattice_of().order(), self.lattice_of().card(), right.relations()),
    {
        let ghost l = self.lattice_of();
        let ghost class = left_lifting_class(l.order(), l.card(), right.relations());
        let relations = right.edges(true);
        proof {
            lemma_transfer_system_valid(*right);
            assert forall|f: Edge| #[trigger] relations@.contains(f) && f.from != f.to implies f.from < l.card() && f.to < l.card() by {
                crate::transfer_theory::lemma_ts_order(l, right.relations(), f);
            }
            assert(relations@ =~= right.relations());
        }
        let arrows = self.lattice.as_poset().llc(&relations).to_vec();
        let result = self.generated_by(arrows);
        let ghost outcome = result;
        proof {
            assert(arrows@.to_set() == class);
            match outcome {
                Ok(cs) => {
                    assert forall|e: Edge| class.contains(e) implies cs.relations().contains(e) by {
                        assert(arrows@.to_set().contains(e));
                        let j = choose|j: int| 0 <= j < arrows@.len() && arrows@[j] == e;
                        assert(cs.relations().contains(arrows@[j]));
                    }
                    lemma_left_lifting_class_is_cotransfer(l, right.relations());
                    assert forall|j: int| 0 <= j < arrows@.len() implies class.contains(#[trigger] arrows@[j]) by {
                        assert(arrows@.to_set().contains(arrows@[j]));
                    }
                    assert(cs.relations().subset_of(class));
                    assert(cs.relations() =~= class);
                },
                Err(CotransferSystemError::EdgeOutOfBounds { edge, lattice_size }) => {
                    let j = choose|j: int| 0 <= j < arrows@.len() && arrows@[j] == edge && forall|i: int|
                        0 <= i < j ==> #[trigger] cogenerator_ok(l, arrows@[i]);
                    assert(arrows@.to_set().contains(arrows@[j]));
                },
                Err(CotransferSystemError::NotLatticeRelation { edge }) => {
                    let j = choose|j: int| 0 <= j < arrows@.len() && arrows@[j] == edge && forall|i: int|
                        0 <= i < j ==> #[trigger] cogenerator_ok(l, arrows@[i]);
                    assert(arrows@.to_set().contains(arrows@[j]));
                },
                _ => {},
            }
        }
        match result {
            Ok(cs) => cs,
            Err(_) => vstd::pervasive::unreached(),
        }
    }

    /// Enumerates all cotransfer systems on the lattice, each once.
    pub fn cotransfer_systems(self: &Arc<Self>) -> (r: Vec<CotransferSystem<A>>)
        requires
            self.wf(),
        ensures
            forall|i: int| 0 <= i < r@.len() ==> (#[trigger] r@[i]).wf() && r@[i].universe_of() == **self,
            forall|i: int, j: int| 0 <= i < j < r@.len() ==> (#[trigger] r@[i]).relations() != (#[trigger] r@[j]).relations(),
            forall|q: Set<Edge>| #[trigger] is_cotransfer_system(self.lattice_of(), q) ==> exists|i: int| 0 <= i < r@.len() && (#[trigger] r@[i]).relations() == q,
    {
        let ghost u = shared_value(self);
        let ghost l = u.lattice_of();
        let ghost op = u.opposite_lattice_of();
        let opposites = self.opposite_transfer_universe.transfer_systems();
        let mut result: Vec<CotransferSystem<A>> = Vec::new();
        let mut i: usize = 0;
        while i < opposites.len()
            invariant
                self.wf(),
                u == **self,
                i <= opposites@.len(),
                result@.len() == i,
                forall|k: int| 0 <= k < opposites@.len() ==> (#[trigger] opposites@[k]).wf() && opposites@[k].universe_of() == u.opposite_universe_of(),
                forall|k: int| 0 <= k < i ==> (#[trigger] result@[k]).wf() && result@[k].universe_of() == u && result@[k].opposite_relations() == opposites@[k].relations(),
            decreases opposites@.len() - i,
        {
            let cs = CotransferSystem::new(
                RawCotransferSystem::new(opposites[i].raw().arrows().duplicate()),
                arc_clone(self),
            );
            result.push(cs);
            i += 1;
        }
        proof {
            assert forall|i: int, j: int| 0 <= i < j < result@.len() implies (#[trigger] result@[i]).relations() != (#[trigger] result@[j]).relations() by {
                lemma_cotransfer_system_valid(result@[i]);
                lemma_cotransfer_system_valid(result@[j]);
                if result@[i].relations() == result@[j].relations() {
                    lemma_reverse_twice(opposites@[i].relations());
                    lemma_reverse_twice(opposites@[j].relations());
                    assert(opposites@[i].relations() == opposites@[j].relations());
                }
            }
            assert forall|q: Set<Edge>| #[trigger] is_cotransfer_system(l, q) implies exists|i: int| 0 <= i < result@.len() && (#[trigger] result@[i]).relations() == q by {
                lemma_cotransfer_iff_opposite_transfer(l, op, q);
                assert(is_transfer_system(u.opposite_universe_of().lattice_of(), reverse_set(q)));
                let i = choose|i: int| 0 <= i < opposites@.len() && (#[trigger] opposites@[i]).relations() == reverse_set(q);
                lemma_cotransfer_system_valid(result@[i]);
                lemma_reverse_twice(q);
                assert(result@[i].relations() == q);
            }
        }
        result
    }
}

/// The bits of each raw cotransfer system of a list.
pub open spec fn raw_cotransfer_bits(systems: Seq<RawCotransferSystem>) -> Seq<Seq<bool>> {
    Seq::new(systems.len(), |i: int| systems[i].bits())
}

/// The lattice of cotransfer systems ordered by containment.
#[derive(Debug)]
pub struct CotransferLattice<A> {
    universe: Arc<CotransferUniverse<A>>,
    lattice: Lattice<RawCotransferSystem>,
}

impl<A> CotransferLattice<A> {
    /// The universe shared by all systems of the lattice.
    pub closed spec fn universe_of(&self) -> CotransferUniverse<A> {
        *self.universe
    }

    /// The lattice whose labels are the raw systems.
    pub closed spec fn lattice_of(&self) -> Lattice<RawCotransferSystem> {
        self.lattice
    }

    /// The bits of the system with each element id.
    pub open spec fn system_bits(&self) -> Seq<Seq<bool>> {
        raw_cotransfer_bits(self.lattice_of().labels())
    }

    /// A well-formed containment lattice: every cotransfer system once,
    /// ordered by inclusion.
    pub open spec fn wf(&self) -> bool {
        &&& self.universe_of().wf()
        &&& self.lattice_of().wf()
        &&& lists_closed_sets(
            self.universe_of().opposite_rows(),
            self.universe_of().opposite_universe_of().edges_of().len(),
            self.system_bits(),
        )
        &&& forall|i: int, j: int|
            0 <= i < self.lattice_of().card() && 0 <= j < self.lattice_of().card() ==> #[trigger] self.lattice_of().le(i, j)
                == subset_bits(self.system_bits()[i], self.system_bits()[j])
    }

    /// Returns the universe shared by all systems in this lattice.
    pub fn universe(&self) -> (r: &Arc<CotransferUniverse<A>>)
        ensures
            **r == self.universe_of(),
    {
        &self.universe
    }

    /// Returns the raw containment lattice.
    pub fn raw_lattice(&self) -> (r: &Lattice<RawCotransferSystem>)
        ensures
            *r == self.lattice_of(),
    {
        &self.lattice
    }

    /// Returns the underlying containment poset.
    pub fn as_poset(&self) -> (r: &Poset<RawCotransferSystem>)
        ensures
            *r == self.lattice_of().poset_of(),
    {
        self.lattice.as_poset()
    }

    /// Returns the number of cotransfer systems.
    pub fn size(&self) -> (r: usize)
        requires
            self.wf(),
        ensures
            r == self.lattice_of().card(),
    {
        self.lattice.size()
    }

    proof fn lemma_bounds(&self, i: int, j: int, k: int)
        requires
            self.wf(),
            0 <= i < self.lattice_of().card(),
            0 <= j < self.lattice_of().card(),
            0 <= k < self.lattice_of().card(),
        ensures
            is_meet(self.lattice_of().order(), self.lattice_of().card(), i, j, k) <==> self.system_bits()[k] == meet_bits(self.system_bits()[i], self.system_bits()[j]),
            is_join(self.lattice_of().order(), self.lattice_of().card(), i, j, k) <==> self.system_bits()[k] == closure_of(
                self.universe_of().opposite_rows(),
                self.universe_of().opposite_universe_of().edges_of().len(),
                join_bits(self.system_bits()[i], self.system_bits()[j]),
            ),
    {
        let u = self.universe_of();
        let rows = u.opposite_rows();
        let cols = u.opposite_universe_of().edges_of().len();
        assert forall|a: int| 0 <= a < rows.len() implies (#[trigger] rows[a]).len() == cols by {}
        let ord = self.lattice_of().order();
        let labels = self.system_bits();
        assert forall|a: int, b: int| 0 <= a < labels.len() && 0 <= b < labels.len() implies #[trigger] ord[a][b] == subset_bits(labels[a], labels[b]) by {
            assert(self.lattice_of().le(a, b) == subset_bits(labels[a], labels[b]));
        }
        lemma_closed_sets_lattice(rows, cols, labels, ord);
    }

    /// Returns the meet of two cotransfer systems by id: their intersection.
    pub fn meet_id(&self, left: ElementId, right: ElementId) -> (r: ElementId)
        requires
            self.wf(),
            left < self.lattice_of().card(),
            right < self.lattice_of().card(),
        ensures
            r < self.lattice_of().card(),
            self.system_bits()[r as int] == meet_bits(self.system_bits()[left as int], self.system_bits()[right as int]),
    {
        let r = self.lattice.meet_id(left, right);
        proof {
            self.lemma_bounds(left as int, right as int, r as int);
        }
        r
    }

    /// Returns the join of two cotransfer systems by id: the closure of
    /// their union.
    pub fn join_id(&self, left: ElementId, right: ElementId) -> (r: ElementId)
        requires
            self.wf(),
            left < self.lattice_of().card(),
            right < self.lattice_of().card(),
        ensures
            r < self.lattice_of().card(),
            self.system_bits()[r as int] == closure_of(
                self.universe_of().opposite_rows(),
                self.universe_of().opposite_universe_of().edges_of().len(),
                join_bits(self.system_bits()[left as int], self.system_bits()[right as int]),
            ),
    {
        let r = self.lattice.join_id(left, right);
        proof {
            self.lemma_bounds(left as int, right as int, r as int);
        }
        r
    }

    /// Returns the bottom cotransfer system id.
    pub fn bottom(&self) -> (r: ElementId)
        requires
            self.wf(),
        ensures
            r == self.lattice_of().bottom_of(),
    {
        self.lattice.bottom()
    }

    /// Returns the top cotransfer system id.
    pub fn top(&self) -> (r: ElementId)
        requires
            self.wf(),
        ensures
            r == self.lattice_of().top_of(),
    {
        self.lattice.top()
    }

    /// Returns a cotransfer system by element id.
    pub fn system(&self, id: ElementId) -> (r: Option<CotransferSystem<A>>)
        requires
            self.wf(),
        ensures
            match r {
                Some(cs) => id < self.lattice_of().card() && cs.wf() && cs.universe_of() == self.universe_of()
                    && cs.bits() == self.system_bits()[id as int],
                None => id >= self.lattice_of().card(),
            },
    {
        match self.lattice.element(id) {
            Some(raw) => {
                assert(self.system_bits()[id as int] == raw.bits());
                Some(CotransferSystem::new(raw.clone(), arc_clone(&self.universe)))
            },
            None => None,
        }
    }

    /// Lists all cotransfer systems in element-id order.
    pub fn systems(&self) -> (r: Vec<CotransferSystem<A>>)
        requires
            self.wf(),
        ensures
            r@.len() == self.lattice_of().card(),
            forall|i: int| 0 <= i < r@.len() ==> (#[trigger] r@[i]).wf() && r@[i].universe_of() == self.universe_of()
                && r@[i].bits() == self.system_bits()[i],
    {
        let elements = self.lattice.elements();
        let mut result: Vec<CotransferSystem<A>> = Vec::new();
        let mut i: usize = 0;
        while i < elements.len()
            invariant
                self.wf(),
                elements@ == self.lattice_of().labels(),
                i <= elements@.len(),
                result@.len() == i,
                forall|k: int| 0 <= k < i ==> (#[trigger] result@[k]).wf() && result@[k].universe_of() == self.universe_of()
                    && result@[k].bits() == self.system_bits()[k],
            decreases elements@.len() - i,
        {
            assert(self.system_bits()[i as int] == elements@[i as int].bits());
            result.push(CotransferSystem::new(elements[i].clone(), arc_clone(&self.universe)));
            i += 1;
        }
        result
    }

    /// Relabels the raw lattice by user-facing cotransfer systems.
    pub fn to_system_lattice(&self) -> (r: Lattice<CotransferSystem<A>>)
        requires
            self.wf(),
        ensures
            r.wf(),
            r.order() == self.lattice_of().order(),
            r.card() == self.lattice_of().card(),
            r.bottom_of() == self.lattice_of().bottom_of(),
            r.top_of() == self.lattice_of().top_of(),
            forall|i: int| 0 <= i < r.card() ==> (#[trigger] r.labels()[i]).wf() && r.labels()[i].universe_of() == self.universe_of()
                && r.labels()[i].bits() == self.system_bits()[i],
    {
        let universe = &self.universe;
        let ghost u = self.universe_of();
        let f = |raw: &RawCotransferSystem| -> (cs: CotransferSystem<A>)
            requires
                universe.wf(),
            ensures
                cs.bits() == raw.bits() && cs.universe_of() == **universe && (raw.bits().len()
                    == universe.opposite_universe_of().edges_of().len() && is_closed(
                    universe.opposite_rows(),
                    raw.bits().len(),
                    raw.bits(),
                ) ==> cs.wf()),
            { CotransferSystem::new(raw.clone(), arc_clone(universe)) };
        let r = self.lattice.relabelled(f);
        proof {
            assert forall|i: int| 0 <= i < r.card() implies (#[trigger] r.labels()[i]).wf() && r.labels()[i].universe_of() == u
                && r.labels()[i].bits() == self.system_bits()[i] by {
                assert(self.system_bits()[i] == self.lattice_of().labels()[i].bits());
            }
        }
        r
    }

    /// Relabels the containment poset by user-facing cotransfer systems.
    pub fn to_system_poset(&self) -> (r: Poset<CotransferSystem<A>>)
        requires
            self.wf(),
        ensures
            r.wf(),
            r.order() == self.lattice_of().order(),
            r.card() == self.lattice_of().card(),
            forall|i: int| 0 <= i < r.card() ==> (#[trigger] r.labels()[i]).wf() && r.labels()[i].universe_of() == self.universe_of()
                && r.labels()[i].bits() == self.system_bits()[i],
    {
        let universe = &self.universe;
        let ghost u = self.universe_of();
        let f = |raw: &RawCotransferSystem| -> (cs: CotransferSystem<A>)
            requires
                universe.wf(),
            ensures
                cs.bits() == raw.bits() && cs.universe_of() == **universe && (raw.bits().len()
                    == universe.opposite_universe_of().edges_of().len() && is_closed(
                    universe.opposite_rows(),
                    raw.bits().len(),
                    raw.bits(),
                ) ==> cs.wf()),
            { CotransferSystem::new(raw.clone(), arc_clone(universe)) };
        let r = self.lattice.as_poset().relabelled(f);
        proof {
            assert forall|i: int| 0 <= i < r.card() implies (#[trigger] r.labels()[i]).wf() && r.labels()[i].universe_of() == u
                && r.labels()[i].bits() == self.system_bits()[i] by {
                assert(self.system_bits()[i] == self.lattice_of().labels()[i].bits());
            }
        }
        r
    }
}

impl<A> CotransferUniverse<A> {
    /// Constructs the lattice of cotransfer systems ordered by containment.
    pub fn containment_lattice(self: &Arc<Self>) -> (r: Result<CotransferLattice<A>, CotransferError>)
        requires
            self.wf(),
            transfer_systems_on(self.opposite_lattice_of()).len() <= max_bits(),
        ensures
            r matches Ok(cl) && cl.wf() && cl.universe_of() == **self,
    {
        let ghost u = shared_value(self);
        let opposite = self.opposite_transfer_universe.containment_lattice();
        let opposite = match opposite {
            Ok(tl) => tl,
            Err(e) => {
                return Err(e);
            },
        };
        let ghost tl = opposite;
        let f = |raw: &RawTransferSystem| -> (c: RawCotransferSystem)
            ensures
                c.bits() == raw.bits(),
            { RawCotransferSystem::new(raw.arrows().duplicate()) };
        let lattice = opposite.raw_lattice().relabelled(f);
        proof {
            assert(raw_cotransfer_bits(lattice.labels()) =~= tl.system_bits()) by {
                assert forall|i: int| 0 <= i < lattice.card() implies #[trigger] raw_cotransfer_bits(lattice.labels())[i]
                    == tl.system_bits()[i] by {
                    assert(tl.system_bits()[i] == tl.lattice_of().labels()[i].bits());
                }
            }
            assert forall|i: int, j: int| 0 <= i < lattice.card() && 0 <= j < lattice.card() implies #[trigger] lattice.le(i, j)
                == subset_bits(raw_cotransfer_bits(lattice.labels())[i], raw_cotransfer_bits(lattice.labels())[j]) by {
                assert(tl.lattice_of().le(i, j) == subset_bits(tl.system_bits()[i], tl.system_bits()[j]));
            }
        }
        Ok(CotransferLattice { universe: arc_clone(self), lattice })
    }
}

impl<A> Lattice<A> {
    /// Builds the shared universe for cotransfer systems on this lattice.
    pub fn cotransfer_universe(self: Arc<Self>) -> (r: Arc<CotransferUniverse<A>>)
        requires
            self.wf(),
            self.card() * self.card() <= max_bits(),
        ensures
            r.wf(),
            r.lattice_of() == *self,
    {
        Arc::new(CotransferUniverse::new(self))
    }

    /// Constructs the containment lattice of cotransfer systems: the
    /// containment lattice of transfer systems on the opposite lattice,
    /// with the relations reversed.
    pub fn cotransfer_systems_containment(self: Arc<Self>) -> (r: Result<CotransferLattice<A>, CotransferError>)
        requires
            self.wf(),
            self.card() * self.card() <= max_bits(),
            forall|op: Lattice<ElementId>| #[trigger] is_opposite(op, *self) ==> transfer_systems_on(op).len() <= max_bits(),
        ensures
            r matches Ok(cl) && cl.wf() && cl.universe_of().lattice_of() == *self,
    {
        let universe = self.cotransfer_universe();
        proof {
            assert(is_opposite(universe.opposite_lattice_of(), *self));
        }
        universe.containment_lattice()
    }
}

impl<A> CotransferSystem<A> {
    /// Forms this cotransfer system's right lifting class: the least
    /// transfer system containing it, in the transfer universe the
    /// cotransfer universe is dual to.
    pub fn right_lifting_transfer(&self) -> (r: Result<TransferSystem<A>, CotransferSystemError>)
        requires
            self.wf(),
        ensures
            r matches Ok(ts) && {
                &&& ts.wf()
                &&& ts.universe_of() == self.universe_of().transfer_universe_of()
                &&& ts.relations() == right_lifting_class(self.universe_of().lattice_of().order(), self.universe_of().lattice_of().card(), self.relations())
            },
    {
        let ghost u = self.universe_of();
        let ghost l = u.lattice_of();
        let ghost class = right_lifting_class(l.order(), l.card(), self.relations());
        let relations = self.edges(true);
        proof {
            lemma_cotransfer_system_valid(*self);
            assert(relations@ =~= self.relations());
        }
        let arrows = self.lattice().as_poset().rlc(&relations).to_vec();
        let result = self.universe.transfer_universe().generated_by(arrows);
        let ghost outcome = result;
        proof {
            assert(arrows@.to_set() == class);
            match outcome {
                Ok(ts) => {
                    assert forall|e: Edge| class.contains(e) implies ts.relations().contains(e) by {
                        assert(arrows@.to_set().contains(e));
                        let j = choose|j: int| 0 <= j < arrows@.len() && arrows@[j] == e;
                        assert(ts.relations().contains(arrows@[j]));
                    }
                    lemma_right_lifting_class_is_transfer(l, self.relations());
                    assert forall|j: int| 0 <= j < arrows@.len() implies class.contains(#[trigger] arrows@[j]) by {
                        assert(arrows@.to_set().contains(arrows@[j]));
                    }
                    assert(ts.relations().subset_of(class));
                    assert(ts.relations() =~= class);
                },
                Err(TransferSystemError::EdgeOutOfBounds { edge, lattice_size }) => {
                    let j = choose|j: int| 0 <= j < arrows@.len() && arrows@[j] == edge && forall|i: int|
                        0 <= i < j ==> #[trigger] generator_ok(l, arrows@[i]);
                    assert(arrows@.to_set().contains(arrows@[j]));
                },
                Err(TransferSystemError::NotLatticeRelation { edge }) => {
                    let j = choose|j: int| 0 <= j < arrows@.len() && arrows@[j] == edge && forall|i: int|
                        0 <= i < j ==> #[trigger] generator_ok(l, arrows@[i]);
                    assert(arrows@.to_set().contains(arrows@[j]));
                },
                _ => {},
            }
        }
        match result {
            Ok(ts) => Ok(ts),
            Err(e) => Err(CotransferSystemError::from(e)),
        }
    }
}

impl<A> TransferSystem<A> {
    /// Forms this transfer system's left lifting class: the least
    /// cotransfer system containing it, in a new cotransfer universe dual
    /// to this system's universe.
    pub fn left_lifting_cotransfer(&self) -> (r: Result<CotransferSystem<A>, CotransferSystemError>)
        requires
            self.wf(),
            self.universe_of().lattice_of().card() * self.universe_of().lattice_of().card() <= max_bits(),
        ensures
            r is Ok || r == Err::<CotransferSystem<A>, CotransferSystemError>(CotransferSystemError::LatticeMismatch),
            r matches Ok(cs) ==> {
                &&& cs.wf()
                &&& cs.universe_of().transfer_universe_of() == self.universe_of()
                &&& cs.relations() == left_lifting_class(self.universe_of().lattice_of().order(), self.universe_of().lattice_of().card(), self.relations())
            },
    {
        let universe = Arc::new(CotransferUniverse::from_transfer_universe(arc_clone(self.universe())));
        universe.left_lifting_of(self)
    }
}

/// Left and right lifting classes are mutually inverse, order-reversing
/// bijections between the transfer systems and the cotransfer systems of a
/// lattice: the left lifting class of a transfer system is a cotransfer
/// system whose right lifting class is the transfer system again, and the
/// right lifting class of a cotransfer system is a transfer system whose
/// left lifting class is the cotransfer system again.
pub proof fn lemma_lifting_classes_are_inverse<A>(l: Lattice<A>, r: Set<Edge>, c: Set<Edge>)
    requires
        l.wf(),
        is_transfer_system(l, r),
        is_cotransfer_system(l, c),
    ensures
        is_cotransfer_system(l, left_lifting_class(l.order(), l.card(), r)),
        right_lifting_class(l.order(), l.card(), left_lifting_class(l.order(), l.card(), r)) == r,
        is_transfer_system(l, right_lifting_class(l.order(), l.card(), c)),
        left_lifting_class(l.order(), l.card(), right_lifting_class(l.order(), l.card(), c)) == c,
{
    assert forall|f: Edge| #[trigger] r.contains(f) && f.from != f.to implies f.from < l.card() && f.to < l.card() by {
        lemma_ts_order(l, r, f);
    }
    lemma_left_lifting_class_is_cotransfer(l, r);
    lemma_lifting_round_trip_transfer(l, r);
    lemma_right_lifting_class_is_transfer(l, c);
    lemma_lifting_round_trip_cotransfer(l, c);
}

} // verus!
