//! Transfer systems and the formal context that encodes them.
//!
//! Let `L` be a finite lattice.  A transfer system is a relation `R` on `L`
//! that is contained in `<=`, reflexive, transitive, and closed under
//! restriction: `x R y` and `z <= y` imply `(x /\ z) R z`.
//!
//! The proper relations `x < y` of `L`, listed once each, serve both as the
//! objects and as the attributes of a formal context: object `e` has
//! attribute `f` when `f` has the left lifting property against `e`.  The
//! closed object sets of that context (sets equal to the extent of their
//! intent) are exactly the transfer systems, without their identities; and
//! closing a set of relations yields the least transfer system containing it.

use crate::edges::Edge;
use crate::lattice::Lattice;
use crate::order::{is_meet, lemma_bounds_unique, lifts};
use vstd::prelude::*;

verus! {

/// `p` lists every proper relation `x < y` of `l` exactly once.
pub open spec fn is_proper_list<A>(l: Lattice<A>, p: Seq<Edge>) -> bool {
    &&& p.no_duplicates()
    &&& forall|k: int|
        0 <= k < p.len() ==> (#[trigger] p[k]).from < l.card() && p[k].to < l.card() && p[k].from
            != p[k].to && l.le(p[k].from as int, p[k].to as int)
    &&& forall|e: Edge|
        e.from < l.card() && e.to < l.card() && e.from != e.to && l.le(e.from as int, e.to as int)
            ==> #[trigger] p.contains(e)
}

/// The incidence matrix: object `a` has attribute `b` when the relation
/// `p[b]` has the left lifting property against `p[a]`.
pub open spec fn transfer_context<A>(l: Lattice<A>, p: Seq<Edge>) -> Seq<Seq<bool>> {
    Seq::new(p.len(), |a: int| Seq::new(p.len(), |b: int| lifts(l.order(), p[b], p[a])))
}

/// The attributes (among `cols`) shared by every object of `s`.
pub open spec fn intent_of(m: Seq<Seq<bool>>, cols: nat, s: Seq<bool>) -> Seq<bool> {
    Seq::new(cols, |b: int| forall|a: int| 0 <= a < m.len() && #[trigger] s[a] ==> m[a][b])
}

/// The objects that have every attribute of `t`.
pub open spec fn extent_of(m: Seq<Seq<bool>>, t: Seq<bool>) -> Seq<bool> {
    Seq::new(m.len(), |a: int| forall|b: int| 0 <= b < t.len() && #[trigger] t[b] ==> m[a][b])
}

/// The extent of the intent of `s`.
pub open spec fn closure_of(m: Seq<Seq<bool>>, cols: nat, s: Seq<bool>) -> Seq<bool> {
    extent_of(m, intent_of(m, cols, s))
}

/// The relations selected by `bits` from the list `p`, together with the
/// identities of `0, ..., n - 1`.
pub open spec fn system_of(p: Seq<Edge>, bits: Seq<bool>, n: nat) -> Set<Edge> {
    Set::new(
        |e: Edge|
            (e.from == e.to && e.from < n) || exists|k: int|
                0 <= k < p.len() && #[trigger] p[k] == e && bits[k],
    )
}

/// `r` is a transfer system on `l`.
#[verifier::opaque]
pub open spec fn is_transfer_system<A>(l: Lattice<A>, r: Set<Edge>) -> bool {
    &&& forall|e: Edge|
        #[trigger] r.contains(e) ==> e.from < l.card() && e.to < l.card() && l.le(
            e.from as int,
            e.to as int,
        )
    &&& forall|i: usize| i < l.card() ==> #[trigger] r.contains(Edge { from: i, to: i })
    &&& forall|e: Edge, f: Edge|
        #[trigger] r.contains(e) && #[trigger] r.contains(f) && e.to == f.from ==> r.contains(
            Edge { from: e.from, to: f.to },
        )
    &&& forall|e: Edge, z: usize|
        #[trigger] r.contains(e) && z < l.card() && #[trigger] l.le(z as int, e.to as int)
            ==> r.contains(Edge { from: l.meet_of(e.from as int, z as int) as usize, to: z })
}

/// The relations of a transfer system are relations of the lattice.
pub proof fn lemma_ts_order<A>(l: Lattice<A>, r: Set<Edge>, e: Edge)
    requires
        is_transfer_system(l, r),
        r.contains(e),
    ensures
        e.from < l.card(),
        e.to < l.card(),
        l.le(e.from as int, e.to as int),
{
    reveal(is_transfer_system);
}

/// A transfer system holds every identity.
pub proof fn lemma_ts_identity<A>(l: Lattice<A>, r: Set<Edge>, i: usize)
    requires
        is_transfer_system(l, r),
        i < l.card(),
    ensures
        r.contains(Edge { from: i, to: i }),
{
    reveal(is_transfer_system);
}

/// A transfer system is transitive.
pub proof fn lemma_ts_compose<A>(l: Lattice<A>, r: Set<Edge>, e: Edge, f: Edge)
    requires
        is_transfer_system(l, r),
        r.contains(e),
        r.contains(f),
        e.to == f.from,
    ensures
        r.contains(Edge { from: e.from, to: f.to }),
{
    reveal(is_transfer_system);
}

/// A transfer system is closed under restriction.
pub proof fn lemma_ts_restrict<A>(l: Lattice<A>, r: Set<Edge>, e: Edge, z: usize)
    requires
        is_transfer_system(l, r),
        r.contains(e),
        z < l.card(),
        l.le(z as int, e.to as int),
    ensures
        r.contains(Edge { from: l.meet_of(e.from as int, z as int) as usize, to: z }),
{
    reveal(is_transfer_system);
}

/// The objects of a closed set.
pub open spec fn is_closed(m: Seq<Seq<bool>>, cols: nat, s: Seq<bool>) -> bool {
    closure_of(m, cols, s) == s
}

/// Every set is contained in its closure.
pub proof fn lemma_closure_extensive(m: Seq<Seq<bool>>, cols: nat, s: Seq<bool>)
    requires
        s.len() == m.len(),
    ensures
        forall|a: int| 0 <= a < s.len() && #[trigger] s[a] ==> closure_of(m, cols, s)[a],
{
}

/// Closure is monotone.
pub proof fn lemma_closure_monotone(m: Seq<Seq<bool>>, cols: nat, s: Seq<bool>, t: Seq<bool>)
    requires
        s.len() == m.len(),
        t.len() == m.len(),
        forall|a: int| 0 <= a < s.len() && #[trigger] s[a] ==> t[a],
    ensures
        forall|a: int| 0 <= a < s.len() && #[trigger] closure_of(m, cols, s)[a] ==> closure_of(m, cols, t)[a],
{
    let is = intent_of(m, cols, s);
    let it = intent_of(m, cols, t);
    assert forall|b: int| 0 <= b < cols && #[trigger] it[b] implies is[b] by {
        assert forall|a: int| 0 <= a < m.len() && #[trigger] s[a] implies m[a][b] by {
            assert(t[a]);
        }
    }
    assert forall|a: int| 0 <= a < s.len() && #[trigger] closure_of(m, cols, s)[a] implies closure_of(m, cols, t)[a] by {
        assert forall|b: int| 0 <= b < it.len() && #[trigger] it[b] implies m[a][b] by {
            assert(is[b]);
        }
    }
}

/// In a lattice, `z <= x` makes `z` the meet of `x` and `z`.
proof fn lemma_meet_of_below<A>(l: Lattice<A>, x: int, z: int)
    requires
        l.wf(),
        0 <= x < l.card(),
        0 <= z < l.card(),
        l.le(z, x),
    ensures
        l.meet_of(x, z) == z,
{
    assert(is_meet(l.order(), l.card(), x, z, l.meet_of(x, z)));
    assert(is_meet(l.order(), l.card(), x, z, z));
    lemma_bounds_unique(l.order(), l.card(), x, z, l.meet_of(x, z), z);
}

/// Every relation `x < y` of the lattice has an index in the list.
proof fn lemma_index_of<A>(l: Lattice<A>, p: Seq<Edge>, e: Edge) -> (k: int)
    requires
        is_proper_list(l, p),
        e.from < l.card(),
        e.to < l.card(),
        e.from != e.to,
        l.le(e.from as int, e.to as int),
    ensures
        0 <= k < p.len(),
        p[k] == e,
{
    assert(p.contains(e));
    choose|k: int| 0 <= k < p.len() && p[k] == e
}

/// The closure of any set of relations, with the identities added, is a
/// transfer system.
pub proof fn lemma_closure_is_transfer_system<A>(l: Lattice<A>, p: Seq<Edge>, s: Seq<bool>)
    requires
        l.wf(),
        is_proper_list(l, p),
        s.len() == p.len(),
    ensures
        is_transfer_system(l, system_of(p, closure_of(transfer_context(l, p), p.len(), s), l.card())),
{
    let m = transfer_context(l, p);
    let n = l.card();
    let ord = l.order();
    let t = intent_of(m, p.len(), s);
    let c = closure_of(m, p.len(), s);
    let r = system_of(p, c, n);
    reveal(is_transfer_system);
    assert forall|k: int| 0 <= k < p.len() implies #[trigger] c[k] == (forall|b: int|
        0 <= b < p.len() && #[trigger] t[b] ==> lifts(ord, p[b], p[k])) by {
        assert forall|b: int| 0 <= b < p.len() implies #[trigger] m[k][b] == lifts(ord, p[b], p[k]) by {}
    }
    assert forall|e: Edge| #[trigger] r.contains(e) implies e.from < n && e.to < n && l.le(e.from as int, e.to as int) by {
        if !(e.from == e.to && e.from < n) {
            let k = choose|k: int| 0 <= k < p.len() && #[trigger] p[k] == e && c[k];
        }
    }
    assert forall|e: Edge, f: Edge| #[trigger] r.contains(e) && #[trigger] r.contains(f) && e.to == f.from implies r.contains(Edge { from: e.from, to: f.to }) by {
        let g = Edge { from: e.from, to: f.to };
        if e.from == e.to {
            assert(g == f);
        } else if f.from == f.to {
            assert(g == e);
        } else {
            let k1 = choose|k: int| 0 <= k < p.len() && #[trigger] p[k] == e && c[k];
            let k2 = choose|k: int| 0 <= k < p.len() && #[trigger] p[k] == f && c[k];
            if g.from == g.to {
                assert(ord[e.from as int][e.to as int] && ord[e.to as int][e.from as int]);
            } else {
                let k3 = lemma_index_of(l, p, g);
                assert forall|b: int| 0 <= b < p.len() && #[trigger] t[b] implies lifts(ord, p[b], g) by {
                    assert(lifts(ord, p[b], e));
                    assert(lifts(ord, p[b], f));
                }
                assert(c[k3]);
            }
        }
    }
    assert forall|e: Edge, z: usize| #[trigger] r.contains(e) && z < n && #[trigger] l.le(z as int, e.to as int) implies r.contains(Edge { from: l.meet_of(e.from as int, z as int) as usize, to: z }) by {
        let w = l.meet_of(e.from as int, z as int);
        let g = Edge { from: w as usize, to: z };
        assert(is_meet(ord, n, e.from as int, z as int, w));
        if e.from == e.to {
            lemma_meet_of_below(l, e.from as int, z as int);
        } else if w == z {
        } else {
            let k = choose|k: int| 0 <= k < p.len() && #[trigger] p[k] == e && c[k];
            let k2 = lemma_index_of(l, p, g);
            assert forall|b: int| 0 <= b < p.len() && #[trigger] t[b] implies lifts(ord, p[b], g) by {
                assert(lifts(ord, p[b], e));
                let u = p[b].from as int;
                let v = p[b].to as int;
                if ord[u][w] && ord[v][z as int] {
                    assert(ord[w][e.from as int]);
                    assert(ord[u][e.from as int]);
                    assert(ord[z as int][e.to as int]);
                    assert(ord[v][e.to as int]);
                    assert(ord[v][e.from as int]);
                    assert(ord[v][w]);
                }
            }
            assert(c[k2]);
        }
    }
}

/// The elements `u` with `x <= u` and `u R y`.
spec fn above_to(r: Set<Edge>, x: usize, y: usize, ord: Seq<Seq<bool>>, u: int) -> bool {
    ord[x as int][u] && r.contains(Edge { from: u as usize, to: y })
}

/// Within a transfer system, the set of `u` with `x <= u` and `u R y` has a
/// least element among the first `k` elements (beyond `y`, which it holds).
proof fn lemma_least_above<A>(l: Lattice<A>, r: Set<Edge>, x: usize, y: usize, k: nat) -> (u0: int)
    requires
        l.wf(),
        is_transfer_system(l, r),
        x < l.card(),
        y < l.card(),
        l.le(x as int, y as int),
        k <= l.card(),
    ensures
        0 <= u0 < l.card(),
        above_to(r, x, y, l.order(), u0),
        forall|u: int| 0 <= u < k && above_to(r, x, y, l.order(), u) ==> l.le(u0, u),
    decreases k,
{
    let ord = l.order();
    let n = l.card();
    if k == 0 {
        lemma_ts_identity(l, r, y);
        y as int
    } else {
        let u1 = lemma_least_above(l, r, x, y, (k - 1) as nat);
        let v = k - 1;
        if above_to(r, x, y, ord, v) {
            let w = l.meet_of(u1, v);
            assert(is_meet(ord, n, u1, v, w));
            let e1 = Edge { from: u1 as usize, to: y };
            let e2 = Edge { from: v as usize, to: y };
            assert(r.contains(e1));
            assert(r.contains(e2));
            lemma_ts_order(l, r, e2);
            lemma_ts_restrict(l, r, e1, v as usize);
            let e3 = Edge { from: w as usize, to: v as usize };
            lemma_ts_compose(l, r, e3, e2);
            assert(ord[x as int][w]);
            assert forall|u: int| 0 <= u < k && above_to(r, x, y, ord, u) implies l.le(w, u) by {
                if u < k - 1 {
                    assert(l.le(u1, u));
                }
            }
            w
        } else {
            assert forall|u: int| 0 <= u < k && above_to(r, x, y, ord, u) implies l.le(u1, u) by {
                if u < k - 1 {
                }
            }
            u1
        }
    }
}

/// A transfer system, without its identities, is closed.
pub proof fn lemma_transfer_system_is_closed<A>(l: Lattice<A>, p: Seq<Edge>, bits: Seq<bool>)
    requires
        l.wf(),
        is_proper_list(l, p),
        bits.len() == p.len(),
        is_transfer_system(l, system_of(p, bits, l.card())),
    ensures
        is_closed(transfer_context(l, p), p.len(), bits),
{
    let m = transfer_context(l, p);
    let n = l.card();
    let ord = l.order();
    let r = system_of(p, bits, n);
    let t = intent_of(m, p.len(), bits);
    let c = closure_of(m, p.len(), bits);
    lemma_closure_extensive(m, p.len(), bits);
    assert forall|a: int| 0 <= a < p.len() implies #[trigger] c[a] == bits[a] by {
        if c[a] && !bits[a] {
            let e = p[a];
            let x = e.from;
            let y = e.to;
            assert(!r.contains(e)) by {
                if r.contains(e) {
                    let k = choose|k: int| 0 <= k < p.len() && #[trigger] p[k] == e && bits[k];
                    assert(p.no_duplicates());
                }
            }
            let u0 = lemma_least_above(l, r, x, y, n);
            lemma_ts_order(l, r, Edge { from: u0 as usize, to: y });
            assert(u0 != x as int);
            let g = Edge { from: x, to: u0 as usize };
            let b0 = lemma_index_of(l, p, g);
            assert(t[b0]) by {
                assert forall|a2: int| 0 <= a2 < m.len() && #[trigger] bits[a2] implies m[a2][b0] by {
                    let f = p[a2];
                    assert(r.contains(f));
                    assert(m[a2][b0] == lifts(ord, g, f));
                    if ord[x as int][f.from as int] && ord[u0][f.to as int] {
                        let q = l.meet_of(f.from as int, u0);
                        assert(is_meet(ord, n, f.from as int, u0, q));
                        lemma_ts_restrict(l, r, f, u0 as usize);
                        let e3 = Edge { from: q as usize, to: u0 as usize };
                        let e4 = Edge { from: u0 as usize, to: y };
                        lemma_ts_compose(l, r, e3, e4);
                        assert(above_to(r, x, y, ord, q));
                        assert(l.le(u0, q));
                    }
                }
            }
            assert(m[a][b0] == lifts(ord, g, e));
            assert(ord[x as int][x as int]);
            assert(!ord[u0][x as int]);
        }
    }
    assert(c =~= bits);
}

/// The closed sets are exactly the transfer systems without identities.
pub proof fn lemma_closed_iff_transfer_system<A>(l: Lattice<A>, p: Seq<Edge>, bits: Seq<bool>)
    requires
        l.wf(),
        is_proper_list(l, p),
        bits.len() == p.len(),
    ensures
        is_closed(transfer_context(l, p), p.len(), bits) <==> is_transfer_system(
            l,
            system_of(p, bits, l.card()),
        ),
{
    if is_closed(transfer_context(l, p), p.len(), bits) {
        lemma_closure_is_transfer_system(l, p, bits);
    }
    if is_transfer_system(l, system_of(p, bits, l.card())) {
        lemma_transfer_system_is_closed(l, p, bits);
    }
}

/// The closure of `s` gives the least transfer system containing the
/// relations that `s` selects.
pub proof fn lemma_closure_is_least<A>(l: Lattice<A>, p: Seq<Edge>, s: Seq<bool>, bits: Seq<bool>)
    requires
        l.wf(),
        is_proper_list(l, p),
        s.len() == p.len(),
        bits.len() == p.len(),
        is_transfer_system(l, system_of(p, bits, l.card())),
        system_of(p, s, l.card()).subset_of(system_of(p, bits, l.card())),
    ensures
        system_of(p, closure_of(transfer_context(l, p), p.len(), s), l.card()).subset_of(
            system_of(p, bits, l.card()),
        ),
{
    let m = transfer_context(l, p);
    let n = l.card();
    assert forall|a: int| 0 <= a < s.len() && #[trigger] s[a] implies bits[a] by {
        assert(system_of(p, s, n).contains(p[a]));
        assert(system_of(p, bits, n).contains(p[a]));
        if !(p[a].from == p[a].to) {
            let k = choose|k: int| 0 <= k < p.len() && #[trigger] p[k] == p[a] && bits[k];
            assert(p.no_duplicates());
        }
    }
    lemma_closure_monotone(m, p.len(), s, bits);
    lemma_transfer_system_is_closed(l, p, bits);
    let c = closure_of(m, p.len(), s);
    assert forall|e: Edge| system_of(p, c, n).contains(e) implies system_of(p, bits, n).contains(e) by {
        if !(e.from == e.to && e.from < n) {
            let k = choose|k: int| 0 <= k < p.len() && #[trigger] p[k] == e && c[k];
            assert(closure_of(m, p.len(), bits)[k]);
        }
    }
}

/// The closure of any set is closed.
pub proof fn lemma_closure_idempotent(m: Seq<Seq<bool>>, cols: nat, s: Seq<bool>)
    requires
        s.len() == m.len(),
        forall|a: int| 0 <= a < m.len() ==> (#[trigger] m[a]).len() == cols,
    ensures
        is_closed(m, cols, closure_of(m, cols, s)),
{
    let t = intent_of(m, cols, s);
    let c = extent_of(m, t);
    let t2 = intent_of(m, cols, c);
    lemma_closure_extensive(m, cols, c);
    assert forall|b: int| 0 <= b < cols && #[trigger] t[b] implies t2[b] by {
        assert forall|a: int| 0 <= a < m.len() && #[trigger] c[a] implies m[a][b] by {}
    }
    let c2 = extent_of(m, t2);
    assert forall|a: int| 0 <= a < m.len() implies #[trigger] c2[a] == c[a] by {
        if c2[a] {
            assert forall|b: int| 0 <= b < t.len() && #[trigger] t[b] implies m[a][b] by {
                assert(t2[b]);
            }
        }
    }
    assert(c2 =~= c);
}

/// The intersection of two closed sets is closed.
pub proof fn lemma_intersection_closed(m: Seq<Seq<bool>>, cols: nat, a: Seq<bool>, b: Seq<bool>)
    requires
        a.len() == m.len(),
        b.len() == m.len(),
        is_closed(m, cols, a),
        is_closed(m, cols, b),
    ensures
        is_closed(m, cols, Seq::new(m.len(), |i: int| a[i] && b[i])),
{
    let c = Seq::new(m.len(), |i: int| a[i] && b[i]);
    lemma_closure_extensive(m, cols, c);
    lemma_closure_monotone(m, cols, c, a);
    lemma_closure_monotone(m, cols, c, b);
    assert(closure_of(m, cols, c) =~= c);
}

/// `labels` lists every closed set of the context exactly once.
pub open spec fn lists_closed_sets(m: Seq<Seq<bool>>, cols: nat, labels: Seq<Seq<bool>>) -> bool {
    &&& forall|i: int| 0 <= i < labels.len() ==> (#[trigger] labels[i]).len() == m.len() && is_closed(m, cols, labels[i])
    &&& forall|i: int, j: int| 0 <= i < j < labels.len() ==> #[trigger] labels[i] != #[trigger] labels[j]
    &&& forall|s: Seq<bool>| s.len() == m.len() && #[trigger] is_closed(m, cols, s) ==> exists|i: int| 0 <= i < labels.len() && #[trigger] labels[i] == s
}

/// The pointwise intersection of two bit sequences of length `len`.
pub open spec fn meet_bits(a: Seq<bool>, b: Seq<bool>) -> Seq<bool> {
    Seq::new(a.len(), |i: int| a[i] && b[i])
}

/// The pointwise union of two bit sequences of length `len`.
pub open spec fn join_bits(a: Seq<bool>, b: Seq<bool>) -> Seq<bool> {
    Seq::new(a.len(), |i: int| a[i] || b[i])
}

/// The closed sets of a context, ordered by inclusion, form a lattice:
/// the meet of two closed sets is their intersection and the join is the
/// closure of their union.  The least closed set is the closure of the
/// empty set and the greatest is the set of all objects.
pub proof fn lemma_closed_sets_lattice(m: Seq<Seq<bool>>, cols: nat, labels: Seq<Seq<bool>>, ord: Seq<Seq<bool>>)
    requires
        forall|a: int| 0 <= a < m.len() ==> (#[trigger] m[a]).len() == cols,
        lists_closed_sets(m, cols, labels),
        crate::order::is_square(ord, labels.len()),
        forall|i: int, j: int| 0 <= i < labels.len() && 0 <= j < labels.len() ==> #[trigger] ord[i][j] == crate::bits::subset_bits(labels[i], labels[j]),
    ensures
        crate::order::is_partial_order(ord, labels.len()),
        crate::order::is_lattice_order(ord, labels.len()),
        forall|i: int, j: int, k: int| 0 <= i < labels.len() && 0 <= j < labels.len() && 0 <= k < labels.len() ==>
            (#[trigger] crate::order::is_meet(ord, labels.len(), i, j, k) <==> labels[k] == meet_bits(labels[i], labels[j])),
        forall|i: int, j: int, k: int| 0 <= i < labels.len() && 0 <= j < labels.len() && 0 <= k < labels.len() ==>
            (#[trigger] crate::order::is_join(ord, labels.len(), i, j, k) <==> labels[k] == closure_of(m, cols, join_bits(labels[i], labels[j]))),
        exists|b: int| crate::order::is_bottom(ord, labels.len(), b),
        exists|t: int| crate::order::is_top(ord, labels.len(), t),
{
    let n = labels.len();
    let len = m.len();
    assert(crate::order::is_partial_order(ord, n)) by {
        assert forall|i: int, j: int| 0 <= i < n && 0 <= j < n && #[trigger] ord[i][j] && #[trigger] ord[j][i] implies i == j by {
            assert(labels[i] =~= labels[j]);
            if i < j {
            } else if j < i {
            }
        }
    }
    assert forall|i: int, j: int, k: int| 0 <= i < n && 0 <= j < n && 0 <= k < n implies
        (#[trigger] crate::order::is_meet(ord, n, i, j, k) <==> labels[k] == meet_bits(labels[i], labels[j])) by {
        lemma_closed_sets_meet(m, cols, labels, ord, i, j);
    }
    assert forall|i: int, j: int, k: int| 0 <= i < n && 0 <= j < n && 0 <= k < n implies
        (#[trigger] crate::order::is_join(ord, n, i, j, k) <==> labels[k] == closure_of(m, cols, join_bits(labels[i], labels[j]))) by {
        lemma_closed_sets_join(m, cols, labels, ord, i, j);
    }
    assert forall|i: int, j: int| 0 <= i < n && 0 <= j < n implies #[trigger] crate::order::has_meet(ord, n, i, j) by {
        lemma_closed_sets_meet(m, cols, labels, ord, i, j);
    }
    assert forall|i: int, j: int| 0 <= i < n && 0 <= j < n implies #[trigger] crate::order::has_join(ord, n, i, j) by {
        lemma_closed_sets_join(m, cols, labels, ord, i, j);
    }
    let empty = Seq::new(len, |q: int| false);
    let bot = closure_of(m, cols, empty);
    lemma_closure_idempotent(m, cols, empty);
    let b0 = choose|k: int| 0 <= k < n && #[trigger] labels[k] == bot;
    assert(crate::order::is_bottom(ord, n, b0)) by {
        assert forall|x: int| 0 <= x < n implies #[trigger] ord[b0][x] by {
            lemma_closure_monotone(m, cols, empty, labels[x]);
        }
    }
    let full = Seq::new(len, |q: int| true);
    assert(is_closed(m, cols, full)) by {
        lemma_closure_extensive(m, cols, full);
        assert(closure_of(m, cols, full) =~= full);
    }
    let t0 = choose|k: int| 0 <= k < n && #[trigger] labels[k] == full;
    assert(crate::order::is_top(ord, n, t0));
    assert(n > 0);
}

proof fn lemma_closed_sets_meet(m: Seq<Seq<bool>>, cols: nat, labels: Seq<Seq<bool>>, ord: Seq<Seq<bool>>, i: int, j: int)
    requires
        forall|a: int| 0 <= a < m.len() ==> (#[trigger] m[a]).len() == cols,
        lists_closed_sets(m, cols, labels),
        crate::order::is_square(ord, labels.len()),
        forall|i: int, j: int| 0 <= i < labels.len() && 0 <= j < labels.len() ==> #[trigger] ord[i][j] == crate::bits::subset_bits(labels[i], labels[j]),
        crate::order::is_partial_order(ord, labels.len()),
        0 <= i < labels.len(),
        0 <= j < labels.len(),
    ensures
        crate::order::has_meet(ord, labels.len(), i, j),
        forall|k: int| 0 <= k < labels.len() ==> (#[trigger] crate::order::is_meet(ord, labels.len(), i, j, k) <==> labels[k] == meet_bits(labels[i], labels[j])),
{
    let n = labels.len();
    let c = meet_bits(labels[i], labels[j]);
    lemma_intersection_closed(m, cols, labels[i], labels[j]);
    assert(Seq::new(m.len(), |q: int| labels[i][q] && labels[j][q]) =~= c);
    let k0 = choose|k: int| 0 <= k < n && #[trigger] labels[k] == c;
    assert(crate::order::is_meet(ord, n, i, j, k0)) by {
        assert forall|q: int| 0 <= q < n && #[trigger] ord[q][i] && ord[q][j] implies ord[q][k0] by {}
    }
    assert forall|k: int| 0 <= k < n implies (#[trigger] crate::order::is_meet(ord, n, i, j, k) <==> labels[k] == c) by {
        if crate::order::is_meet(ord, n, i, j, k) {
            crate::order::lemma_bounds_unique(ord, n, i, j, k, k0);
        }
    }
}

proof fn lemma_closed_sets_join(m: Seq<Seq<bool>>, cols: nat, labels: Seq<Seq<bool>>, ord: Seq<Seq<bool>>, i: int, j: int)
    requires
        forall|a: int| 0 <= a < m.len() ==> (#[trigger] m[a]).len() == cols,
        lists_closed_sets(m, cols, labels),
        crate::order::is_square(ord, labels.len()),
        forall|i: int, j: int| 0 <= i < labels.len() && 0 <= j < labels.len() ==> #[trigger] ord[i][j] == crate::bits::subset_bits(labels[i], labels[j]),
        crate::order::is_partial_order(ord, labels.len()),
        0 <= i < labels.len(),
        0 <= j < labels.len(),
    ensures
        crate::order::has_join(ord, labels.len(), i, j),
        forall|k: int| 0 <= k < labels.len() ==> (#[trigger] crate::order::is_join(ord, labels.len(), i, j, k) <==> labels[k] == closure_of(m, cols, join_bits(labels[i], labels[j]))),
{
    let n = labels.len();
    let u = join_bits(labels[i], labels[j]);
    let c = closure_of(m, cols, u);
    lemma_closure_idempotent(m, cols, u);
    lemma_closure_extensive(m, cols, u);
    let k0 = choose|k: int| 0 <= k < n && #[trigger] labels[k] == c;
    assert forall|a: int| 0 <= a < m.len() && #[trigger] labels[i][a] implies c[a] by {
        assert(u[a]);
    }
    assert forall|a: int| 0 <= a < m.len() && #[trigger] labels[j][a] implies c[a] by {
        assert(u[a]);
    }
    assert(crate::order::is_join(ord, n, i, j, k0)) by {
        assert forall|q: int| 0 <= q < n && #[trigger] ord[i][q] && ord[j][q] implies ord[k0][q] by {
            assert forall|a: int| 0 <= a < u.len() && #[trigger] u[a] implies labels[q][a] by {
                if labels[i][a] {
                } else {
                    assert(labels[j][a]);
                }
            }
            lemma_closure_monotone(m, cols, u, labels[q]);
        }
    }
    assert forall|k: int| 0 <= k < n implies (#[trigger] crate::order::is_join(ord, n, i, j, k) <==> labels[k] == c) by {
        if crate::order::is_join(ord, n, i, j, k) {
            crate::order::lemma_bounds_unique(ord, n, i, j, k, k0);
        }
    }
}

} // verus!
