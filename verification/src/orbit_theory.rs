//! The order theory of a finite group acting on a finite lattice by
//! automorphisms.
//!
//! A group is given by generator permutations of the lattice elements.  It
//! acts on the relations `x <= y` pointwise, and the orbits of that action
//! are computed by following generator images.  This module proves that the
//! orbits are closed under every generator and that the lifting relation
//! between relations is constant along orbits, which is what makes the
//! transfer systems built from whole orbits behave like ordinary ones.

use crate::edges::Edge;
use crate::lattice::Lattice;
use crate::morphism::{is_lattice_map, preserves_pair};
use crate::order::{is_meet, lemma_bounds_unique, lifts};
use crate::transfer_lattice::{bits_in, lemma_system_of_bits_in};
use crate::transfer_theory::{
    closure_of, intent_of, is_closed, is_proper_list, is_transfer_system, lemma_closed_iff_transfer_system,
    lemma_closure_extensive, lemma_closure_is_least, lemma_closure_is_transfer_system, system_of, transfer_context,
};
use crate::permutation_action::{
    bad_at, is_permutation, is_walk, leaders_below, lemma_walk_extend, leads, orbit_labelling, reachable, reached_from_first, step,
};
use crate::tikz::layered::{is_placed, layer_count_of, layers_partition, lemma_layer_count_bounds, placed_at};
use vstd::prelude::*;

verus! {

/// `g` permutes the elements of `l` and preserves its lattice structure.
pub open spec fn is_automorphism<A>(l: Lattice<A>, g: Seq<usize>) -> bool {
    &&& is_permutation(g, l.card() as int)
    &&& is_lattice_map(l, l, g)
}

/// Every generator acts on `l` by an automorphism.
pub open spec fn acts_by_automorphisms<A>(l: Lattice<A>, gens: Seq<Seq<usize>>) -> bool {
    forall|g: int| 0 <= g < gens.len() ==> #[trigger] is_automorphism(l, gens[g])
}

/// The image of a relation under an element map.
pub open spec fn edge_image(g: Seq<usize>, e: Edge) -> Edge {
    Edge { from: g[e.from as int], to: g[e.to as int] }
}

/// A permutation takes distinct points to distinct points.
pub proof fn lemma_permutation_injective(g: Seq<usize>, n: int, x: int, y: int)
    requires
        is_permutation(g, n),
        0 <= x < n,
        0 <= y < n,
        g[x] == g[y],
    ensures
        x == y,
{
    if x < y {
        assert(!bad_at(g, n, y));
    } else if y < x {
        assert(!bad_at(g, n, x));
    }
}

/// An automorphism both preserves and reflects the order.
pub proof fn lemma_automorphism_order<A>(l: Lattice<A>, g: Seq<usize>, x: int, y: int)
    requires
        l.wf(),
        is_automorphism(l, g),
        0 <= x < l.card(),
        0 <= y < l.card(),
    ensures
        l.le(x, y) <==> l.le(g[x] as int, g[y] as int),
{
    let m = l.order();
    let n = l.card();
    assert(!bad_at(g, n as int, x) && !bad_at(g, n as int, y));
    if l.le(g[x] as int, g[y] as int) {
        let gx = g[x] as int;
        let gy = g[y] as int;
        assert(is_meet(m, n, gx, gy, gx));
        assert(is_meet(m, n, gx, gy, l.meet_of(gx, gy)));
        lemma_bounds_unique(m, n, gx, gy, gx, l.meet_of(gx, gy));
        assert(preserves_pair(l, l, g, x, y));
        let c = l.meet_of(x, y);
        assert(is_meet(m, n, x, y, c));
        lemma_permutation_injective(g, n as int, c, x);
    }
}

/// Lifting between relations is invariant under automorphisms.
pub proof fn lemma_lifts_invariant<A>(l: Lattice<A>, g: Seq<usize>, e: Edge, f: Edge)
    requires
        l.wf(),
        is_automorphism(l, g),
        e.from < l.card(),
        e.to < l.card(),
        f.from < l.card(),
        f.to < l.card(),
    ensures
        lifts(l.order(), e, f) <==> lifts(l.order(), edge_image(g, e), edge_image(g, f)),
{
    lemma_automorphism_order(l, g, e.from as int, f.from as int);
    lemma_automorphism_order(l, g, e.to as int, f.to as int);
    lemma_automorphism_order(l, g, e.to as int, f.from as int);
}

/// `r` lists every relation `x <= y` of `l`, identities included, once.
pub open spec fn is_relation_list<A>(l: Lattice<A>, r: Seq<Edge>) -> bool {
    &&& r.no_duplicates()
    &&& forall|k: int|
        0 <= k < r.len() ==> (#[trigger] r[k]).from < l.card() && r[k].to < l.card() && l.le(
            r[k].from as int,
            r[k].to as int,
        )
    &&& forall|e: Edge| e.from < l.card() && e.to < l.card() && l.le(e.from as int, e.to as int) ==> #[trigger] r.contains(e)
}

/// `rg` is the action of the element map `g` on the relation ids of `r`.
pub open spec fn relation_action(r: Seq<Edge>, g: Seq<usize>, rg: Seq<usize>) -> bool {
    &&& rg.len() == r.len()
    &&& forall|k: int| 0 <= k < r.len() ==> #[trigger] rg[k] < r.len() && r[rg[k] as int] == edge_image(g, r[k])
}

/// The actions of the generators on relation ids.
pub open spec fn relation_actions(r: Seq<Edge>, gens: Seq<Seq<usize>>, rgens: Seq<Seq<usize>>) -> bool {
    &&& rgens.len() == gens.len()
    &&& forall|g: int| 0 <= g < gens.len() ==> #[trigger] relation_action(r, gens[g], rgens[g])
}

/// An automorphism permutes the relations.
pub proof fn lemma_relation_action_permutes<A>(l: Lattice<A>, r: Seq<Edge>, g: Seq<usize>, rg: Seq<usize>)
    requires
        l.wf(),
        is_automorphism(l, g),
        is_relation_list(l, r),
        relation_action(r, g, rg),
    ensures
        is_permutation(rg, r.len() as int),
{
    let n = l.card();
    assert forall|e: int| 0 <= e < r.len() implies !#[trigger] bad_at(rg, r.len() as int, e) by {
        if exists|f: int| 0 <= f < e && rg[f] == rg[e] {
            let f = choose|f: int| 0 <= f < e && rg[f] == rg[e];
            assert(r[rg[f] as int] == edge_image(g, r[f]));
            assert(r[rg[e] as int] == edge_image(g, r[e]));
            lemma_permutation_injective(g, n as int, r[f].from as int, r[e].from as int);
            lemma_permutation_injective(g, n as int, r[f].to as int, r[e].to as int);
            assert(r[f] == r[e]);
        }
    }
}

/// Every point's image under a generator carries a label no greater than
/// its own.
proof fn lemma_label_step_below(gens: Seq<Seq<usize>>, n: int, labels: Seq<usize>, q: int, g: int)
    requires
        orbit_labelling(gens, n, labels),
        0 <= q < n,
        0 <= g < gens.len(),
        gens[g].len() == n,
        gens[g][q] < n,
    ensures
        labels[gens[g][q] as int] <= labels[q],
{
    assert(reached_from_first(gens, labels, q));
    let s = choose|s: int| 0 <= s <= q && #[trigger] labels[s] == labels[q] && leads(labels, s) && reachable(gens, s, q);
    lemma_walk_extend(gens, s, q, g);
    assert(leads(labels, s) && reachable(gens, s, gens[g][q] as int));
}

/// A permutation that keeps a class of labels inside itself covers the
/// whole class.
proof fn lemma_closed_class_onto(perm: Seq<usize>, n: int, labels: Seq<usize>, c: usize, t: int)
    requires
        is_permutation(perm, n),
        labels.len() == n,
        forall|q: int| 0 <= q < n && labels[q] == c ==> #[trigger] labels[perm[q] as int] == c,
        0 <= t < n,
        labels[t] == c,
    ensures
        exists|v: int| 0 <= v < n && labels[v] == c && #[trigger] perm[v] == t,
{
    let cls = Set::new(|q: int| 0 <= q < n && labels[q] == c);
    let f = |q: int| perm[q] as int;
    vstd::set_lib::lemma_int_range(0, n);
    let range = vstd::set_lib::set_int_range(0, n);
    assert(cls.subset_of(range));
    vstd::set_lib::lemma_len_subset(cls, range);
    assert(vstd::relations::injective_on(f, cls)) by {
        assert forall|a: int, b: int| cls.contains(a) && cls.contains(b) && #[trigger] f(a) == #[trigger] f(b) implies a == b by {
            lemma_permutation_injective(perm, n, a, b);
        }
    }
    let img = cls.map(f);
    vstd::set_lib::lemma_map_size(cls, img, f);
    assert(img.subset_of(cls)) by {
        assert forall|v: int| img.contains(v) implies cls.contains(v) by {
            let q = choose|q: int| cls.contains(q) && f(q) == v;
            assert(!bad_at(perm, n, q));
        }
    }
    vstd::set_lib::lemma_subset_equality(img, cls);
    assert(cls.contains(t));
    assert(img.contains(t));
    let v = choose|v: int| cls.contains(v) && f(v) == t;
    assert(perm[v] == t);
}

/// Every generator keeps each label class inside itself.
pub proof fn lemma_classes_closed(gens: Seq<Seq<usize>>, n: int, labels: Seq<usize>, c: usize)
    requires
        orbit_labelling(gens, n, labels),
        forall|g: int| 0 <= g < gens.len() ==> is_permutation(#[trigger] gens[g], n),
    ensures
        forall|q: int, g: int|
            0 <= q < n && 0 <= g < gens.len() && labels[q] == c ==> #[trigger] labels[gens[g][q] as int] == c,
    decreases c,
{
    assert forall|q: int, g: int| 0 <= q < n && 0 <= g < gens.len() && labels[q] == c implies #[trigger] labels[gens[g][q] as int] == c by {
        assert(is_permutation(gens[g], n));
        assert(!bad_at(gens[g], n, q));
        lemma_label_step_below(gens, n, labels, q, g);
        let d = labels[gens[g][q] as int];
        if d < c {
            lemma_classes_closed(gens, n, labels, d);
            lemma_closed_class_onto(gens[g], n, labels, d, gens[g][q] as int);
            let v = choose|v: int| 0 <= v < n && labels[v] == d && #[trigger] gens[g][v] == gens[g][q];
            lemma_permutation_injective(gens[g], n, v, q);
        }
    }
}

/// The relations labelled `c` all lift against `e`.
pub open spec fn class_lifts_into<A>(l: Lattice<A>, r: Seq<Edge>, labels: Seq<usize>, c: usize, e: Edge) -> bool {
    forall|a: int| 0 <= a < r.len() && labels[a] == c ==> #[trigger] lifts(l.order(), r[a], e)
}

/// `e` lifts against all the relations labelled `c`.
pub open spec fn lifts_into_class<A>(l: Lattice<A>, r: Seq<Edge>, labels: Seq<usize>, c: usize, e: Edge) -> bool {
    forall|a: int| 0 <= a < r.len() && labels[a] == c ==> #[trigger] lifts(l.order(), e, r[a])
}

/// The data of a group acting on the relations of a lattice: the element
/// generators act by automorphisms, the relation generators are their
/// actions on the relation list, and the labels are the orbit labelling.
pub open spec fn orbit_setting<A>(
    l: Lattice<A>,
    gens: Seq<Seq<usize>>,
    r: Seq<Edge>,
    rgens: Seq<Seq<usize>>,
    labels: Seq<usize>,
) -> bool {
    &&& l.wf()
    &&& acts_by_automorphisms(l, gens)
    &&& is_relation_list(l, r)
    &&& relation_actions(r, gens, rgens)
    &&& orbit_labelling(rgens, r.len() as int, labels)
}

/// In an orbit setting the relation generators are permutations and keep
/// every label class inside itself.
pub proof fn lemma_setting_permutations<A>(
    l: Lattice<A>,
    gens: Seq<Seq<usize>>,
    r: Seq<Edge>,
    rgens: Seq<Seq<usize>>,
    labels: Seq<usize>,
)
    requires
        orbit_setting(l, gens, r, rgens, labels),
    ensures
        forall|g: int| 0 <= g < rgens.len() ==> is_permutation(#[trigger] rgens[g], r.len() as int),
        forall|q: int, g: int|
            0 <= q < r.len() && 0 <= g < rgens.len() ==> #[trigger] labels[rgens[g][q] as int] == labels[q],
{
    assert forall|g: int| 0 <= g < rgens.len() implies is_permutation(#[trigger] rgens[g], r.len() as int) by {
        assert(is_automorphism(l, gens[g]));
        assert(relation_action(r, gens[g], rgens[g]));
        lemma_relation_action_permutes(l, r, gens[g], rgens[g]);
    }
    assert forall|q: int, g: int| 0 <= q < r.len() && 0 <= g < rgens.len() implies #[trigger] labels[rgens[g][q] as int] == labels[q] by {
        lemma_classes_closed(rgens, r.len() as int, labels, labels[q]);
    }
}

/// One generator step keeps both lifting conditions against a class.
proof fn lemma_class_lifting_step<A>(
    l: Lattice<A>,
    gens: Seq<Seq<usize>>,
    r: Seq<Edge>,
    rgens: Seq<Seq<usize>>,
    labels: Seq<usize>,
    c: usize,
    q: int,
    g: int,
)
    requires
        orbit_setting(l, gens, r, rgens, labels),
        0 <= q < r.len(),
        0 <= g < gens.len(),
    ensures
        class_lifts_into(l, r, labels, c, r[q]) <==> class_lifts_into(l, r, labels, c, r[rgens[g][q] as int]),
        lifts_into_class(l, r, labels, c, r[q]) <==> lifts_into_class(l, r, labels, c, r[rgens[g][q] as int]),
{
    let n = r.len() as int;
    let gg = gens[g];
    let rg = rgens[g];
    assert(is_automorphism(l, gg));
    assert(relation_action(r, gg, rg));
    lemma_setting_permutations(l, gens, r, rgens, labels);
    lemma_classes_closed(rgens, n, labels, c);
    let e = r[q];
    let ge = r[rg[q] as int];
    assert(ge == edge_image(gg, e));
    assert(is_permutation(rg, n));
    // forward for the first condition: every class member is an image
    if class_lifts_into(l, r, labels, c, e) {
        assert forall|a: int| 0 <= a < n && labels[a] == c implies #[trigger] lifts(l.order(), r[a], ge) by {
            lemma_closed_class_onto(rg, n, labels, c, a);
            let v = choose|v: int| 0 <= v < n && labels[v] == c && #[trigger] rg[v] == a;
            assert(lifts(l.order(), r[v], e));
            lemma_lifts_invariant(l, gg, r[v], e);
        }
    }
    if class_lifts_into(l, r, labels, c, ge) {
        assert forall|a: int| 0 <= a < n && labels[a] == c implies #[trigger] lifts(l.order(), r[a], e) by {
            assert(labels[rg[a] as int] == c);
            assert(lifts(l.order(), r[rg[a] as int], ge));
            lemma_lifts_invariant(l, gg, r[a], e);
        }
    }
    if lifts_into_class(l, r, labels, c, e) {
        assert forall|a: int| 0 <= a < n && labels[a] == c implies #[trigger] lifts(l.order(), ge, r[a]) by {
            lemma_closed_class_onto(rg, n, labels, c, a);
            let v = choose|v: int| 0 <= v < n && labels[v] == c && #[trigger] rg[v] == a;
            assert(lifts(l.order(), e, r[v]));
            lemma_lifts_invariant(l, gg, e, r[v]);
        }
    }
    if lifts_into_class(l, r, labels, c, ge) {
        assert forall|a: int| 0 <= a < n && labels[a] == c implies #[trigger] lifts(l.order(), e, r[a]) by {
            assert(labels[rg[a] as int] == c);
            assert(lifts(l.order(), ge, r[rg[a] as int]));
            lemma_lifts_invariant(l, gg, e, r[a]);
        }
    }
}

/// Both lifting conditions against a class are constant along a walk.
proof fn lemma_class_lifting_walk<A>(
    l: Lattice<A>,
    gens: Seq<Seq<usize>>,
    r: Seq<Edge>,
    rgens: Seq<Seq<usize>>,
    labels: Seq<usize>,
    c: usize,
    w: Seq<usize>,
    i: int,
)
    requires
        orbit_setting(l, gens, r, rgens, labels),
        is_walk(rgens, w),
        w[0] < r.len(),
        0 <= i < w.len(),
    ensures
        w[i] < r.len(),
        class_lifts_into(l, r, labels, c, r[w[0] as int]) <==> class_lifts_into(l, r, labels, c, r[w[i] as int]),
        lifts_into_class(l, r, labels, c, r[w[0] as int]) <==> lifts_into_class(l, r, labels, c, r[w[i] as int]),
    decreases i,
{
    if i > 0 {
        lemma_class_lifting_walk(l, gens, r, rgens, labels, c, w, i - 1);
        let j = i - 1;
        assert(step(rgens, w[j] as int, w[j + 1] as int));
        let g = choose|g: int| 0 <= g < rgens.len() && #[trigger] rgens[g][w[j] as int] == w[j + 1];
        assert(relation_action(r, gens[g], rgens[g]));
        lemma_class_lifting_step(l, gens, r, rgens, labels, c, w[j] as int, g);
    }
}

/// Relations with the same label satisfy the same lifting conditions
/// against every class.
pub proof fn lemma_class_lifting_uniform<A>(
    l: Lattice<A>,
    gens: Seq<Seq<usize>>,
    r: Seq<Edge>,
    rgens: Seq<Seq<usize>>,
    labels: Seq<usize>,
    c: usize,
    q: int,
    q2: int,
)
    requires
        orbit_setting(l, gens, r, rgens, labels),
        0 <= q < r.len(),
        0 <= q2 < r.len(),
        labels[q] == labels[q2],
    ensures
        class_lifts_into(l, r, labels, c, r[q]) <==> class_lifts_into(l, r, labels, c, r[q2]),
        lifts_into_class(l, r, labels, c, r[q]) <==> lifts_into_class(l, r, labels, c, r[q2]),
{
    let n = r.len() as int;
    assert(reached_from_first(rgens, labels, q));
    assert(reached_from_first(rgens, labels, q2));
    let s = choose|s: int| 0 <= s <= q && #[trigger] labels[s] == labels[q] && leads(labels, s) && reachable(rgens, s, q);
    let s2 = choose|s: int| 0 <= s <= q2 && #[trigger] labels[s] == labels[q2] && leads(labels, s) && reachable(rgens, s, q2);
    if s < s2 {
        assert(labels[s] != labels[s2]);
    } else if s2 < s {
        assert(labels[s2] != labels[s]);
    }
    assert(s == s2);
    reveal(reachable);
    let w = choose|w: Seq<usize>| #[trigger] is_walk(rgens, w) && w[0] == s && w.last() == q;
    let w2 = choose|w: Seq<usize>| #[trigger] is_walk(rgens, w) && w[0] == s && w.last() == q2;
    lemma_class_lifting_walk(l, gens, r, rgens, labels, c, w, w.len() - 1);
    lemma_class_lifting_walk(l, gens, r, rgens, labels, c, w2, w2.len() - 1);
}


/// `e` is a relation `x < y` of `l`.
pub open spec fn is_proper<A>(l: Lattice<A>, e: Edge) -> bool {
    e.from < l.card() && e.to < l.card() && e.from != e.to && l.le(e.from as int, e.to as int)
}

/// `e` occurs in one of the listed orbits.
pub open spec fn in_family(orbs: Seq<Seq<Edge>>, e: Edge) -> bool {
    exists|i: int, k: int| 0 <= i < orbs.len() && 0 <= k < orbs[i].len() && orbs[i][k] == e
}

/// `orbs` lists nonempty classes of proper relations of `l`; every proper
/// relation occurs in exactly one class, exactly once.
pub open spec fn orbit_family<A>(l: Lattice<A>, orbs: Seq<Seq<Edge>>) -> bool {
    &&& forall|i: int| 0 <= i < orbs.len() ==> (#[trigger] orbs[i]).len() > 0
    &&& forall|i: int, k: int| 0 <= i < orbs.len() && 0 <= k < orbs[i].len() ==> is_proper(l, #[trigger] orbs[i][k])
    &&& forall|i: int, j: int, k: int, t: int|
        0 <= i < orbs.len() && 0 <= j < orbs.len() && 0 <= k < orbs[i].len() && 0 <= t < orbs[j].len()
            && #[trigger] orbs[i][k] == #[trigger] orbs[j][t] ==> i == j && k == t
    &&& forall|e: Edge| is_proper(l, e) ==> #[trigger] in_family(orbs, e)
}

/// Every relation of `o` lifts against `e`.
pub open spec fn all_lift_into<A>(l: Lattice<A>, o: Seq<Edge>, e: Edge) -> bool {
    forall|k: int| 0 <= k < o.len() ==> #[trigger] lifts(l.order(), o[k], e)
}

/// `e` lifts against every relation of `o`.
pub open spec fn lifts_into_all<A>(l: Lattice<A>, e: Edge, o: Seq<Edge>) -> bool {
    forall|k: int| 0 <= k < o.len() ==> #[trigger] lifts(l.order(), e, o[k])
}

/// Lifting against the class `orbs[i]`, from either side, does not depend
/// on which relation of the class `orbs[j]` is used.
pub open spec fn uniform_pair<A>(l: Lattice<A>, orbs: Seq<Seq<Edge>>, i: int, j: int) -> bool {
    forall|k: int, t: int|
        #![trigger orbs[j][k], orbs[j][t]]
        0 <= k < orbs[j].len() && 0 <= t < orbs[j].len() ==> (all_lift_into(l, orbs[i], orbs[j][k]) <==> all_lift_into(
            l,
            orbs[i],
            orbs[j][t],
        )) && (lifts_into_all(l, orbs[j][k], orbs[i]) <==> lifts_into_all(l, orbs[j][t], orbs[i]))
}

/// Lifting against a class is constant along every class.
pub open spec fn uniform_family<A>(l: Lattice<A>, orbs: Seq<Seq<Edge>>) -> bool {
    forall|i: int, j: int| 0 <= i < orbs.len() && 0 <= j < orbs.len() ==> #[trigger] uniform_pair(l, orbs, i, j)
}

/// The orbit context: object `a` is the class `orbs[a]`, represented by
/// its first relation; attribute `b` is the class `orbs[attrs[b]]`; the
/// object has the attribute when every relation of the attribute class
/// lifts against the representative.
pub open spec fn orbit_context<A>(l: Lattice<A>, orbs: Seq<Seq<Edge>>, attrs: Seq<usize>) -> Seq<Seq<bool>> {
    Seq::new(
        orbs.len(),
        |a: int| Seq::new(attrs.len(), |b: int| all_lift_into(l, orbs[attrs[b] as int], orbs[a][0])),
    )
}

/// The relations of `p` that lie in a selected class.
pub open spec fn expanded(orbs: Seq<Seq<Edge>>, s: Seq<bool>, p: Seq<Edge>) -> Seq<bool> {
    Seq::new(p.len(), |x: int| exists|i: int| 0 <= i < orbs.len() && s[i] && #[trigger] orbs[i].contains(p[x]))
}

/// The identities of `0, ..., n - 1` together with the selected classes.
pub open spec fn system_of_orbits(orbs: Seq<Seq<Edge>>, s: Seq<bool>, n: nat) -> Set<Edge> {
    Set::new(
        |e: Edge| (e.from == e.to && e.from < n) || exists|i: int| 0 <= i < orbs.len() && s[i] && #[trigger] orbs[i].contains(e),
    )
}

/// The class and position of a proper relation.
pub proof fn lemma_locate<A>(l: Lattice<A>, orbs: Seq<Seq<Edge>>, e: Edge) -> (r: (int, int))
    requires
        orbit_family(l, orbs),
        is_proper(l, e),
    ensures
        0 <= r.0 < orbs.len(),
        0 <= r.1 < orbs[r.0].len(),
        orbs[r.0][r.1] == e,
        forall|i: int| 0 <= i < orbs.len() && #[trigger] orbs[i].contains(e) ==> i == r.0,
{
    assert(in_family(orbs, e));
    let (i, k) = choose|i: int, k: int| 0 <= i < orbs.len() && 0 <= k < orbs[i].len() && orbs[i][k] == e;
    assert forall|j: int| 0 <= j < orbs.len() && #[trigger] orbs[j].contains(e) implies j == i by {
        let t = choose|t: int| 0 <= t < orbs[j].len() && orbs[j][t] == e;
        assert(orbs[i][k] == orbs[j][t]);
    }
    (i, k)
}

/// `f` lifts against every relation of the selected classes.
pub open spec fn lifts_into_selected<A>(l: Lattice<A>, orbs: Seq<Seq<Edge>>, s: Seq<bool>, f: Edge) -> bool {
    forall|i: int| 0 <= i < orbs.len() && s[i] ==> #[trigger] lifts_into_all(l, f, orbs[i])
}

/// The intent of an expanded selection in the transfer context: the
/// relations that lift against every selected class.
proof fn lemma_expanded_intent<A>(l: Lattice<A>, p: Seq<Edge>, orbs: Seq<Seq<Edge>>, s: Seq<bool>, y: int)
    requires
        l.wf(),
        is_proper_list(l, p),
        orbit_family(l, orbs),
        s.len() == orbs.len(),
        0 <= y < p.len(),
    ensures
        intent_of(transfer_context(l, p), p.len(), expanded(orbs, s, p))[y] <==> lifts_into_selected(l, orbs, s, p[y]),
{
    let nn = transfer_context(l, p);
    let u = expanded(orbs, s, p);
    if intent_of(nn, p.len(), u)[y] {
        assert forall|i: int| 0 <= i < orbs.len() && s[i] implies #[trigger] lifts_into_all(l, p[y], orbs[i]) by {
            assert forall|t: int| 0 <= t < orbs[i].len() implies #[trigger] lifts(l.order(), p[y], orbs[i][t]) by {
                let e = orbs[i][t];
                assert(is_proper(l, e));
                assert(p.contains(e));
                let a = choose|a: int| 0 <= a < p.len() && p[a] == e;
                assert(orbs[i].contains(p[a]));
                assert(u[a]);
                assert(nn[a][y] == lifts(l.order(), p[y], p[a]));
            }
        }
    }
    if lifts_into_selected(l, orbs, s, p[y]) {
        assert forall|a: int| 0 <= a < nn.len() && #[trigger] u[a] implies nn[a][y] by {
            let i = choose|i: int| 0 <= i < orbs.len() && s[i] && #[trigger] orbs[i].contains(p[a]);
            assert(lifts_into_all(l, p[y], orbs[i]));
            let t = choose|t: int| 0 <= t < orbs[i].len() && orbs[i][t] == p[a];
            assert(lifts(l.order(), p[y], orbs[i][t]));
        }
    }
}

/// The intent of a selection in the orbit context holds at an attribute
/// exactly when any one relation of its class lifts against every selected
/// class.
proof fn lemma_orbit_intent<A>(l: Lattice<A>, orbs: Seq<Seq<Edge>>, attrs: Seq<usize>, s: Seq<bool>, j: int, t: int)
    requires
        l.wf(),
        orbit_family(l, orbs),
        uniform_family(l, orbs),
        attrs.len() == orbs.len(),
        forall|b: int| 0 <= b < attrs.len() ==> #[trigger] attrs[b] < orbs.len(),
        s.len() == orbs.len(),
        0 <= j < attrs.len(),
        0 <= t < orbs[attrs[j] as int].len(),
    ensures
        intent_of(orbit_context(l, orbs, attrs), attrs.len(), s)[j] <==> lifts_into_selected(
            l,
            orbs,
            s,
            orbs[attrs[j] as int][t],
        ),
{
    let mm = orbit_context(l, orbs, attrs);
    let c = attrs[j] as int;
    let f = orbs[c][t];
    if intent_of(mm, attrs.len(), s)[j] {
        assert forall|i: int| 0 <= i < orbs.len() && s[i] implies #[trigger] lifts_into_all(l, f, orbs[i]) by {
            assert(mm[i][j]);
            assert(all_lift_into(l, orbs[c], orbs[i][0]));
            assert(uniform_pair(l, orbs, c, i));
            assert forall|u: int| 0 <= u < orbs[i].len() implies #[trigger] lifts(l.order(), f, orbs[i][u]) by {
                assert(all_lift_into(l, orbs[c], orbs[i][u]));
                assert(lifts(l.order(), orbs[c][t], orbs[i][u]));
            }
        }
    }
    if lifts_into_selected(l, orbs, s, f) {
        assert forall|i: int| 0 <= i < mm.len() && #[trigger] s[i] implies mm[i][j] by {
            assert(lifts_into_all(l, f, orbs[i]));
            assert(uniform_pair(l, orbs, i, c));
            assert forall|w: int| 0 <= w < orbs[c].len() implies #[trigger] lifts(l.order(), orbs[c][w], orbs[i][0]) by {
                assert(lifts_into_all(l, orbs[c][w], orbs[i]));
                assert(lifts(l.order(), orbs[c][w], orbs[i][0]));
            }
        }
    }
}

/// The hypotheses shared by the closure lemmas.
pub open spec fn orbit_closure_setting<A>(
    l: Lattice<A>,
    p: Seq<Edge>,
    orbs: Seq<Seq<Edge>>,
    attrs: Seq<usize>,
    s: Seq<bool>,
) -> bool {
    &&& l.wf()
    &&& is_proper_list(l, p)
    &&& orbit_family(l, orbs)
    &&& uniform_family(l, orbs)
    &&& is_permutation(attrs, orbs.len() as int)
    &&& s.len() == orbs.len()
}

/// A relation in the transfer closure of an expanded selection lies in a
/// class of the orbit closure.
proof fn lemma_closure_forward<A>(
    l: Lattice<A>,
    p: Seq<Edge>,
    orbs: Seq<Seq<Edge>>,
    attrs: Seq<usize>,
    s: Seq<bool>,
    x: int,
    i0: int,
    u0: int,
)
    requires
        orbit_closure_setting(l, p, orbs, attrs, s),
        0 <= x < p.len(),
        0 <= i0 < orbs.len(),
        0 <= u0 < orbs[i0].len(),
        orbs[i0][u0] == p[x],
        closure_of(transfer_context(l, p), p.len(), expanded(orbs, s, p))[x],
    ensures
        closure_of(orbit_context(l, orbs, attrs), attrs.len(), s)[i0],
{
    let nn = transfer_context(l, p);
    let mm = orbit_context(l, orbs, attrs);
    let u = expanded(orbs, s, p);
    let e = p[x];
    let k = orbs.len() as int;
    assert forall|j: int| 0 <= j < attrs.len() && #[trigger] intent_of(mm, attrs.len(), s)[j] implies mm[i0][j] by {
        assert(!bad_at(attrs, k, j));
        let c = attrs[j] as int;
        assert(uniform_pair(l, orbs, c, i0));
        assert forall|t: int| 0 <= t < orbs[c].len() implies #[trigger] lifts(l.order(), orbs[c][t], e) by {
            let f = orbs[c][t];
            assert(is_proper(l, f));
            assert(p.contains(f));
            let y = choose|y: int| 0 <= y < p.len() && p[y] == f;
            assert forall|b: int| 0 <= b < attrs.len() implies #[trigger] attrs[b] < orbs.len() by {
                assert(!bad_at(attrs, k, b));
            }
            lemma_orbit_intent(l, orbs, attrs, s, j, t);
            lemma_expanded_intent(l, p, orbs, s, y);
            assert(intent_of(nn, p.len(), u)[y]);
            assert(nn[x][y]);
        }
        assert(all_lift_into(l, orbs[c], orbs[i0][u0]));
        assert(all_lift_into(l, orbs[c], orbs[i0][0]));
    }
}

/// A relation in a class of the orbit closure lies in the transfer closure
/// of the expanded selection.
proof fn lemma_closure_backward<A>(
    l: Lattice<A>,
    p: Seq<Edge>,
    orbs: Seq<Seq<Edge>>,
    attrs: Seq<usize>,
    s: Seq<bool>,
    x: int,
    i0: int,
    u0: int,
)
    requires
        orbit_closure_setting(l, p, orbs, attrs, s),
        0 <= x < p.len(),
        0 <= i0 < orbs.len(),
        0 <= u0 < orbs[i0].len(),
        orbs[i0][u0] == p[x],
        closure_of(orbit_context(l, orbs, attrs), attrs.len(), s)[i0],
    ensures
        closure_of(transfer_context(l, p), p.len(), expanded(orbs, s, p))[x],
{
    let nn = transfer_context(l, p);
    let mm = orbit_context(l, orbs, attrs);
    let u = expanded(orbs, s, p);
    let e = p[x];
    let k = orbs.len() as int;
    assert forall|b: int| 0 <= b < attrs.len() implies #[trigger] attrs[b] < orbs.len() by {
        assert(!bad_at(attrs, k, b));
    }
    assert forall|y: int| 0 <= y < p.len() && #[trigger] intent_of(nn, p.len(), u)[y] implies nn[x][y] by {
        let f = p[y];
        assert(is_proper(l, f));
        let (c, t) = lemma_locate(l, orbs, f);
        crate::permutation_action::lemma_permutation_onto(attrs, k, c);
        let j = choose|j: int| 0 <= j < k && #[trigger] attrs[j] == c;
        lemma_expanded_intent(l, p, orbs, s, y);
        lemma_orbit_intent(l, orbs, attrs, s, j, t);
        assert(mm[i0][j]);
        assert(uniform_pair(l, orbs, c, i0));
        assert(all_lift_into(l, orbs[c], orbs[i0][0]));
        assert(all_lift_into(l, orbs[c], orbs[i0][u0]));
        assert(lifts(l.order(), orbs[c][t], e));
    }
}

/// Closing an expanded selection in the transfer context gives the
/// expansion of its closure in the orbit context.
pub proof fn lemma_orbit_closure<A>(l: Lattice<A>, p: Seq<Edge>, orbs: Seq<Seq<Edge>>, attrs: Seq<usize>, s: Seq<bool>)
    requires
        orbit_closure_setting(l, p, orbs, attrs, s),
    ensures
        closure_of(transfer_context(l, p), p.len(), expanded(orbs, s, p)) == expanded(
            orbs,
            closure_of(orbit_context(l, orbs, attrs), attrs.len(), s),
            p,
        ),
{
    let cn = closure_of(transfer_context(l, p), p.len(), expanded(orbs, s, p));
    let cm = closure_of(orbit_context(l, orbs, attrs), attrs.len(), s);
    assert forall|x: int| 0 <= x < p.len() implies cn[x] == expanded(orbs, cm, p)[x] by {
        assert(is_proper(l, p[x]));
        let (i0, u0) = lemma_locate(l, orbs, p[x]);
        assert(orbs[i0].contains(p[x]));
        assert(expanded(orbs, cm, p)[x] == cm[i0]);
        if cn[x] {
            lemma_closure_forward(l, p, orbs, attrs, s, x, i0, u0);
        }
        if cm[i0] {
            lemma_closure_backward(l, p, orbs, attrs, s, x, i0, u0);
        }
    }
    assert(cn =~= expanded(orbs, cm, p));
}

/// The relations selected by an expanded selection are the identities and
/// the selected classes.
pub proof fn lemma_expanded_system<A>(l: Lattice<A>, p: Seq<Edge>, orbs: Seq<Seq<Edge>>, s: Seq<bool>)
    requires
        is_proper_list(l, p),
        orbit_family(l, orbs),
        s.len() == orbs.len(),
    ensures
        system_of(p, expanded(orbs, s, p), l.card()) == system_of_orbits(orbs, s, l.card()),
{
    let n = l.card();
    let u = expanded(orbs, s, p);
    assert forall|e: Edge| system_of(p, u, n).contains(e) <==> system_of_orbits(orbs, s, n).contains(e) by {
        if system_of(p, u, n).contains(e) && !(e.from == e.to && e.from < n) {
            let x = choose|x: int| 0 <= x < p.len() && #[trigger] p[x] == e && u[x];
            let i = choose|i: int| 0 <= i < orbs.len() && s[i] && #[trigger] orbs[i].contains(p[x]);
        }
        if system_of_orbits(orbs, s, n).contains(e) && !(e.from == e.to && e.from < n) {
            let i = choose|i: int| 0 <= i < orbs.len() && s[i] && #[trigger] orbs[i].contains(e);
            let t = choose|t: int| 0 <= t < orbs[i].len() && orbs[i][t] == e;
            assert(is_proper(l, orbs[i][t]));
            assert(p.contains(e));
            let x = choose|x: int| 0 <= x < p.len() && p[x] == e;
            assert(u[x]);
        }
    }
    assert(system_of(p, u, n) =~= system_of_orbits(orbs, s, n));
}

/// Expansion loses nothing: different selections expand differently.
proof fn lemma_expanded_injective<A>(l: Lattice<A>, p: Seq<Edge>, orbs: Seq<Seq<Edge>>, s: Seq<bool>, t: Seq<bool>)
    requires
        is_proper_list(l, p),
        orbit_family(l, orbs),
        s.len() == orbs.len(),
        t.len() == orbs.len(),
        expanded(orbs, s, p) == expanded(orbs, t, p),
    ensures
        s == t,
{
    assert forall|i: int| 0 <= i < orbs.len() implies s[i] == t[i] by {
        let e = orbs[i][0];
        assert(is_proper(l, e));
        assert(p.contains(e));
        let x = choose|x: int| 0 <= x < p.len() && p[x] == e;
        let (i0, u0) = lemma_locate(l, orbs, e);
        assert(orbs[i].contains(e));
        assert(expanded(orbs, s, p)[x] == s[i]);
        assert(expanded(orbs, t, p)[x] == t[i]);
    }
    assert(s =~= t);
}

/// The closed selections of the orbit context are exactly the selections
/// whose classes, with the identities, form a transfer system.
pub proof fn lemma_orbit_closed_iff<A>(l: Lattice<A>, p: Seq<Edge>, orbs: Seq<Seq<Edge>>, attrs: Seq<usize>, s: Seq<bool>)
    requires
        orbit_closure_setting(l, p, orbs, attrs, s),
    ensures
        is_closed(orbit_context(l, orbs, attrs), attrs.len(), s) <==> is_transfer_system(
            l,
            system_of_orbits(orbs, s, l.card()),
        ),
{
    let mm = orbit_context(l, orbs, attrs);
    let u = expanded(orbs, s, p);
    let cm = closure_of(mm, attrs.len(), s);
    lemma_orbit_closure(l, p, orbs, attrs, s);
    lemma_expanded_system(l, p, orbs, s);
    lemma_closed_iff_transfer_system(l, p, u);
    if is_closed(mm, attrs.len(), s) {
        assert(cm == s);
    }
    if is_transfer_system(l, system_of_orbits(orbs, s, l.card())) {
        assert(closure_of(transfer_context(l, p), p.len(), u) == u);
        lemma_expanded_injective(l, p, orbs, cm, s);
    }
}

/// The orbit closure of a selection gives the least transfer system
/// containing its classes; that transfer system is made of whole classes.
pub proof fn lemma_orbit_closure_least<A>(l: Lattice<A>, p: Seq<Edge>, orbs: Seq<Seq<Edge>>, attrs: Seq<usize>, s: Seq<bool>)
    requires
        orbit_closure_setting(l, p, orbs, attrs, s),
    ensures
        is_transfer_system(l, system_of_orbits(orbs, closure_of(orbit_context(l, orbs, attrs), attrs.len(), s), l.card())),
        is_closed(orbit_context(l, orbs, attrs), attrs.len(), closure_of(orbit_context(l, orbs, attrs), attrs.len(), s)),
        forall|i: int| 0 <= i < s.len() && #[trigger] s[i] ==> closure_of(orbit_context(l, orbs, attrs), attrs.len(), s)[i],
        forall|q: Set<Edge>|
            #[trigger] is_transfer_system(l, q) && system_of_orbits(orbs, s, l.card()).subset_of(q) ==> system_of_orbits(
                orbs,
                closure_of(orbit_context(l, orbs, attrs), attrs.len(), s),
                l.card(),
            ).subset_of(q),
{
    let n = l.card();
    let nn = transfer_context(l, p);
    let mm = orbit_context(l, orbs, attrs);
    let u = expanded(orbs, s, p);
    let cm = closure_of(mm, attrs.len(), s);
    lemma_orbit_closure(l, p, orbs, attrs, s);
    lemma_expanded_system(l, p, orbs, s);
    lemma_expanded_system(l, p, orbs, cm);
    lemma_closure_is_transfer_system(l, p, u);
    lemma_closure_extensive(mm, attrs.len(), s);
    assert(cm.len() == orbs.len());
    lemma_orbit_closed_iff(l, p, orbs, attrs, cm);
    assert forall|q: Set<Edge>|
        #[trigger] is_transfer_system(l, q) && system_of_orbits(orbs, s, n).subset_of(q) implies system_of_orbits(orbs, cm, n).subset_of(q) by {
        lemma_system_of_bits_in(l, p, q);
        let bq = bits_in(p, q);
        lemma_closure_is_least(l, p, u, bq);
    }
}

/// Between two ends where the leader count passes `c`, some point leads
/// with exactly `c` leaders before it.
proof fn lemma_leader_count_passes(labels: Seq<usize>, a: int, b: int, c: int)
    requires
        0 <= a <= b,
        leaders_below(labels, a) <= c < leaders_below(labels, b),
    ensures
        exists|e: int| a <= e < b && #[trigger] leads(labels, e) && leaders_below(labels, e) == c,
    decreases b - a,
{
    if leaders_below(labels, b - 1) > c {
        lemma_leader_count_passes(labels, a, b - 1, c);
    } else {
        assert(leads(labels, b - 1) && leaders_below(labels, b - 1) == c);
    }
}

/// Every label below the number of classes is used.
pub proof fn lemma_labels_used(gens: Seq<Seq<usize>>, n: int, labels: Seq<usize>, c: int)
    requires
        orbit_labelling(gens, n, labels),
        0 <= c < layer_count_of(labels),
    ensures
        exists|v: int| 0 <= v < n && #[trigger] labels[v] == c,
{
    lemma_layer_count_bounds(labels);
    let p = choose|v: int| 0 <= v < labels.len() && layer_count_of(labels) == #[trigger] labels[v] + 1;
    assert(reached_from_first(gens, labels, p));
    let s = choose|s: int| 0 <= s <= p && #[trigger] labels[s] == labels[p] && leads(labels, s) && reachable(gens, s, p);
    assert(leads(labels, s));
    assert(labels[s] == leaders_below(labels, s));
    assert(leaders_below(labels, 0) == 0);
    assert(leaders_below(labels, s + 1) == leaders_below(labels, s) + 1);
    lemma_leader_count_passes(labels, 0, s + 1, c);
    let e = choose|e: int| 0 <= e < s + 1 && #[trigger] leads(labels, e) && leaders_below(labels, e) == c;
    assert(labels[e] == leaders_below(labels, e));
}

/// A generator step keeps a relation an identity, or keeps it proper.
proof fn lemma_step_identity<A>(
    l: Lattice<A>,
    gens: Seq<Seq<usize>>,
    r: Seq<Edge>,
    rgens: Seq<Seq<usize>>,
    labels: Seq<usize>,
    q: int,
    g: int,
)
    requires
        orbit_setting(l, gens, r, rgens, labels),
        0 <= q < r.len(),
        0 <= g < gens.len(),
    ensures
        rgens[g][q] < r.len(),
        (r[q].from == r[q].to) == (r[rgens[g][q] as int].from == r[rgens[g][q] as int].to),
{
    assert(is_automorphism(l, gens[g]));
    assert(relation_action(r, gens[g], rgens[g]));
    if r[rgens[g][q] as int].from == r[rgens[g][q] as int].to {
        lemma_permutation_injective(gens[g], l.card() as int, r[q].from as int, r[q].to as int);
    }
}

/// Identities stay identities along a walk.
proof fn lemma_walk_identity<A>(
    l: Lattice<A>,
    gens: Seq<Seq<usize>>,
    r: Seq<Edge>,
    rgens: Seq<Seq<usize>>,
    labels: Seq<usize>,
    w: Seq<usize>,
    i: int,
)
    requires
        orbit_setting(l, gens, r, rgens, labels),
        is_walk(rgens, w),
        w[0] < r.len(),
        0 <= i < w.len(),
    ensures
        w[i] < r.len(),
        (r[w[0] as int].from == r[w[0] as int].to) == (r[w[i] as int].from == r[w[i] as int].to),
    decreases i,
{
    if i > 0 {
        lemma_walk_identity(l, gens, r, rgens, labels, w, i - 1);
        let j = i - 1;
        assert(step(rgens, w[j] as int, w[j + 1] as int));
        let g = choose|g: int| 0 <= g < rgens.len() && #[trigger] rgens[g][w[j] as int] == w[j + 1];
        lemma_step_identity(l, gens, r, rgens, labels, w[j] as int, g);
    }
}

/// A class consists of identities only, or of proper relations only.
pub proof fn lemma_class_identity<A>(
    l: Lattice<A>,
    gens: Seq<Seq<usize>>,
    r: Seq<Edge>,
    rgens: Seq<Seq<usize>>,
    labels: Seq<usize>,
    q: int,
    q2: int,
)
    requires
        orbit_setting(l, gens, r, rgens, labels),
        0 <= q < r.len(),
        0 <= q2 < r.len(),
        labels[q] == labels[q2],
    ensures
        (r[q].from == r[q].to) == (r[q2].from == r[q2].to),
{
    assert(reached_from_first(rgens, labels, q));
    assert(reached_from_first(rgens, labels, q2));
    let s = choose|s: int| 0 <= s <= q && #[trigger] labels[s] == labels[q] && leads(labels, s) && reachable(rgens, s, q);
    let s2 = choose|s: int| 0 <= s <= q2 && #[trigger] labels[s] == labels[q2] && leads(labels, s) && reachable(rgens, s, q2);
    if s < s2 {
        assert(labels[s] != labels[s2]);
    } else if s2 < s {
        assert(labels[s2] != labels[s]);
    }
    reveal(reachable);
    let w = choose|w: Seq<usize>| #[trigger] is_walk(rgens, w) && w[0] == s && w.last() == q;
    let w2 = choose|w: Seq<usize>| #[trigger] is_walk(rgens, w) && w[0] == s2 && w.last() == q2;
    lemma_walk_identity(l, gens, r, rgens, labels, w, w.len() - 1);
    lemma_walk_identity(l, gens, r, rgens, labels, w2, w2.len() - 1);
}

/// The relations of the classes listed in `layers`, for the chosen layers.
pub open spec fn selected_orbits(r: Seq<Edge>, layers: Seq<Seq<usize>>, sel: Seq<usize>) -> Seq<Seq<Edge>> {
    Seq::new(sel.len(), |i: int| layers[sel[i] as int].map_values(|k: usize| r[k as int]))
}

/// `sel` lists, in increasing order, the layers whose first relation is
/// not an identity.
pub open spec fn non_identity_selection(r: Seq<Edge>, layers: Seq<Seq<usize>>, sel: Seq<usize>) -> bool {
    &&& forall|i: int, j: int| 0 <= i < j < sel.len() ==> #[trigger] sel[i] < #[trigger] sel[j]
    &&& forall|i: int| 0 <= i < sel.len() ==> #[trigger] sel[i] < layers.len()
    &&& forall|c: int|
        0 <= c < layers.len() ==> (sel.contains(c as usize) <==> (#[trigger] r[layers[c][0] as int]).from
            != r[layers[c][0] as int].to)
}

/// The hypotheses under which the chosen layers of a labelling form a
/// uniform family of classes.
pub open spec fn layered_setting<A>(
    l: Lattice<A>,
    gens: Seq<Seq<usize>>,
    r: Seq<Edge>,
    rgens: Seq<Seq<usize>>,
    labels: Seq<usize>,
    layers: Seq<Seq<usize>>,
    sel: Seq<usize>,
) -> bool {
    &&& orbit_setting(l, gens, r, rgens, labels)
    &&& layers_partition(layers, labels)
    &&& layers.len() == layer_count_of(labels)
    &&& non_identity_selection(r, layers, sel)
}

/// Every layer of the labelling is nonempty.
pub proof fn lemma_layers_nonempty<A>(
    l: Lattice<A>,
    gens: Seq<Seq<usize>>,
    r: Seq<Edge>,
    rgens: Seq<Seq<usize>>,
    labels: Seq<usize>,
    layers: Seq<Seq<usize>>,
    c: int,
)
    requires
        orbit_setting(l, gens, r, rgens, labels),
        layers_partition(layers, labels),
        layers.len() == layer_count_of(labels),
        0 <= c < layers.len(),
    ensures
        layers[c].len() > 0,
{
    lemma_labels_used(rgens, r.len() as int, labels, c);
    let v = choose|v: int| 0 <= v < r.len() && #[trigger] labels[v] == c;
    assert(is_placed(layers, labels, v));
}

/// Lifting against a chosen class is lifting against its label class.
proof fn lemma_selected_lifting<A>(
    l: Lattice<A>,
    gens: Seq<Seq<usize>>,
    r: Seq<Edge>,
    rgens: Seq<Seq<usize>>,
    labels: Seq<usize>,
    layers: Seq<Seq<usize>>,
    sel: Seq<usize>,
    i: int,
    e: Edge,
)
    requires
        layered_setting(l, gens, r, rgens, labels, layers, sel),
        0 <= i < sel.len(),
    ensures
        all_lift_into(l, selected_orbits(r, layers, sel)[i], e) == class_lifts_into(l, r, labels, sel[i], e),
        lifts_into_all(l, e, selected_orbits(r, layers, sel)[i]) == lifts_into_class(l, r, labels, sel[i], e),
{
    let o = selected_orbits(r, layers, sel)[i];
    let c = sel[i] as int;
    if all_lift_into(l, o, e) {
        assert forall|a: int| 0 <= a < r.len() && labels[a] == c implies #[trigger] lifts(l.order(), r[a], e) by {
            assert(is_placed(layers, labels, a));
            let k = choose|k: int| #[trigger] placed_at(layers, labels, a, k);
            assert(o[k] == r[a]);
        }
    }
    if class_lifts_into(l, r, labels, sel[i], e) {
        assert forall|k: int| 0 <= k < o.len() implies #[trigger] lifts(l.order(), o[k], e) by {
            assert(layers[c][k] < labels.len() && labels[layers[c][k] as int] == c);
            assert(lifts(l.order(), r[layers[c][k] as int], e));
        }
    }
    if lifts_into_all(l, e, o) {
        assert forall|a: int| 0 <= a < r.len() && labels[a] == c implies #[trigger] lifts(l.order(), e, r[a]) by {
            assert(is_placed(layers, labels, a));
            let k = choose|k: int| #[trigger] placed_at(layers, labels, a, k);
            assert(o[k] == r[a]);
        }
    }
    if lifts_into_class(l, r, labels, sel[i], e) {
        assert forall|k: int| 0 <= k < o.len() implies #[trigger] lifts(l.order(), e, o[k]) by {
            assert(layers[c][k] < labels.len() && labels[layers[c][k] as int] == c);
            assert(lifts(l.order(), e, r[layers[c][k] as int]));
        }
    }
}

/// The chosen layers form a family of classes of proper relations, and
/// lifting against a class is constant along every class.
pub proof fn lemma_setting_family<A>(
    l: Lattice<A>,
    gens: Seq<Seq<usize>>,
    r: Seq<Edge>,
    rgens: Seq<Seq<usize>>,
    labels: Seq<usize>,
    layers: Seq<Seq<usize>>,
    sel: Seq<usize>,
)
    requires
        layered_setting(l, gens, r, rgens, labels, layers, sel),
    ensures
        orbit_family(l, selected_orbits(r, layers, sel)),
        uniform_family(l, selected_orbits(r, layers, sel)),
{
    let orbs = selected_orbits(r, layers, sel);
    assert(labels.len() == r.len());
    assert forall|i: int| 0 <= i < orbs.len() implies (#[trigger] orbs[i]).len() > 0 by {
        lemma_layers_nonempty(l, gens, r, rgens, labels, layers, sel[i] as int);
    }
    assert forall|i: int, k: int| 0 <= i < orbs.len() && 0 <= k < orbs[i].len() implies is_proper(l, #[trigger] orbs[i][k]) by {
        let c = sel[i] as int;
        lemma_layers_nonempty(l, gens, r, rgens, labels, layers, c);
        let q = layers[c][k] as int;
        let q0 = layers[c][0] as int;
        assert(sel.contains(c as usize));
        lemma_class_identity(l, gens, r, rgens, labels, q, q0);
    }
    assert forall|i: int, j: int, k: int, t: int|
        0 <= i < orbs.len() && 0 <= j < orbs.len() && 0 <= k < orbs[i].len() && 0 <= t < orbs[j].len()
            && #[trigger] orbs[i][k] == #[trigger] orbs[j][t] implies i == j && k == t by {
        let q1 = layers[sel[i] as int][k] as int;
        let q2 = layers[sel[j] as int][t] as int;
        assert(r[q1] == r[q2]);
        assert(q1 == q2);
        if i < j {
            assert(sel[i] < sel[j]);
        } else if j < i {
            assert(sel[j] < sel[i]);
        }
        if k < t {
            assert(layers[sel[i] as int][k] != layers[sel[i] as int][t]);
        } else if t < k {
            assert(layers[sel[i] as int][t] != layers[sel[i] as int][k]);
        }
    }
    assert forall|e: Edge| is_proper(l, e) implies #[trigger] in_family(orbs, e) by {
        assert(r.contains(e));
        let q = choose|q: int| 0 <= q < r.len() && r[q] == e;
        let c = labels[q] as int;
        assert(is_placed(layers, labels, q));
        let k = choose|k: int| #[trigger] placed_at(layers, labels, q, k);
        lemma_layers_nonempty(l, gens, r, rgens, labels, layers, c);
        lemma_class_identity(l, gens, r, rgens, labels, q, layers[c][0] as int);
        assert(sel.contains(c as usize));
        let i = choose|i: int| 0 <= i < sel.len() && sel[i] == c as usize;
        assert(orbs[i][k] == e);
    }
    assert forall|i: int, j: int| 0 <= i < orbs.len() && 0 <= j < orbs.len() implies #[trigger] uniform_pair(l, orbs, i, j) by {
        assert forall|k: int, t: int| 0 <= k < orbs[j].len() && 0 <= t < orbs[j].len() implies (all_lift_into(
            l,
            orbs[i],
            #[trigger] orbs[j][k],
        ) <==> all_lift_into(l, orbs[i], #[trigger] orbs[j][t])) && (lifts_into_all(l, orbs[j][k], orbs[i]) <==> lifts_into_all(
            l,
            orbs[j][t],
            orbs[i],
        )) by {
            let cj = sel[j] as int;
            let qk = layers[cj][k] as int;
            let qt = layers[cj][t] as int;
            lemma_selected_lifting(l, gens, r, rgens, labels, layers, sel, i, orbs[j][k]);
            lemma_selected_lifting(l, gens, r, rgens, labels, layers, sel, i, orbs[j][t]);
            lemma_class_lifting_uniform(l, gens, r, rgens, labels, sel[i], qk, qt);
        }
    }
}

/// No more points lead below `end` than there are points below it.
proof fn lemma_leaders_below_bound(labels: Seq<usize>, end: int)
    requires
        0 <= end,
    ensures
        leaders_below(labels, end) <= end,
        0 <= leaders_below(labels, end),
    decreases end,
{
    if end > 0 {
        lemma_leaders_below_bound(labels, end - 1);
    }
}

/// Every label is smaller than the number of points.
pub proof fn lemma_labels_below(gens: Seq<Seq<usize>>, n: int, labels: Seq<usize>)
    requires
        orbit_labelling(gens, n, labels),
    ensures
        forall|q: int| 0 <= q < n ==> #[trigger] labels[q] < n,
{
    assert forall|q: int| 0 <= q < n implies #[trigger] labels[q] < n by {
        assert(reached_from_first(gens, labels, q));
        let s = choose|s: int| 0 <= s <= q && #[trigger] labels[s] == labels[q] && leads(labels, s) && reachable(gens, s, q);
        lemma_leaders_below_bound(labels, s);
    }
}

} // verus!
