//! Transfer-system maps induced by monotone maps between finite lattices.
//!
//! A monotone map `f: L -> M` sends a relation `x <= y` to `f(x) <= f(y)`.
//! Sending every arrow of a transfer system this way may lose restriction
//! closure, so [`pushforward`] takes the least transfer system containing the
//! image arrows.  Its right adjoint [`pullback`] takes the greatest transfer
//! system contained in the pointwise inverse image: for transfer systems `S`
//! on `L` and `T` on `M`, `pushforward(S) <= T` exactly when
//! `S <= pullback(T)`.
//!
//! [`generated_inverse_image`] takes the *least* transfer system containing
//! the pointwise inverse image.  It is generally different from the pullback;
//! for a meet-preserving map, including every lattice homomorphism, the raw
//! inverse image is already a transfer system and the two agree.
//!
//! Map endpoints and universes must share the same stored order: an
//! independently reconstructed, structurally equal lattice does not.

use crate::bits::{equal_bits, subset_bits, Bits};
use crate::edges::{Edge, ElementId};
use crate::lattice::Lattice;
use crate::morphism::{is_monotone_map, MonotoneMap};
use crate::order::{is_meet, lemma_bounds_unique};
use crate::shared::arc_clone;
use crate::composition_order::{
    composition_matrix, factorization_failure_for_raw, first_failure, relation_pairs, TransferPoset,
};
use crate::morphism::PosetMap;
use crate::order::{is_cover, lemma_covers_generate};
use crate::transfer_lattice::{
    bits_in, lemma_system_of_bits_in, raw_bits, RawTransferSystem, TransferLattice, TransferSystem,
    TransferUniverse,
};
use crate::transfer_theory::{
    closure_of, is_proper_list, is_transfer_system, lemma_closed_iff_transfer_system,
    lemma_closure_extensive, lemma_closure_is_least,
    lemma_closure_is_transfer_system, lemma_transfer_system_is_closed, lemma_ts_compose,
    lemma_ts_identity, lemma_ts_order, lemma_ts_restrict, system_of, transfer_context,
};
use std::sync::Arc;
use vstd::prelude::*;

verus! {

/// Errors produced while applying or materializing an induced transfer-system map.
#[derive(Debug, Clone, Copy, PartialEq, Eq, Structural)]
pub enum TransferMapError {
    /// The input expected to lie over the monotone map's domain does not.
    DomainMismatch,
    /// The input expected to lie over the monotone map's codomain does not.
    CodomainMismatch,
    /// A proper source relation did not map to an indexed codomain relation.
    InvalidImageRelation {
        /// The source relation.
        source: Edge,
        /// Its purported image.
        image: Edge,
    },
    /// A computed pushforward was absent from an enumerated codomain order.
    PushforwardImageMissing,
    /// A computed pullback was absent from an enumerated codomain order.
    PullbackImageMissing,
    /// A computed generated inverse image was absent from an enumerated order.
    GeneratedInverseImageMissing,
}

/// The image of a relation under the map with element images `images`.
pub open spec fn image_edge(images: Seq<usize>, e: Edge) -> Edge {
    Edge { from: images[e.from as int], to: images[e.to as int] }
}

/// The images of the relations in `s`.
pub open spec fn image_of(images: Seq<usize>, s: Set<Edge>) -> Set<Edge> {
    Set::new(|e: Edge| exists|f: Edge| #[trigger] s.contains(f) && image_edge(images, f) == e)
}

/// The relations `x <= y` of `l` whose image lies in `t`.
pub open spec fn preimage_of<A>(l: Lattice<A>, images: Seq<usize>, t: Set<Edge>) -> Set<Edge> {
    Set::new(
        |e: Edge|
            e.from < l.card() && e.to < l.card() && l.le(e.from as int, e.to as int) && t.contains(
                image_edge(images, e),
            ),
    )
}

/// `r` is the least transfer system on `l` containing `gens`.
pub open spec fn is_least_system_containing<A>(l: Lattice<A>, r: Set<Edge>, gens: Set<Edge>) -> bool {
    &&& is_transfer_system(l, r)
    &&& gens.subset_of(r)
    &&& forall|q: Set<Edge>| #[trigger] is_transfer_system(l, q) && gens.subset_of(q) ==> r.subset_of(q)
}

/// `r` is the greatest transfer system on `l` contained in `bound`.
pub open spec fn is_greatest_system_within<A>(l: Lattice<A>, r: Set<Edge>, bound: Set<Edge>) -> bool {
    &&& is_transfer_system(l, r)
    &&& r.subset_of(bound)
    &&& forall|q: Set<Edge>| #[trigger] is_transfer_system(l, q) && q.subset_of(bound) ==> q.subset_of(r)
}

/// Every restriction `(x /\ z) -> z` of `e = x -> y`, with `z <= y`, has its
/// image in `t`.
pub open spec fn restrictions_in<A>(l: Lattice<A>, images: Seq<usize>, t: Set<Edge>, e: Edge) -> bool {
    forall|z: int|
        0 <= z < l.card() && #[trigger] l.le(z, e.to as int) ==> t.contains(
            image_edge(images, Edge { from: l.meet_of(e.from as int, z) as usize, to: z as usize }),
        )
}

/// The relations `x <= y` of `l` all of whose restrictions map into `t`.
pub open spec fn restricted_preimage_of<A>(l: Lattice<A>, images: Seq<usize>, t: Set<Edge>) -> Set<Edge> {
    Set::new(
        |e: Edge|
            e.from < l.card() && e.to < l.card() && l.le(e.from as int, e.to as int) && restrictions_in(
                l,
                images,
                t,
                e,
            ),
    )
}

/// The map sends every meet of `l` to the meet of the images in `m`.
pub open spec fn preserves_meets<A, B>(l: Lattice<A>, m: Lattice<B>, images: Seq<usize>) -> bool {
    forall|i: int, j: int|
        0 <= i < l.card() && 0 <= j < l.card() ==> #[trigger] m.meet_of(images[i] as int, images[j] as int)
            == images[l.meet_of(i, j)] as int
}

/// The map is monotone from `l` to `m`.
pub open spec fn monotone_between<A, B>(l: Lattice<A>, m: Lattice<B>, images: Seq<usize>) -> bool {
    is_monotone_map(l.order(), l.card(), m.order(), m.card(), images)
}

/// `z <= x` makes `z` the meet of `x` and `z`.
proof fn lemma_meet_below<A>(l: Lattice<A>, x: int, z: int)
    requires
        l.wf(),
        0 <= x < l.card(),
        0 <= z < l.card(),
        l.le(z, x),
    ensures
        l.meet_of(x, z) == z,
{
    assert(is_meet(l.order(), l.card(), x, z, l.meet_of(x, z)));
    assert(is_meet(l.order(), l.card(), x, z, z));
    lemma_bounds_unique(l.order(), l.card(), x, z, l.meet_of(x, z), z);
}

/// `x <= y` gives `x /\ (y /\ z) = x /\ z`.
proof fn lemma_meet_absorb<A>(l: Lattice<A>, x: int, y: int, z: int)
    requires
        l.wf(),
        0 <= x < l.card(),
        0 <= y < l.card(),
        0 <= z < l.card(),
        l.le(x, y),
    ensures
        l.meet_of(x, l.meet_of(y, z)) == l.meet_of(x, z),
{
    let ord = l.order();
    let n = l.card();
    let yz = l.meet_of(y, z);
    let a = l.meet_of(x, yz);
    let b = l.meet_of(x, z);
    assert(is_meet(ord, n, y, z, yz));
    assert(is_meet(ord, n, x, yz, a));
    assert(is_meet(ord, n, x, z, b));
    assert(ord[a][z]);
    assert(is_meet(ord, n, x, z, a));
    lemma_bounds_unique(ord, n, x, z, a, b);
}

/// `z' <= z` gives `(x /\ z) /\ z' = x /\ z'`.
proof fn lemma_meet_restrict<A>(l: Lattice<A>, x: int, z: int, w: int)
    requires
        l.wf(),
        0 <= x < l.card(),
        0 <= z < l.card(),
        0 <= w < l.card(),
        l.le(w, z),
    ensures
        l.meet_of(l.meet_of(x, z), w) == l.meet_of(x, w),
{
    let ord = l.order();
    let n = l.card();
    let xz = l.meet_of(x, z);
    let a = l.meet_of(xz, w);
    let b = l.meet_of(x, w);
    assert(is_meet(ord, n, x, z, xz));
    assert(is_meet(ord, n, xz, w, a));
    assert(is_meet(ord, n, x, w, b));
    assert(ord[b][z]);
    assert(ord[b][xz]);
    assert(is_meet(ord, n, xz, w, b));
    lemma_bounds_unique(ord, n, xz, w, a, b);
}

/// The relations whose restrictions all map into a transfer system `t` form
/// the greatest transfer system inside the inverse image of `t`.
pub proof fn lemma_restricted_preimage_is_greatest<A, B>(l: Lattice<A>, m: Lattice<B>, images: Seq<usize>, t: Set<Edge>)
    requires
        l.wf(),
        m.wf(),
        monotone_between(l, m, images),
        is_transfer_system(m, t),
    ensures
        is_greatest_system_within(l, restricted_preimage_of(l, images, t), preimage_of(l, images, t)),
{
    let r = restricted_preimage_of(l, images, t);
    let pre = preimage_of(l, images, t);
    let n = l.card();
    assert(is_transfer_system(l, r)) by {
        reveal(is_transfer_system);
        assert forall|i: usize| i < n implies #[trigger] r.contains(Edge { from: i, to: i }) by {
            let e = Edge { from: i, to: i };
            assert forall|z: int| 0 <= z < n && #[trigger] l.le(z, e.to as int) implies t.contains(
                image_edge(images, Edge { from: l.meet_of(e.from as int, z) as usize, to: z as usize }),
            ) by {
                lemma_meet_below(l, i as int, z);
                lemma_ts_identity(m, t, images[z]);
            }
        }
        assert forall|e: Edge, f: Edge| #[trigger] r.contains(e) && #[trigger] r.contains(f) && e.to == f.from implies r.contains(
            Edge { from: e.from, to: f.to },
        ) by {
            let g = Edge { from: e.from, to: f.to };
            assert forall|z: int| 0 <= z < n && #[trigger] l.le(z, g.to as int) implies t.contains(
                image_edge(images, Edge { from: l.meet_of(g.from as int, z) as usize, to: z as usize }),
            ) by {
                let yz = l.meet_of(f.from as int, z);
                assert(l.le(f.from as int, f.to as int));
                assert(t.contains(image_edge(images, Edge { from: yz as usize, to: z as usize })));
                assert(is_meet(l.order(), n, f.from as int, z, yz));
                assert(l.le(yz, e.to as int));
                assert(t.contains(image_edge(images, Edge { from: l.meet_of(e.from as int, yz) as usize, to: yz as usize })));
                lemma_meet_absorb(l, e.from as int, e.to as int, z);
                lemma_ts_compose(
                    m,
                    t,
                    image_edge(images, Edge { from: l.meet_of(e.from as int, z) as usize, to: yz as usize }),
                    image_edge(images, Edge { from: yz as usize, to: z as usize }),
                );
            }
        }
        assert forall|e: Edge, z: usize| #[trigger] r.contains(e) && z < n && #[trigger] l.le(z as int, e.to as int) implies r.contains(
            Edge { from: l.meet_of(e.from as int, z as int) as usize, to: z },
        ) by {
            let xz = l.meet_of(e.from as int, z as int);
            let g = Edge { from: xz as usize, to: z };
            assert(is_meet(l.order(), n, e.from as int, z as int, xz));
            assert forall|w: int| 0 <= w < n && #[trigger] l.le(w, g.to as int) implies t.contains(
                image_edge(images, Edge { from: l.meet_of(g.from as int, w) as usize, to: w as usize }),
            ) by {
                lemma_meet_restrict(l, e.from as int, z as int, w);
                assert(l.le(w, e.to as int));
            }
        }
    }
    assert(r.subset_of(pre)) by {
        assert forall|e: Edge| r.contains(e) implies pre.contains(e) by {
            lemma_meet_below(l, e.to as int, e.from as int);
            assert(l.le(e.to as int, e.to as int));
            assert(is_meet(l.order(), n, e.from as int, e.to as int, l.meet_of(e.from as int, e.to as int)));
            assert(is_meet(l.order(), n, e.from as int, e.to as int, e.from as int));
            lemma_bounds_unique(l.order(), n, e.from as int, e.to as int, l.meet_of(e.from as int, e.to as int), e.from as int);
        }
    }
    assert forall|q: Set<Edge>| #[trigger] is_transfer_system(l, q) && q.subset_of(pre) implies q.subset_of(r) by {
        assert forall|e: Edge| q.contains(e) implies r.contains(e) by {
            lemma_ts_order(l, q, e);
            assert forall|z: int| 0 <= z < n && #[trigger] l.le(z, e.to as int) implies t.contains(
                image_edge(images, Edge { from: l.meet_of(e.from as int, z) as usize, to: z as usize }),
            ) by {
                lemma_ts_restrict(l, q, e, z as usize);
            }
        }
    }
}

/// For a meet-preserving map the inverse image of a transfer system is a
/// transfer system.
pub proof fn lemma_preimage_is_system<A, B>(l: Lattice<A>, m: Lattice<B>, images: Seq<usize>, t: Set<Edge>)
    requires
        l.wf(),
        m.wf(),
        monotone_between(l, m, images),
        preserves_meets(l, m, images),
        is_transfer_system(m, t),
    ensures
        is_transfer_system(l, preimage_of(l, images, t)),
{
    let pre = preimage_of(l, images, t);
    let n = l.card();
    reveal(is_transfer_system);
    assert forall|i: usize| i < n implies #[trigger] pre.contains(Edge { from: i, to: i }) by {
        lemma_ts_identity(m, t, images[i as int]);
    }
    assert forall|e: Edge, f: Edge| #[trigger] pre.contains(e) && #[trigger] pre.contains(f) && e.to == f.from implies pre.contains(
        Edge { from: e.from, to: f.to },
    ) by {
        lemma_ts_compose(m, t, image_edge(images, e), image_edge(images, f));
    }
    assert forall|e: Edge, z: usize| #[trigger] pre.contains(e) && z < n && #[trigger] l.le(z as int, e.to as int) implies pre.contains(
        Edge { from: l.meet_of(e.from as int, z as int) as usize, to: z },
    ) by {
        let xz = l.meet_of(e.from as int, z as int);
        assert(is_meet(l.order(), n, e.from as int, z as int, xz));
        assert(m.le(images[z as int] as int, images[e.to as int] as int));
        lemma_ts_restrict(m, t, image_edge(images, e), images[z as int]);
        assert(m.meet_of(images[e.from as int] as int, images[z as int] as int) == images[xz] as int);
    }
}

/// Closing a bit vector gives the least transfer system containing the
/// relations it selects.
pub proof fn lemma_closure_least_containing<A>(l: Lattice<A>, p: Seq<Edge>, s: Seq<bool>)
    requires
        l.wf(),
        is_proper_list(l, p),
        s.len() == p.len(),
    ensures
        is_least_system_containing(
            l,
            system_of(p, closure_of(transfer_context(l, p), p.len(), s), l.card()),
            system_of(p, s, l.card()),
        ),
{
    let n = l.card();
    let c = closure_of(transfer_context(l, p), p.len(), s);
    let r = system_of(p, c, n);
    lemma_closure_is_transfer_system(l, p, s);
    lemma_closure_extensive(transfer_context(l, p), p.len(), s);
    assert(system_of(p, s, n).subset_of(r)) by {
        assert forall|e: Edge| system_of(p, s, n).contains(e) implies r.contains(e) by {
            if !(e.from == e.to && e.from < n) {
                let k = choose|k: int| 0 <= k < p.len() && #[trigger] p[k] == e && s[k];
                assert(c[k]);
            }
        }
    }
    assert forall|q: Set<Edge>| #[trigger] is_transfer_system(l, q) && system_of(p, s, n).subset_of(q) implies r.subset_of(q) by {
        lemma_system_of_bits_in(l, p, q);
        lemma_closure_is_least(l, p, s, bits_in(p, q));
    }
}

/// Two generating sets that agree up to identities generate the same least
/// transfer system.
pub proof fn lemma_least_up_to_identities<A>(l: Lattice<A>, r: Set<Edge>, x: Set<Edge>, y: Set<Edge>)
    requires
        l.wf(),
        is_least_system_containing(l, r, x),
        forall|e: Edge| #[trigger] y.contains(e) ==> x.contains(e) || (e.from == e.to && e.from < l.card()),
        forall|e: Edge| #[trigger] x.contains(e) ==> y.contains(e) || (e.from == e.to && e.from < l.card()),
    ensures
        is_least_system_containing(l, r, y),
{
    assert forall|e: Edge| y.contains(e) implies r.contains(e) by {
        if !x.contains(e) {
            lemma_ts_identity(l, r, e.from);
        }
    }
    assert forall|q: Set<Edge>| #[trigger] is_transfer_system(l, q) && y.subset_of(q) implies r.subset_of(q) by {
        assert forall|e: Edge| x.contains(e) implies q.contains(e) by {
            if !y.contains(e) {
                lemma_ts_identity(l, q, e.from);
            }
        }
    }
}

/// The image of the relation `e` is the image of one selected by
/// `bits[..k]`.
pub open spec fn hit_by(p: Seq<Edge>, bits: Seq<bool>, images: Seq<usize>, k: int, e: Edge) -> bool {
    exists|j: int| 0 <= j < k && bits[j] && #[trigger] image_edge(images, p[j]) == e
}

/// The proper relation `image` of the universe's lattice has an index.
proof fn lemma_image_is_indexed<B>(dst: TransferUniverse<B>, image: Edge)
    requires
        dst.wf(),
        image.from < dst.lattice_of().card(),
        image.to < dst.lattice_of().card(),
        image.from != image.to,
        dst.lattice_of().le(image.from as int, image.to as int),
    ensures
        dst.edges_of().contains(image),
{
}

/// Marks, for each proper relation of `dst`, whether it is the image of a
/// relation selected by `bits`.
fn push_generators<A, B>(images: &[ElementId], src: &TransferUniverse<A>, bits: &Bits, dst: &TransferUniverse<B>) -> (g: Bits)
    requires
        src.wf(),
        dst.wf(),
        bits@.len() == src.edges_of().len(),
        monotone_between(src.lattice_of(), dst.lattice_of(), images@),
    ensures
        g@.len() == dst.edges_of().len(),
        forall|t: int| 0 <= t < g@.len() ==> #[trigger] g@[t] == hit_by(src.edges_of(), bits@, images@, src.edges_of().len() as int, dst.edges_of()[t]),
{
    let ghost p = src.edges_of();
    let ghost q = dst.edges_of();
    let ghost l = src.lattice_of();
    let ghost m = dst.lattice_of();
    let src_edges = src.proper_edges();
    let index = dst.relation_index();
    let mut generators = Bits::repeat(false, dst.proper_edges().len());
    let mut k: usize = 0;
    while k < src_edges.len()
        invariant
            src.wf(),
            dst.wf(),
            p == src.edges_of(),
            q == dst.edges_of(),
            l == src.lattice_of(),
            m == dst.lattice_of(),
            src_edges@ == p,
            **index == dst.index_of(),
            bits@.len() == p.len(),
            monotone_between(l, m, images@),
            k <= p.len(),
            generators@.len() == q.len(),
            forall|t: int| 0 <= t < q.len() ==> #[trigger] generators@[t] == hit_by(p, bits@, images@, k as int, q[t]),
        decreases p.len() - k,
    {
        let ghost before = generators@;
        if bits.bit(k) {
            let source = src_edges[k];
            assert(l.le(source.from as int, source.to as int));
            let image = Edge::new(images[source.from], images[source.to]);
            if !image.is_identity() {
                match index.proper_edge_id(image) {
                    Some(t) => {
                        generators.set(t, true);
                    },
                    None => {
                        proof {
                            lemma_image_is_indexed(*dst, image);
                        }
                    },
                }
            }
        }
        proof {
            assert forall|t: int| 0 <= t < q.len() implies #[trigger] generators@[t] == hit_by(p, bits@, images@, k + 1, q[t]) by {
                if hit_by(p, bits@, images@, k + 1, q[t]) && !hit_by(p, bits@, images@, k as int, q[t]) {
                    let j = choose|j: int| 0 <= j < k + 1 && bits@[j] && #[trigger] image_edge(images@, p[j]) == q[t];
                    assert(j == k);
                    assert(q.no_duplicates());
                }
                if hit_by(p, bits@, images@, k as int, q[t]) {
                    let j = choose|j: int| 0 <= j < k && bits@[j] && #[trigger] image_edge(images@, p[j]) == q[t];
                    assert(0 <= j < k + 1 && bits@[j] && image_edge(images@, p[j]) == q[t]);
                }
                if generators@[t] && !before[t] {
                    assert(0 <= k < k + 1 && bits@[k as int] && image_edge(images@, p[k as int]) == q[t]);
                }
            }
        }
        k += 1;
    }
    generators
}

/// The map's domain and codomain posets carry the orders of `l` and `m`.
pub open spec fn lies_over<A, B, M: MonotoneMap<A, B>>(map: &M, l: Lattice<A>, m: Lattice<B>) -> bool {
    &&& map.source_poset().order() == l.order()
    &&& map.source_poset().card() == l.card()
    &&& map.target_poset().order() == m.order()
    &&& map.target_poset().card() == m.card()
}

/// Checks that the map's domain shares its stored order with the lattice of
/// `universe`.
fn validate_domain_lattice<A, B, M: MonotoneMap<A, B>>(map: &M, universe: &TransferUniverse<A>) -> (r: Result<(), TransferMapError>)
    requires
        map.monotone(),
        universe.wf(),
    ensures
        match r {
            Ok(()) => map.source_poset().order() == universe.lattice_of().order() && map.source_poset().card()
                == universe.lattice_of().card(),
            Err(e) => e == TransferMapError::DomainMismatch,
        },
{
    proof {
        map.lemma_monotone();
    }
    if map.domain_poset().shares_order_coordinates_with(universe.lattice().as_poset()) {
        Ok(())
    } else {
        Err(TransferMapError::DomainMismatch)
    }
}

/// Checks that the map's codomain shares its stored order with the lattice
/// of `universe`.
fn validate_codomain_lattice<A, B, M: MonotoneMap<A, B>>(map: &M, universe: &TransferUniverse<B>) -> (r: Result<(), TransferMapError>)
    requires
        map.monotone(),
        universe.wf(),
    ensures
        match r {
            Ok(()) => map.target_poset().order() == universe.lattice_of().order() && map.target_poset().card()
                == universe.lattice_of().card(),
            Err(e) => e == TransferMapError::CodomainMismatch,
        },
{
    proof {
        map.lemma_monotone();
    }
    if map.codomain_poset().shares_order_coordinates_with(universe.lattice().as_poset()) {
        Ok(())
    } else {
        Err(TransferMapError::CodomainMismatch)
    }
}

/// The generators marked by [`push_generators`] and the image arrows agree
/// up to identities.
proof fn lemma_pushforward_generators<A, B>(src: &TransferUniverse<A>, dst: &TransferUniverse<B>, images: Seq<usize>, bits: Seq<bool>, g: Seq<bool>)
    requires
        src.wf(),
        dst.wf(),
        bits.len() == src.edges_of().len(),
        monotone_between(src.lattice_of(), dst.lattice_of(), images),
        g.len() == dst.edges_of().len(),
        forall|t: int| 0 <= t < g.len() ==> #[trigger] g[t] == hit_by(src.edges_of(), bits, images, src.edges_of().len() as int, dst.edges_of()[t]),
    ensures
        forall|e: Edge| #[trigger] image_of(images, system_of(src.edges_of(), bits, src.lattice_of().card())).contains(e) ==> system_of(
            dst.edges_of(),
            g,
            dst.lattice_of().card(),
        ).contains(e) || (e.from == e.to && e.from < dst.lattice_of().card()),
        forall|e: Edge| #[trigger] system_of(dst.edges_of(), g, dst.lattice_of().card()).contains(e) ==> image_of(
            images,
            system_of(src.edges_of(), bits, src.lattice_of().card()),
        ).contains(e) || (e.from == e.to && e.from < dst.lattice_of().card()),
{
    let p = src.edges_of();
    let q = dst.edges_of();
    let l = src.lattice_of();
    let m = dst.lattice_of();
    let n = l.card();
    let sys = system_of(p, bits, n);
    assert forall|e: Edge| #[trigger] image_of(images, sys).contains(e) implies system_of(q, g, m.card()).contains(e) || (e.from == e.to
        && e.from < m.card()) by {
        let f = choose|f: Edge| #[trigger] sys.contains(f) && image_edge(images, f) == e;
        if f.from == f.to && f.from < n {
        } else {
            let j = choose|j: int| 0 <= j < p.len() && #[trigger] p[j] == f && bits[j];
            assert(l.le(f.from as int, f.to as int));
            if e.from != e.to {
                lemma_image_is_indexed(*dst, e);
                let t = choose|t: int| 0 <= t < q.len() && q[t] == e;
                assert(image_edge(images, p[j]) == q[t]);
                assert(hit_by(p, bits, images, p.len() as int, q[t]));
                assert(g[t]);
            }
        }
    }
    assert forall|e: Edge| #[trigger] system_of(q, g, m.card()).contains(e) implies image_of(images, sys).contains(e) || (e.from
        == e.to && e.from < m.card()) by {
        if !(e.from == e.to && e.from < m.card()) {
            let t = choose|t: int| 0 <= t < q.len() && #[trigger] q[t] == e && g[t];
            assert(hit_by(p, bits, images, p.len() as int, q[t]));
            let j = choose|j: int| 0 <= j < p.len() && bits[j] && #[trigger] image_edge(images, p[j]) == q[t];
            assert(sys.contains(p[j]));
        }
    }
}

/// The closed bits of the pushforward of the relations selected by `bits`.
fn push_bits<A, B, M: MonotoneMap<A, B>>(map: &M, src: &TransferUniverse<A>, bits: &Bits, dst: &TransferUniverse<B>) -> (r: Bits)
    requires
        map.monotone(),
        src.wf(),
        dst.wf(),
        lies_over(map, src.lattice_of(), dst.lattice_of()),
        bits@.len() == src.edges_of().len(),
    ensures
        r@.len() == dst.edges_of().len(),
        is_least_system_containing(
            dst.lattice_of(),
            system_of(dst.edges_of(), r@, dst.lattice_of().card()),
            image_of(map.image_ids(), system_of(src.edges_of(), bits@, src.lattice_of().card())),
        ),
{
    proof {
        map.lemma_monotone();
    }
    let generators = push_generators(map.images(), src, bits, dst);
    let closed = dst.close_arrows(&generators);
    let ghost q = dst.edges_of();
    let ghost m = dst.lattice_of();
    proof {
        lemma_pushforward_generators(src, dst, map.image_ids(), bits@, generators@);
        lemma_closure_least_containing(m, q, generators@);
        lemma_least_up_to_identities(
            m,
            system_of(q, closed@, m.card()),
            system_of(q, generators@, m.card()),
            image_of(map.image_ids(), system_of(src.edges_of(), bits@, src.lattice_of().card())),
        );
    }
    closed
}

/// Computes the pushforward of one transfer system along a monotone map:
/// the least transfer system on the codomain containing the image of every
/// relation of `system`.
///
/// The supplied codomain universe determines the relation coordinates of the
/// result; both universes must share their stored orders with the map's
/// posets, or `DomainMismatch` (checked first) or `CodomainMismatch` is
/// returned.
pub fn pushforward<A, B, M: MonotoneMap<A, B>>(map: &M, system: &TransferSystem<A>, codomain: &Arc<TransferUniverse<B>>) -> (r: Result<TransferSystem<B>, TransferMapError>)
    requires
        map.monotone(),
        system.wf(),
        codomain.wf(),
    ensures
        match r {
            Ok(ts) => {
                &&& ts.wf()
                &&& ts.universe_of() == **codomain
                &&& lies_over(map, system.universe_of().lattice_of(), codomain.lattice_of())
                &&& is_least_system_containing(
                    codomain.lattice_of(),
                    ts.relations(),
                    image_of(map.image_ids(), system.relations()),
                )
            },
            Err(e) => e == TransferMapError::DomainMismatch || e == TransferMapError::CodomainMismatch,
        },
{
    let source = system.universe();
    if let Err(e) = validate_domain_lattice(map, &**source) {
        return Err(e);
    }
    if let Err(e) = validate_codomain_lattice(map, &**codomain) {
        return Err(e);
    }
    let closed = push_bits(map, &**source, system.raw().arrows(), &**codomain);
    proof {
        lemma_closed_iff_transfer_system(codomain.lattice_of(), codomain.edges_of(), closed@);
    }
    Ok(TransferSystem::new(RawTransferSystem::new(closed), arc_clone(codomain)))
}

/// `t` holds the image of the restriction of `e` to each `z <= e.to` below
/// `bound`.
pub open spec fn restrictions_below<A>(l: Lattice<A>, images: Seq<usize>, t: Set<Edge>, e: Edge, bound: int) -> bool {
    forall|z: int|
        0 <= z < bound && #[trigger] l.le(z, e.to as int) ==> t.contains(
            image_edge(images, Edge { from: l.meet_of(e.from as int, z) as usize, to: z as usize }),
        )
}

/// A proper relation of the codomain belongs to the system exactly when
/// its bit is set.
proof fn lemma_bit_membership<B>(dst: &TransferUniverse<B>, tbits: Seq<bool>, t: int)
    requires
        dst.wf(),
        tbits.len() == dst.edges_of().len(),
        0 <= t < tbits.len(),
    ensures
        system_of(dst.edges_of(), tbits, dst.lattice_of().card()).contains(dst.edges_of()[t]) == tbits[t],
{
    let q = dst.edges_of();
    if system_of(q, tbits, dst.lattice_of().card()).contains(q[t]) && !tbits[t] {
        assert(q[t].from != q[t].to);
        let u = choose|u: int| 0 <= u < q.len() && #[trigger] q[u] == q[t] && tbits[u];
        assert(q.no_duplicates());
    }
}

/// Whether the system with bits `tbits` on `dst` holds `image`, a relation
/// of `dst`'s lattice.
fn system_holds<B>(dst: &TransferUniverse<B>, tbits: &Bits, image: Edge) -> (r: bool)
    requires
        dst.wf(),
        tbits@.len() == dst.edges_of().len(),
        image.from < dst.lattice_of().card(),
        image.to < dst.lattice_of().card(),
        dst.lattice_of().le(image.from as int, image.to as int),
    ensures
        r == system_of(dst.edges_of(), tbits@, dst.lattice_of().card()).contains(image),
{
    if image.is_identity() {
        return true;
    }
    match dst.relation_index().proper_edge_id(image) {
        Some(t) => {
            proof {
                lemma_bit_membership(dst, tbits@, t as int);
            }
            tbits.bit(t)
        },
        None => {
            proof {
                lemma_image_is_indexed(*dst, image);
            }
            false
        },
    }
}

/// For each proper relation of `src`, whether its image lies in the system
/// with bits `tbits` on `dst`.
fn raw_inverse_image_bits<A, B>(images: &[ElementId], src: &TransferUniverse<A>, tbits: &Bits, dst: &TransferUniverse<B>) -> (r: Bits)
    requires
        src.wf(),
        dst.wf(),
        tbits@.len() == dst.edges_of().len(),
        monotone_between(src.lattice_of(), dst.lattice_of(), images@),
    ensures
        r@.len() == src.edges_of().len(),
        forall|k: int| 0 <= k < r@.len() ==> #[trigger] r@[k] == system_of(dst.edges_of(), tbits@, dst.lattice_of().card()).contains(
            image_edge(images@, src.edges_of()[k]),
        ),
{
    let ghost p = src.edges_of();
    let ghost l = src.lattice_of();
    let ghost tset = system_of(dst.edges_of(), tbits@, dst.lattice_of().card());
    let src_edges = src.proper_edges();
    let mut arrows = Bits::repeat(false, src_edges.len());
    let mut k: usize = 0;
    while k < src_edges.len()
        invariant
            src.wf(),
            dst.wf(),
            p == src.edges_of(),
            l == src.lattice_of(),
            tset == system_of(dst.edges_of(), tbits@, dst.lattice_of().card()),
            src_edges@ == p,
            tbits@.len() == dst.edges_of().len(),
            monotone_between(l, dst.lattice_of(), images@),
            k <= p.len(),
            arrows@.len() == p.len(),
            forall|j: int| 0 <= j < k ==> #[trigger] arrows@[j] == tset.contains(image_edge(images@, p[j])),
        decreases p.len() - k,
    {
        let edge = src_edges[k];
        assert(l.le(edge.from as int, edge.to as int));
        let image = Edge::new(images[edge.from], images[edge.to]);
        let belongs = system_holds(dst, tbits, image);
        arrows.set(k, belongs);
        k += 1;
    }
    arrows
}

/// For each proper relation `x -> y` of `src`, whether every restriction
/// `(x /\ z) -> z`, `z <= y`, has its image in the system with bits `tbits`
/// on `dst`.
fn right_adjoint_bits<A, B>(images: &[ElementId], src: &TransferUniverse<A>, tbits: &Bits, dst: &TransferUniverse<B>) -> (r: Bits)
    requires
        src.wf(),
        dst.wf(),
        tbits@.len() == dst.edges_of().len(),
        monotone_between(src.lattice_of(), dst.lattice_of(), images@),
    ensures
        r@.len() == src.edges_of().len(),
        forall|k: int| 0 <= k < r@.len() ==> #[trigger] r@[k] == restrictions_in(
            src.lattice_of(),
            images@,
            system_of(dst.edges_of(), tbits@, dst.lattice_of().card()),
            src.edges_of()[k],
        ),
{
    let ghost p = src.edges_of();
    let ghost l = src.lattice_of();
    let ghost tset = system_of(dst.edges_of(), tbits@, dst.lattice_of().card());
    let lattice = src.lattice();
    let n = lattice.size();
    let src_edges = src.proper_edges();
    let mut arrows = Bits::repeat(false, src_edges.len());
    let mut k: usize = 0;
    while k < src_edges.len()
        invariant
            src.wf(),
            dst.wf(),
            p == src.edges_of(),
            l == src.lattice_of(),
            **lattice == l,
            n == l.card(),
            tset == system_of(dst.edges_of(), tbits@, dst.lattice_of().card()),
            src_edges@ == p,
            tbits@.len() == dst.edges_of().len(),
            monotone_between(l, dst.lattice_of(), images@),
            k <= p.len(),
            arrows@.len() == p.len(),
            forall|j: int| 0 <= j < k ==> #[trigger] arrows@[j] == restrictions_in(l, images@, tset, p[j]),
        decreases p.len() - k,
    {
        let edge = src_edges[k];
        let mut belongs = true;
        let mut z: usize = 0;
        while z < n && belongs
            invariant
                src.wf(),
                dst.wf(),
                l == src.lattice_of(),
                **lattice == l,
                n == l.card(),
                l.wf(),
                tset == system_of(dst.edges_of(), tbits@, dst.lattice_of().card()),
                tbits@.len() == dst.edges_of().len(),
                monotone_between(l, dst.lattice_of(), images@),
                edge.from < n,
                edge.to < n,
                z <= n,
                belongs == restrictions_below(l, images@, tset, edge, z as int),
            decreases n - z,
        {
            if lattice.leq(z, edge.to) {
                let restricted = lattice.meet_id(edge.from, z);
                assert(is_meet(l.order(), n as nat, edge.from as int, z as int, restricted as int));
                let image = Edge::new(images[restricted], images[z]);
                if !system_holds(dst, tbits, image) {
                    belongs = false;
                }
            }
            z += 1;
        }
        arrows.set(k, belongs);
        k += 1;
    }
    arrows
}

/// The relations selected by raw inverse-image bits are the inverse image.
proof fn lemma_inverse_image_bits<A, B>(l: Lattice<A>, m: Lattice<B>, p: Seq<Edge>, images: Seq<usize>, t: Set<Edge>, bits: Seq<bool>)
    requires
        l.wf(),
        m.wf(),
        is_proper_list(l, p),
        monotone_between(l, m, images),
        is_transfer_system(m, t),
        bits.len() == p.len(),
        forall|k: int| 0 <= k < bits.len() ==> #[trigger] bits[k] == t.contains(image_edge(images, p[k])),
    ensures
        system_of(p, bits, l.card()) == preimage_of(l, images, t),
{
    let n = l.card();
    assert forall|e: Edge| system_of(p, bits, n).contains(e) <==> preimage_of(l, images, t).contains(e) by {
        if e.from == e.to && e.from < n {
            lemma_ts_identity(m, t, images[e.from as int]);
        } else if preimage_of(l, images, t).contains(e) {
            assert(p.contains(e));
            let k = choose|k: int| 0 <= k < p.len() && p[k] == e;
            assert(bits[k]);
        } else if system_of(p, bits, n).contains(e) {
            let k = choose|k: int| 0 <= k < p.len() && #[trigger] p[k] == e && bits[k];
        }
    }
    assert(system_of(p, bits, n) =~= preimage_of(l, images, t));
}

/// The relations selected by right-adjoint bits are the restricted inverse
/// image.
proof fn lemma_right_adjoint_bits<A, B>(l: Lattice<A>, m: Lattice<B>, p: Seq<Edge>, images: Seq<usize>, t: Set<Edge>, bits: Seq<bool>)
    requires
        l.wf(),
        m.wf(),
        is_proper_list(l, p),
        monotone_between(l, m, images),
        is_transfer_system(m, t),
        bits.len() == p.len(),
        forall|k: int| 0 <= k < bits.len() ==> #[trigger] bits[k] == restrictions_in(l, images, t, p[k]),
    ensures
        system_of(p, bits, l.card()) == restricted_preimage_of(l, images, t),
{
    let n = l.card();
    let r = restricted_preimage_of(l, images, t);
    lemma_restricted_preimage_is_greatest(l, m, images, t);
    assert forall|e: Edge| system_of(p, bits, n).contains(e) <==> r.contains(e) by {
        if e.from == e.to && e.from < n {
            lemma_ts_identity(l, r, e.from);
        } else if r.contains(e) {
            assert(p.contains(e));
            let k = choose|k: int| 0 <= k < p.len() && p[k] == e;
            assert(bits[k]);
        } else if system_of(p, bits, n).contains(e) {
            let k = choose|k: int| 0 <= k < p.len() && #[trigger] p[k] == e && bits[k];
        }
    }
    assert(system_of(p, bits, n) =~= r);
}

/// A map known to preserve meets sends the meet of two elements to the meet
/// of their images.
proof fn lemma_trait_meets<A, B, M: MonotoneMap<A, B>>(map: &M, l: Lattice<A>, m: Lattice<B>)
    requires
        l.wf(),
        m.wf(),
        map.monotone(),
        map.meet_preserving(),
        lies_over(map, l, m),
    ensures
        preserves_meets(l, m, map.image_ids()),
{
    map.lemma_monotone();
    let images = map.image_ids();
    assert forall|i: int, j: int| 0 <= i < l.card() && 0 <= j < l.card() implies #[trigger] m.meet_of(images[i] as int, images[j] as int)
        == images[l.meet_of(i, j)] as int by {
        assert(is_meet(l.order(), l.card(), i, j, l.meet_of(i, j)));
        map.lemma_meet_preserving(i, j, l.meet_of(i, j));
        assert(is_meet(m.order(), m.card(), images[i] as int, images[j] as int, m.meet_of(images[i] as int, images[j] as int)));
        lemma_bounds_unique(m.order(), m.card(), images[i] as int, images[j] as int, m.meet_of(images[i] as int, images[j] as int), images[l.meet_of(i, j)] as int);
    }
}

/// The bits of the pullback of the system with bits `tbits` on `dst`.
fn pull_bits<A, B, M: MonotoneMap<A, B>>(map: &M, src: &TransferUniverse<A>, tbits: &Bits, dst: &TransferUniverse<B>) -> (r: Bits)
    requires
        map.monotone(),
        src.wf(),
        dst.wf(),
        lies_over(map, src.lattice_of(), dst.lattice_of()),
        tbits@.len() == dst.edges_of().len(),
        is_transfer_system(dst.lattice_of(), system_of(dst.edges_of(), tbits@, dst.lattice_of().card())),
    ensures
        r@.len() == src.edges_of().len(),
        is_greatest_system_within(
            src.lattice_of(),
            system_of(src.edges_of(), r@, src.lattice_of().card()),
            preimage_of(src.lattice_of(), map.image_ids(), system_of(dst.edges_of(), tbits@, dst.lattice_of().card())),
        ),
{
    proof {
        map.lemma_monotone();
    }
    let ghost l = src.lattice_of();
    let ghost m = dst.lattice_of();
    let ghost p = src.edges_of();
    let ghost t = system_of(dst.edges_of(), tbits@, dst.lattice_of().card());
    if map.is_known_meet_preserving() {
        let arrows = raw_inverse_image_bits(map.images(), src, tbits, dst);
        proof {
            lemma_trait_meets(map, l, m);
            lemma_inverse_image_bits(l, m, p, map.image_ids(), t, arrows@);
            lemma_preimage_is_system(l, m, map.image_ids(), t);
        }
        arrows
    } else {
        let arrows = right_adjoint_bits(map.images(), src, tbits, dst);
        proof {
            lemma_right_adjoint_bits(l, m, p, map.image_ids(), t, arrows@);
            lemma_restricted_preimage_is_greatest(l, m, map.image_ids(), t);
        }
        arrows
    }
}

/// The bits of the generated inverse image of the system with bits `tbits`
/// on `dst`.
fn generated_bits<A, B, M: MonotoneMap<A, B>>(map: &M, src: &TransferUniverse<A>, tbits: &Bits, dst: &TransferUniverse<B>) -> (r: Bits)
    requires
        map.monotone(),
        src.wf(),
        dst.wf(),
        lies_over(map, src.lattice_of(), dst.lattice_of()),
        tbits@.len() == dst.edges_of().len(),
        is_transfer_system(dst.lattice_of(), system_of(dst.edges_of(), tbits@, dst.lattice_of().card())),
    ensures
        r@.len() == src.edges_of().len(),
        is_least_system_containing(
            src.lattice_of(),
            system_of(src.edges_of(), r@, src.lattice_of().card()),
            preimage_of(src.lattice_of(), map.image_ids(), system_of(dst.edges_of(), tbits@, dst.lattice_of().card())),
        ),
{
    proof {
        map.lemma_monotone();
    }
    let ghost l = src.lattice_of();
    let ghost m = dst.lattice_of();
    let ghost p = src.edges_of();
    let ghost t = system_of(dst.edges_of(), tbits@, dst.lattice_of().card());
    let inverse = raw_inverse_image_bits(map.images(), src, tbits, dst);
    proof {
        lemma_inverse_image_bits(l, m, p, map.image_ids(), t, inverse@);
    }
    if map.is_known_meet_preserving() {
        proof {
            lemma_trait_meets(map, l, m);
            lemma_preimage_is_system(l, m, map.image_ids(), t);
        }
        inverse
    } else {
        let closed = src.close_arrows(&inverse);
        proof {
            lemma_closure_least_containing(l, p, inverse@);
        }
        closed
    }
}

/// Computes the right-adjoint pullback of one transfer system: the greatest
/// transfer system on the domain contained in the inverse image of `system`.
///
/// A relation `x -> y` belongs to the result exactly when, for every
/// `z <= y`, the relation `f(x /\ z) -> f(z)` belongs to `system`.  For a
/// map known to preserve meets the inverse image itself is used, which is
/// then already a transfer system.  The codomain is checked before the
/// domain.
pub fn pullback<A, B, M: MonotoneMap<A, B>>(map: &M, system: &TransferSystem<B>, domain: &Arc<TransferUniverse<A>>) -> (r: Result<TransferSystem<A>, TransferMapError>)
    requires
        map.monotone(),
        system.wf(),
        domain.wf(),
    ensures
        match r {
            Ok(ts) => {
                &&& ts.wf()
                &&& ts.universe_of() == **domain
                &&& lies_over(map, domain.lattice_of(), system.universe_of().lattice_of())
                &&& is_greatest_system_within(
                    domain.lattice_of(),
                    ts.relations(),
                    preimage_of(domain.lattice_of(), map.image_ids(), system.relations()),
                )
            },
            Err(e) => e == TransferMapError::DomainMismatch || e == TransferMapError::CodomainMismatch,
        },
{
    let target = system.universe();
    if let Err(e) = validate_codomain_lattice(map, &**target) {
        return Err(e);
    }
    if let Err(e) = validate_domain_lattice(map, &**domain) {
        return Err(e);
    }
    proof {
        lemma_closed_iff_transfer_system(system.universe_of().lattice_of(), system.universe_of().edges_of(), system.bits());
    }
    let arrows = pull_bits(map, &**domain, system.raw().arrows(), &**target);
    proof {
        lemma_closed_iff_transfer_system(domain.lattice_of(), domain.edges_of(), arrows@);
    }
    Ok(TransferSystem::new(RawTransferSystem::new(arrows), arc_clone(domain)))
}

/// Generates a transfer system from the raw inverse image of `system`: the
/// least transfer system on the domain containing every relation `x -> y`
/// for which `f(x) -> f(y)` belongs to `system`.
///
/// It is containment-monotone but generally not right adjoint to
/// [`pushforward`]; the two inverse images agree whenever the map preserves
/// meets.  The codomain is checked before the domain.
pub fn generated_inverse_image<A, B, M: MonotoneMap<A, B>>(map: &M, system: &TransferSystem<B>, domain: &Arc<TransferUniverse<A>>) -> (r: Result<TransferSystem<A>, TransferMapError>)
    requires
        map.monotone(),
        system.wf(),
        domain.wf(),
    ensures
        match r {
            Ok(ts) => {
                &&& ts.wf()
                &&& ts.universe_of() == **domain
                &&& lies_over(map, domain.lattice_of(), system.universe_of().lattice_of())
                &&& is_least_system_containing(
                    domain.lattice_of(),
                    ts.relations(),
                    preimage_of(domain.lattice_of(), map.image_ids(), system.relations()),
                )
            },
            Err(e) => e == TransferMapError::DomainMismatch || e == TransferMapError::CodomainMismatch,
        },
{
    let target = system.universe();
    if let Err(e) = validate_codomain_lattice(map, &**target) {
        return Err(e);
    }
    if let Err(e) = validate_domain_lattice(map, &**domain) {
        return Err(e);
    }
    proof {
        lemma_closed_iff_transfer_system(system.universe_of().lattice_of(), system.universe_of().edges_of(), system.bits());
    }
    let arrows = generated_bits(map, &**domain, system.raw().arrows(), &**target);
    proof {
        lemma_closed_iff_transfer_system(domain.lattice_of(), domain.edges_of(), arrows@);
    }
    Ok(TransferSystem::new(RawTransferSystem::new(arrows), arc_clone(domain)))
}

/// Pushforward is left adjoint to pullback: for transfer systems `s` on `l`
/// and `t` on `m`, the pushforward of `s` lies in `t` exactly when `s` lies
/// in the pullback of `t`.
pub proof fn lemma_pushforward_pullback_adjunction<A, B>(
    l: Lattice<A>,
    m: Lattice<B>,
    images: Seq<usize>,
    s: Set<Edge>,
    t: Set<Edge>,
    push: Set<Edge>,
    pull: Set<Edge>,
)
    requires
        l.wf(),
        m.wf(),
        monotone_between(l, m, images),
        is_transfer_system(l, s),
        is_transfer_system(m, t),
        is_least_system_containing(m, push, image_of(images, s)),
        is_greatest_system_within(l, pull, preimage_of(l, images, t)),
    ensures
        push.subset_of(t) <==> s.subset_of(pull),
{
    if push.subset_of(t) {
        assert forall|e: Edge| s.contains(e) implies preimage_of(l, images, t).contains(e) by {
            lemma_ts_order(l, s, e);
            assert(image_of(images, s).contains(image_edge(images, e)));
        }
        assert(is_transfer_system(l, s));
    }
    if s.subset_of(pull) {
        assert forall|e: Edge| image_of(images, s).contains(e) implies t.contains(e) by {
            let f = choose|f: Edge| #[trigger] s.contains(f) && image_edge(images, f) == e;
            assert(preimage_of(l, images, t).contains(f));
        }
        assert(is_transfer_system(m, t));
    }
}

/// For a meet-preserving map the pullback and the generated inverse image
/// coincide: both are the inverse image itself.
pub proof fn lemma_inverse_images_agree_when_meets_preserved<A, B>(
    l: Lattice<A>,
    m: Lattice<B>,
    images: Seq<usize>,
    t: Set<Edge>,
    pull: Set<Edge>,
    generated: Set<Edge>,
)
    requires
        l.wf(),
        m.wf(),
        monotone_between(l, m, images),
        preserves_meets(l, m, images),
        is_transfer_system(m, t),
        is_greatest_system_within(l, pull, preimage_of(l, images, t)),
        is_least_system_containing(l, generated, preimage_of(l, images, t)),
    ensures
        pull == preimage_of(l, images, t),
        generated == preimage_of(l, images, t),
{
    let pre = preimage_of(l, images, t);
    lemma_preimage_is_system(l, m, images, t);
    assert(pre.subset_of(pull));
    assert(generated.subset_of(pre));
    assert(pull =~= pre);
    assert(generated =~= pre);
}

/// Pushforward is monotone under containment.
pub proof fn lemma_pushforward_monotone<A, B>(
    l: Lattice<A>,
    m: Lattice<B>,
    images: Seq<usize>,
    s1: Set<Edge>,
    s2: Set<Edge>,
    push1: Set<Edge>,
    push2: Set<Edge>,
)
    requires
        l.wf(),
        m.wf(),
        s1.subset_of(s2),
        is_least_system_containing(m, push1, image_of(images, s1)),
        is_least_system_containing(m, push2, image_of(images, s2)),
    ensures
        push1.subset_of(push2),
{
    assert forall|e: Edge| image_of(images, s1).contains(e) implies push2.contains(e) by {
        let f = choose|f: Edge| #[trigger] s1.contains(f) && image_edge(images, f) == e;
        assert(image_of(images, s2).contains(e));
    }
    assert(is_transfer_system(m, push2));
}

/// Pullback is monotone under containment.
pub proof fn lemma_pullback_monotone<A, B>(
    l: Lattice<A>,
    images: Seq<usize>,
    t1: Set<Edge>,
    t2: Set<Edge>,
    pull1: Set<Edge>,
    pull2: Set<Edge>,
)
    requires
        t1.subset_of(t2),
        is_greatest_system_within(l, pull1, preimage_of(l, images, t1)),
        is_greatest_system_within(l, pull2, preimage_of(l, images, t2)),
    ensures
        pull1.subset_of(pull2),
{
    assert(preimage_of(l, images, t1).subset_of(preimage_of(l, images, t2)));
    assert(is_transfer_system(l, pull1));
}

/// The generated inverse image is monotone under containment.
pub proof fn lemma_generated_inverse_image_monotone<A, B>(
    l: Lattice<A>,
    images: Seq<usize>,
    t1: Set<Edge>,
    t2: Set<Edge>,
    gen1: Set<Edge>,
    gen2: Set<Edge>,
)
    requires
        t1.subset_of(t2),
        is_least_system_containing(l, gen1, preimage_of(l, images, t1)),
        is_least_system_containing(l, gen2, preimage_of(l, images, t2)),
    ensures
        gen1.subset_of(gen2),
{
    assert(preimage_of(l, images, t1).subset_of(preimage_of(l, images, t2)));
    assert(is_transfer_system(l, gen2));
}

/// The element images of `g` after `f`.
pub open spec fn compose_images(f: Seq<usize>, g: Seq<usize>) -> Seq<usize> {
    Seq::new(f.len(), |i: int| g[f[i] as int])
}

/// Pushing forward along `f` and then along a meet-preserving `g` is pushing
/// forward along the composite.
pub proof fn lemma_pushforward_functorial<A, B, C>(
    l: Lattice<A>,
    m: Lattice<B>,
    k: Lattice<C>,
    f: Seq<usize>,
    g: Seq<usize>,
    s: Set<Edge>,
    push_f: Set<Edge>,
    push_g_push_f: Set<Edge>,
)
    requires
        l.wf(),
        m.wf(),
        k.wf(),
        monotone_between(l, m, f),
        monotone_between(m, k, g),
        preserves_meets(m, k, g),
        is_transfer_system(l, s),
        is_least_system_containing(m, push_f, image_of(f, s)),
        is_least_system_containing(k, push_g_push_f, image_of(g, push_f)),
    ensures
        is_least_system_containing(k, push_g_push_f, image_of(compose_images(f, g), s)),
{
    let fg = compose_images(f, g);
    assert forall|e: Edge| image_of(fg, s).contains(e) implies push_g_push_f.contains(e) by {
        let a = choose|a: Edge| #[trigger] s.contains(a) && image_edge(fg, a) == e;
        lemma_ts_order(l, s, a);
        assert(image_of(f, s).contains(image_edge(f, a)));
        assert(push_f.contains(image_edge(f, a)));
        assert(image_of(g, push_f).contains(e));
    }
    assert forall|q: Set<Edge>| #[trigger] is_transfer_system(k, q) && image_of(fg, s).subset_of(q) implies push_g_push_f.subset_of(q) by {
        let pre = preimage_of(m, g, q);
        lemma_preimage_is_system(m, k, g, q);
        assert forall|e: Edge| image_of(f, s).contains(e) implies pre.contains(e) by {
            let a = choose|a: Edge| #[trigger] s.contains(a) && image_edge(f, a) == e;
            lemma_ts_order(l, s, a);
            assert(image_of(fg, s).contains(image_edge(fg, a)));
        }
        assert(push_f.subset_of(pre));
        assert forall|e: Edge| image_of(g, push_f).contains(e) implies q.contains(e) by {
            let b = choose|b: Edge| #[trigger] push_f.contains(b) && image_edge(g, b) == e;
            assert(pre.contains(b));
        }
    }
}

/// Pulling back along a meet-preserving `g` and then along a meet-preserving
/// `f` is pulling back along the composite.
pub proof fn lemma_pullback_functorial<A, B, C>(
    l: Lattice<A>,
    m: Lattice<B>,
    k: Lattice<C>,
    f: Seq<usize>,
    g: Seq<usize>,
    t: Set<Edge>,
    pull_g: Set<Edge>,
    pull_f_pull_g: Set<Edge>,
)
    requires
        l.wf(),
        m.wf(),
        k.wf(),
        monotone_between(l, m, f),
        monotone_between(m, k, g),
        preserves_meets(l, m, f),
        preserves_meets(m, k, g),
        is_transfer_system(k, t),
        is_greatest_system_within(m, pull_g, preimage_of(m, g, t)),
        is_greatest_system_within(l, pull_f_pull_g, preimage_of(l, f, pull_g)),
    ensures
        is_greatest_system_within(l, pull_f_pull_g, preimage_of(l, compose_images(f, g), t)),
{
    lemma_preimage_is_system(m, k, g, t);
    assert(pull_g =~= preimage_of(m, g, t)) by {
        assert(preimage_of(m, g, t).subset_of(pull_g));
    }
    lemma_preimage_is_system(l, m, f, pull_g);
    assert(pull_f_pull_g =~= preimage_of(l, f, pull_g)) by {
        assert(preimage_of(l, f, pull_g).subset_of(pull_f_pull_g));
    }
    assert(preimage_of(l, f, pull_g) =~= preimage_of(l, compose_images(f, g), t));
}

/// Along the identity map, pushforward and pullback give back the system.
pub proof fn lemma_identity_map_fixes_systems<A>(l: Lattice<A>, s: Set<Edge>, push: Set<Edge>, pull: Set<Edge>)
    requires
        l.wf(),
        is_transfer_system(l, s),
        is_least_system_containing(l, push, image_of(Seq::new(l.card(), |i: int| i as usize), s)),
        is_greatest_system_within(l, pull, preimage_of(l, Seq::new(l.card(), |i: int| i as usize), s)),
    ensures
        push == s,
        pull == s,
{
    let id = Seq::new(l.card(), |i: int| i as usize);
    assert(image_of(id, s) =~= s) by {
        assert forall|e: Edge| s.contains(e) implies image_of(id, s).contains(e) by {
            lemma_ts_order(l, s, e);
            assert(image_edge(id, e) == e);
        }
        assert forall|e: Edge| image_of(id, s).contains(e) implies s.contains(e) by {
            let f = choose|f: Edge| #[trigger] s.contains(f) && image_edge(id, f) == e;
            lemma_ts_order(l, s, f);
        }
    }
    assert(preimage_of(l, id, s) =~= s) by {
        assert forall|e: Edge| s.contains(e) implies preimage_of(l, id, s).contains(e) by {
            lemma_ts_order(l, s, e);
        }
    }
    assert(push.subset_of(s));
    assert(s.subset_of(pull));
    assert(push =~= s);
    assert(pull =~= s);
}

/// The relations of the system with element id `i` of a transfer-system
/// lattice.
pub open spec fn system_at<A>(tl: &TransferLattice<A>, i: int) -> Set<Edge> {
    system_of(tl.universe_of().edges_of(), tl.system_bits()[i], tl.universe_of().lattice_of().card())
}

/// Containment of bit vectors is containment of the relations they select.
pub proof fn lemma_subset_bits_relations(p: Seq<Edge>, a: Seq<bool>, b: Seq<bool>, n: nat)
    requires
        p.no_duplicates(),
        forall|k: int| 0 <= k < p.len() ==> (#[trigger] p[k]).from != p[k].to,
        a.len() == p.len(),
        b.len() == p.len(),
    ensures
        subset_bits(a, b) <==> system_of(p, a, n).subset_of(system_of(p, b, n)),
{
    if subset_bits(a, b) {
        assert forall|e: Edge| system_of(p, a, n).contains(e) implies system_of(p, b, n).contains(e) by {
            if !(e.from == e.to && e.from < n) {
                let k = choose|k: int| 0 <= k < p.len() && #[trigger] p[k] == e && a[k];
                assert(b[k]);
            }
        }
    }
    if system_of(p, a, n).subset_of(system_of(p, b, n)) {
        assert forall|k: int| 0 <= k < a.len() && #[trigger] a[k] implies b[k] by {
            assert(system_of(p, a, n).contains(p[k]));
            assert(system_of(p, b, n).contains(p[k]));
            let j = choose|j: int| 0 <= j < p.len() && #[trigger] p[j] == p[k] && b[j];
        }
    }
}

/// The position of the raw system with bits `bits`, if it is listed.
fn find_system(systems: &[RawTransferSystem], bits: &Bits) -> (r: Option<usize>)
    ensures
        match r {
            Some(j) => j < systems@.len() && systems@[j as int].bits() == bits@,
            None => forall|j: int| 0 <= j < systems@.len() ==> #[trigger] systems@[j].bits() != bits@,
        },
{
    let mut j: usize = 0;
    while j < systems.len()
        invariant
            j <= systems@.len(),
            forall|k: int| 0 <= k < j ==> #[trigger] systems@[k].bits() != bits@,
        decreases systems@.len() - j,
    {
        if equal_bits(systems[j].arrows(), bits) {
            return Some(j);
        }
        j += 1;
    }
    None
}

/// A closed bit vector of a well-formed transfer-system lattice's universe
/// is listed in the lattice.
proof fn lemma_closed_is_listed<A>(tl: &TransferLattice<A>, bits: Seq<bool>)
    requires
        tl.wf(),
        bits.len() == tl.universe_of().edges_of().len(),
        is_transfer_system(tl.universe_of().lattice_of(), system_of(tl.universe_of().edges_of(), bits, tl.universe_of().lattice_of().card())),
    ensures
        exists|j: int| 0 <= j < tl.lattice_of().card() && #[trigger] tl.lattice_of().labels()[j].bits() == bits,
{
    let u = tl.universe_of();
    crate::transfer_theory::lemma_transfer_system_is_closed(u.lattice_of(), u.edges_of(), bits);
    let j = choose|j: int| 0 <= j < tl.system_bits().len() && #[trigger] tl.system_bits()[j] == bits;
    assert(tl.lattice_of().labels()[j].bits() == bits);
}

/// The labelled containment poset of a transfer-system lattice.
pub open spec fn labels_systems<A>(poset: crate::poset::Poset<TransferSystem<A>>, tl: &TransferLattice<A>) -> bool {
    &&& poset.wf()
    &&& poset.order() == tl.lattice_of().order()
    &&& poset.card() == tl.lattice_of().card()
    &&& forall|i: int| 0 <= i < poset.card() ==> (#[trigger] poset.labels()[i]).wf() && poset.labels()[i].universe_of()
        == tl.universe_of() && poset.labels()[i].bits() == tl.system_bits()[i]
}

/// Checks that the map lies over the universes of the two orders: the
/// domain is checked first.
fn validate_containment_orders<A, B, M: MonotoneMap<A, B>>(map: &M, domain: &TransferLattice<A>, codomain: &TransferLattice<B>) -> (r: Result<(), TransferMapError>)
    requires
        map.monotone(),
        domain.wf(),
        codomain.wf(),
    ensures
        match r {
            Ok(()) => lies_over(map, domain.universe_of().lattice_of(), codomain.universe_of().lattice_of()),
            Err(e) => e == TransferMapError::DomainMismatch || e == TransferMapError::CodomainMismatch,
        },
{
    if let Err(e) = validate_domain_lattice(map, &**domain.universe()) {
        return Err(e);
    }
    validate_codomain_lattice(map, &**codomain.universe())
}

/// Constructs the pushforward map between the containment lattices: element
/// `i` of `domain` goes to the element of `codomain` that is the pushforward
/// of system `i`.  Together with [`pullback_containment_map`] it is the left
/// adjoint.
pub fn pushforward_containment_map<A, B, M: MonotoneMap<A, B>>(map: &M, domain: &TransferLattice<A>, codomain: &TransferLattice<B>) -> (r: Result<PosetMap<TransferSystem<A>, TransferSystem<B>>, TransferMapError>)
    requires
        map.monotone(),
        domain.wf(),
        codomain.wf(),
    ensures
        match r {
            Ok(pm) => {
                &&& pm.wf()
                &&& lies_over(map, domain.universe_of().lattice_of(), codomain.universe_of().lattice_of())
                &&& labels_systems(pm.domain_of(), domain)
                &&& labels_systems(pm.codomain_of(), codomain)
                &&& forall|i: int| 0 <= i < domain.lattice_of().card() ==> #[trigger] is_least_system_containing(
                    codomain.universe_of().lattice_of(),
                    system_at(codomain, pm.images_of()[i] as int),
                    image_of(map.image_ids(), system_at(domain, i)),
                )
            },
            Err(e) => e == TransferMapError::DomainMismatch || e == TransferMapError::CodomainMismatch,
        },
{
    if let Err(e) = validate_containment_orders(map, domain, codomain) {
        return Err(e);
    }
    let src_universe = domain.universe();
    let dst_universe = codomain.universe();
    let src_elements = domain.raw_lattice().elements();
    let dst_elements = codomain.raw_lattice().elements();
    let ghost u = domain.universe_of();
    let ghost v = codomain.universe_of();
    let mut images: Vec<ElementId> = Vec::new();
    let mut i: usize = 0;
    while i < src_elements.len()
        invariant
            map.monotone(),
            domain.wf(),
            codomain.wf(),
            u == domain.universe_of(),
            v == codomain.universe_of(),
            **src_universe == u,
            **dst_universe == v,
            lies_over(map, u.lattice_of(), v.lattice_of()),
            src_elements@ == domain.lattice_of().labels(),
            dst_elements@ == codomain.lattice_of().labels(),
            i <= src_elements@.len(),
            images@.len() == i,
            forall|k: int| 0 <= k < i ==> #[trigger] images@[k] < codomain.lattice_of().card(),
            forall|k: int| 0 <= k < i ==> #[trigger] is_least_system_containing(
                v.lattice_of(),
                system_at(codomain, images@[k] as int),
                image_of(map.image_ids(), system_at(domain, k)),
            ),
        decreases src_elements@.len() - i,
    {
        assert(domain.system_bits()[i as int] == src_elements@[i as int].bits());
        let bits = push_bits(map, &**src_universe, src_elements[i].arrows(), &**dst_universe);
        match find_system(dst_elements, &bits) {
            Some(j) => {
                assert(codomain.system_bits()[j as int] == dst_elements@[j as int].bits());
                images.push(j);
            },
            None => {
                proof {
                    lemma_closed_is_listed(codomain, bits@);
                }
                return Err(TransferMapError::PushforwardImageMissing);
            },
        }
        i += 1;
    }
    let source_poset = domain.to_system_poset();
    let target_poset = codomain.to_system_poset();
    proof {
        let p = u.edges_of();
        let q = v.edges_of();
        assert forall|a: int, b: int| 0 <= a < source_poset.card() && 0 <= b < source_poset.card() && #[trigger] source_poset.order()[a][b] implies target_poset.order()[images@[a] as int][images@[b] as int] by {
            assert(domain.lattice_of().le(a, b));
            lemma_subset_bits_relations(p, domain.system_bits()[a], domain.system_bits()[b], u.lattice_of().card());
            assert(is_least_system_containing(v.lattice_of(), system_at(codomain, images@[a] as int), image_of(map.image_ids(), system_at(domain, a))));
            assert(is_least_system_containing(v.lattice_of(), system_at(codomain, images@[b] as int), image_of(map.image_ids(), system_at(domain, b))));
            lemma_pushforward_monotone(
                u.lattice_of(),
                v.lattice_of(),
                map.image_ids(),
                system_at(domain, a),
                system_at(domain, b),
                system_at(codomain, images@[a] as int),
                system_at(codomain, images@[b] as int),
            );
            lemma_subset_bits_relations(q, codomain.system_bits()[images@[a] as int], codomain.system_bits()[images@[b] as int], v.lattice_of().card());
            assert(codomain.lattice_of().le(images@[a] as int, images@[b] as int));
        }
    }
    Ok(PosetMap::from_validated(Arc::new(source_poset), Arc::new(target_poset), images))
}

/// Constructs the pullback map between the containment lattices: element `i`
/// of `codomain`, an order on the map's codomain, goes to the element of
/// `domain` that is the pullback of system `i`.  Together with
/// [`pushforward_containment_map`] it is the right adjoint.
pub fn pullback_containment_map<A, B, M: MonotoneMap<A, B>>(map: &M, codomain: &TransferLattice<B>, domain: &TransferLattice<A>) -> (r: Result<PosetMap<TransferSystem<B>, TransferSystem<A>>, TransferMapError>)
    requires
        map.monotone(),
        domain.wf(),
        codomain.wf(),
    ensures
        match r {
            Ok(pm) => {
                &&& pm.wf()
                &&& lies_over(map, domain.universe_of().lattice_of(), codomain.universe_of().lattice_of())
                &&& labels_systems(pm.domain_of(), codomain)
                &&& labels_systems(pm.codomain_of(), domain)
                &&& forall|i: int| 0 <= i < codomain.lattice_of().card() ==> #[trigger] is_greatest_system_within(
                    domain.universe_of().lattice_of(),
                    system_at(domain, pm.images_of()[i] as int),
                    preimage_of(domain.universe_of().lattice_of(), map.image_ids(), system_at(codomain, i)),
                )
            },
            Err(e) => e == TransferMapError::DomainMismatch || e == TransferMapError::CodomainMismatch,
        },
{
    if let Err(e) = validate_containment_orders(map, domain, codomain) {
        return Err(e);
    }
    let src_universe = codomain.universe();
    let dst_universe = domain.universe();
    let src_elements = codomain.raw_lattice().elements();
    let dst_elements = domain.raw_lattice().elements();
    let ghost u = domain.universe_of();
    let ghost v = codomain.universe_of();
    let mut images: Vec<ElementId> = Vec::new();
    let mut i: usize = 0;
    while i < src_elements.len()
        invariant
            map.monotone(),
            domain.wf(),
            codomain.wf(),
            u == domain.universe_of(),
            v == codomain.universe_of(),
            **src_universe == v,
            **dst_universe == u,
            lies_over(map, u.lattice_of(), v.lattice_of()),
            src_elements@ == codomain.lattice_of().labels(),
            dst_elements@ == domain.lattice_of().labels(),
            i <= src_elements@.len(),
            images@.len() == i,
            forall|k: int| 0 <= k < i ==> #[trigger] images@[k] < domain.lattice_of().card(),
            forall|k: int| 0 <= k < i ==> #[trigger] is_greatest_system_within(
                u.lattice_of(),
                system_at(domain, images@[k] as int),
                preimage_of(u.lattice_of(), map.image_ids(), system_at(codomain, k)),
            ),
        decreases src_elements@.len() - i,
    {
        assert(codomain.system_bits()[i as int] == src_elements@[i as int].bits());
        proof {
            lemma_closed_iff_transfer_system(v.lattice_of(), v.edges_of(), codomain.system_bits()[i as int]);
        }
        let bits = pull_bits(map, &**dst_universe, src_elements[i].arrows(), &**src_universe);
        proof {
            lemma_closed_iff_transfer_system(u.lattice_of(), u.edges_of(), bits@);
        }
        match find_system(dst_elements, &bits) {
            Some(j) => {
                assert(domain.system_bits()[j as int] == dst_elements@[j as int].bits());
                images.push(j);
            },
            None => {
                proof {
                    lemma_closed_is_listed(domain, bits@);
                }
                return Err(TransferMapError::PullbackImageMissing);
            },
        }
        i += 1;
    }
    let source_poset = codomain.to_system_poset();
    let target_poset = domain.to_system_poset();
    proof {
        let p = u.edges_of();
        let q = v.edges_of();
        assert forall|a: int, b: int| 0 <= a < source_poset.card() && 0 <= b < source_poset.card() && #[trigger] source_poset.order()[a][b] implies target_poset.order()[images@[a] as int][images@[b] as int] by {
            assert(codomain.lattice_of().le(a, b));
            lemma_subset_bits_relations(q, codomain.system_bits()[a], codomain.system_bits()[b], v.lattice_of().card());
            assert(is_greatest_system_within(u.lattice_of(), system_at(domain, images@[a] as int), preimage_of(u.lattice_of(), map.image_ids(), system_at(codomain, a))));
            assert(is_greatest_system_within(u.lattice_of(), system_at(domain, images@[b] as int), preimage_of(u.lattice_of(), map.image_ids(), system_at(codomain, b))));
            lemma_pullback_monotone::<A, B>(
                u.lattice_of(),
                map.image_ids(),
                system_at(codomain, a),
                system_at(codomain, b),
                system_at(domain, images@[a] as int),
                system_at(domain, images@[b] as int),
            );
            lemma_subset_bits_relations(p, domain.system_bits()[images@[a] as int], domain.system_bits()[images@[b] as int], u.lattice_of().card());
            assert(domain.lattice_of().le(images@[a] as int, images@[b] as int));
        }
    }
    Ok(PosetMap::from_validated(Arc::new(source_poset), Arc::new(target_poset), images))
}

/// Constructs the generated inverse image map between the containment lattices: element `i`
/// of `codomain`, an order on the map's codomain, goes to the element of
/// `domain` that is the generated inverse image of system `i`.  It is always
/// containment-monotone but in general not right adjoint to
/// [`pushforward_containment_map`].
pub fn generated_inverse_image_containment_map<A, B, M: MonotoneMap<A, B>>(map: &M, codomain: &TransferLattice<B>, domain: &TransferLattice<A>) -> (r: Result<PosetMap<TransferSystem<B>, TransferSystem<A>>, TransferMapError>)
    requires
        map.monotone(),
        domain.wf(),
        codomain.wf(),
    ensures
        match r {
            Ok(pm) => {
                &&& pm.wf()
                &&& lies_over(map, domain.universe_of().lattice_of(), codomain.universe_of().lattice_of())
                &&& labels_systems(pm.domain_of(), codomain)
                &&& labels_systems(pm.codomain_of(), domain)
                &&& forall|i: int| 0 <= i < codomain.lattice_of().card() ==> #[trigger] is_least_system_containing(
                    domain.universe_of().lattice_of(),
                    system_at(domain, pm.images_of()[i] as int),
                    preimage_of(domain.universe_of().lattice_of(), map.image_ids(), system_at(codomain, i)),
                )
            },
            Err(e) => e == TransferMapError::DomainMismatch || e == TransferMapError::CodomainMismatch,
        },
{
    if let Err(e) = validate_containment_orders(map, domain, codomain) {
        return Err(e);
    }
    let src_universe = codomain.universe();
    let dst_universe = domain.universe();
    let src_elements = codomain.raw_lattice().elements();
    let dst_elements = domain.raw_lattice().elements();
    let ghost u = domain.universe_of();
    let ghost v = codomain.universe_of();
    let mut images: Vec<ElementId> = Vec::new();
    let mut i: usize = 0;
    while i < src_elements.len()
        invariant
            map.monotone(),
            domain.wf(),
            codomain.wf(),
            u == domain.universe_of(),
            v == codomain.universe_of(),
            **src_universe == v,
            **dst_universe == u,
            lies_over(map, u.lattice_of(), v.lattice_of()),
            src_elements@ == codomain.lattice_of().labels(),
            dst_elements@ == domain.lattice_of().labels(),
            i <= src_elements@.len(),
            images@.len() == i,
            forall|k: int| 0 <= k < i ==> #[trigger] images@[k] < domain.lattice_of().card(),
            forall|k: int| 0 <= k < i ==> #[trigger] is_least_system_containing(
                u.lattice_of(),
                system_at(domain, images@[k] as int),
                preimage_of(u.lattice_of(), map.image_ids(), system_at(codomain, k)),
            ),
        decreases src_elements@.len() - i,
    {
        assert(codomain.system_bits()[i as int] == src_elements@[i as int].bits());
        proof {
            lemma_closed_iff_transfer_system(v.lattice_of(), v.edges_of(), codomain.system_bits()[i as int]);
        }
        let bits = generated_bits(map, &**dst_universe, src_elements[i].arrows(), &**src_universe);
        proof {
            lemma_closed_iff_transfer_system(u.lattice_of(), u.edges_of(), bits@);
        }
        match find_system(dst_elements, &bits) {
            Some(j) => {
                assert(domain.system_bits()[j as int] == dst_elements@[j as int].bits());
                images.push(j);
            },
            None => {
                proof {
                    lemma_closed_is_listed(domain, bits@);
                }
                return Err(TransferMapError::GeneratedInverseImageMissing);
            },
        }
        i += 1;
    }
    let source_poset = codomain.to_system_poset();
    let target_poset = domain.to_system_poset();
    proof {
        let p = u.edges_of();
        let q = v.edges_of();
        assert forall|a: int, b: int| 0 <= a < source_poset.card() && 0 <= b < source_poset.card() && #[trigger] source_poset.order()[a][b] implies target_poset.order()[images@[a] as int][images@[b] as int] by {
            assert(codomain.lattice_of().le(a, b));
            lemma_subset_bits_relations(q, codomain.system_bits()[a], codomain.system_bits()[b], v.lattice_of().card());
            assert(is_least_system_containing(u.lattice_of(), system_at(domain, images@[a] as int), preimage_of(u.lattice_of(), map.image_ids(), system_at(codomain, a))));
            assert(is_least_system_containing(u.lattice_of(), system_at(domain, images@[b] as int), preimage_of(u.lattice_of(), map.image_ids(), system_at(codomain, b))));
            lemma_generated_inverse_image_monotone::<A, B>(
                u.lattice_of(),
                map.image_ids(),
                system_at(codomain, a),
                system_at(codomain, b),
                system_at(domain, images@[a] as int),
                system_at(domain, images@[b] as int),
            );
            lemma_subset_bits_relations(p, domain.system_bits()[images@[a] as int], domain.system_bits()[images@[b] as int], u.lattice_of().card());
            assert(domain.lattice_of().le(images@[a] as int, images@[b] as int));
        }
    }
    Ok(PosetMap::from_validated(Arc::new(source_poset), Arc::new(target_poset), images))
}

/// Failure to make an induced function monotone for the composition-closed
/// order.
#[derive(Debug, Clone, Copy, PartialEq, Eq)]
pub enum CompositionMapError {
    /// The lattice, universe, or enumerated-order data are incompatible.
    Transfer(TransferMapError),
    /// A source cover is sent to a pair that is not composition-closed
    /// comparable.
    NotMonotone {
        /// The cover relation in the source transfer-system order.
        source_cover: Edge,
        /// The image of the cover's lower endpoint.
        lower_image: ElementId,
        /// The image of the cover's upper endpoint.
        upper_image: ElementId,
        /// A pair of target arrows forming an unsplittable square.
        failed_square: (Edge, Edge),
    },
}

/// The relations of the system with element id `i` of a composition-closed
/// order.
pub open spec fn poset_system_at<A>(tp: &TransferPoset<A>, i: int) -> Set<Edge> {
    system_of(tp.universe_of().edges_of(), tp.system_bits()[i], tp.universe_of().lattice_of().card())
}

/// The labelled poset of a composition-closed order.
pub open spec fn labels_poset_systems<A>(poset: crate::poset::Poset<TransferSystem<A>>, tp: &TransferPoset<A>) -> bool {
    &&& poset.wf()
    &&& poset.order() == tp.poset_of().order()
    &&& poset.card() == tp.poset_of().card()
    &&& forall|i: int| 0 <= i < poset.card() ==> (#[trigger] poset.labels()[i]).wf() && poset.labels()[i].universe_of()
        == tp.universe_of() && poset.labels()[i].bits() == tp.system_bits()[i]
}

/// `source_cover` is the first cover of `source`, in row-major order, whose
/// images are not comparable in `target`, and `failed_square` is the first
/// square between those two target systems that does not factor.
pub open spec fn cover_failure<X, Y>(
    source: &TransferPoset<X>,
    target: &TransferPoset<Y>,
    images: Seq<usize>,
    source_cover: Edge,
    lower_image: ElementId,
    upper_image: ElementId,
    failed_square: (Edge, Edge),
) -> bool {
    let so = source.poset_of().order();
    let sn = source.poset_of().card();
    let u = target.universe_of();
    &&& source_cover.from < sn
    &&& source_cover.to < sn
    &&& is_cover(so, sn, source_cover.from as int, source_cover.to as int)
    &&& lower_image == images[source_cover.from as int]
    &&& upper_image == images[source_cover.to as int]
    &&& !target.poset_of().le(lower_image as int, upper_image as int)
    &&& forall|a: int, b: int|
        0 <= a < sn && 0 <= b < sn && #[trigger] is_cover(so, sn, a, b) && (a < source_cover.from || (a
            == source_cover.from && b < source_cover.to)) ==> target.poset_of().le(images[a] as int, images[b] as int)
    &&& first_failure(
        u.lattice_of(),
        poset_system_at(target, lower_image as int),
        poset_system_at(target, upper_image as int),
        relation_pairs(u.edges_of(), target.system_bits()[lower_image as int], u.lattice_of().card()),
        relation_pairs(u.edges_of(), target.system_bits()[upper_image as int], u.lattice_of().card()),
        failed_square.0,
        failed_square.1,
    )
}

/// Checks the images of the source covers, in row-major order, against the
/// target's composition-closed order.
fn validate_composition_images<X, Y>(source: &TransferPoset<X>, target: &TransferPoset<Y>, images: &Vec<ElementId>) -> (r: Result<(), CompositionMapError>)
    requires
        source.wf(),
        target.wf(),
        images@.len() == source.poset_of().card(),
        forall|i: int| 0 <= i < images@.len() ==> #[trigger] images@[i] < target.poset_of().card(),
        forall|a: int, b: int|
            0 <= a < source.poset_of().card() && 0 <= b < source.poset_of().card() && #[trigger] source.poset_of().le(a, b)
                ==> subset_bits(target.system_bits()[images@[a] as int], target.system_bits()[images@[b] as int]),
    ensures
        match r {
            Ok(()) => is_monotone_map(
                source.poset_of().order(),
                source.poset_of().card(),
                target.poset_of().order(),
                target.poset_of().card(),
                images@,
            ),
            Err(CompositionMapError::NotMonotone { source_cover, lower_image, upper_image, failed_square }) => cover_failure(
                source,
                target,
                images@,
                source_cover,
                lower_image,
                upper_image,
                failed_square,
            ),
            Err(_) => false,
        },
{
    let ghost so = source.poset_of().order();
    let ghost sn = source.poset_of().card();
    let ghost to = target.poset_of().order();
    let covers = source.raw_poset().cover_matrix();
    let target_poset = target.raw_poset();
    let target_elements = target_poset.elements();
    let universe = target.universe();
    let n = source.raw_poset().size();
    let mut a: usize = 0;
    while a < n
        invariant
            source.wf(),
            target.wf(),
            so == source.poset_of().order(),
            sn == source.poset_of().card(),
            n == sn,
            *target_poset == target.poset_of(),
            **universe == target.universe_of(),
            target_elements@ == target.poset_of().labels(),
            images@.len() == sn,
            forall|i: int| 0 <= i < images@.len() ==> #[trigger] images@[i] < target.poset_of().card(),
            forall|x: int, y: int|
                0 <= x < sn && 0 <= y < sn && #[trigger] source.poset_of().le(x, y) ==> subset_bits(
                    target.system_bits()[images@[x] as int],
                    target.system_bits()[images@[y] as int],
                ),
            covers@.len() == sn,
            forall|i: int| 0 <= i < sn ==> (#[trigger] covers@[i])@.len() == sn,
            forall|i: int, j: int| 0 <= i < sn && 0 <= j < sn ==> #[trigger] covers@[i]@[j] == is_cover(so, sn, i, j),
            a <= n,
            forall|x: int, y: int|
                0 <= x < a && 0 <= y < sn && #[trigger] is_cover(so, sn, x, y) ==> target.poset_of().le(images@[x] as int, images@[y] as int),
        decreases n - a,
    {
        let mut b: usize = 0;
        while b < n
            invariant
                source.wf(),
                target.wf(),
                so == source.poset_of().order(),
                sn == source.poset_of().card(),
                n == sn,
                *target_poset == target.poset_of(),
                **universe == target.universe_of(),
                target_elements@ == target.poset_of().labels(),
                images@.len() == sn,
                forall|i: int| 0 <= i < images@.len() ==> #[trigger] images@[i] < target.poset_of().card(),
                forall|x: int, y: int|
                    0 <= x < sn && 0 <= y < sn && #[trigger] source.poset_of().le(x, y) ==> subset_bits(
                        target.system_bits()[images@[x] as int],
                        target.system_bits()[images@[y] as int],
                    ),
                covers@.len() == sn,
                forall|i: int| 0 <= i < sn ==> (#[trigger] covers@[i])@.len() == sn,
                forall|i: int, j: int| 0 <= i < sn && 0 <= j < sn ==> #[trigger] covers@[i]@[j] == is_cover(so, sn, i, j),
                a < n,
                b <= n,
                forall|x: int, y: int|
                    0 <= x < a && 0 <= y < sn && #[trigger] is_cover(so, sn, x, y) ==> target.poset_of().le(images@[x] as int, images@[y] as int),
                forall|y: int| 0 <= y < b && #[trigger] is_cover(so, sn, a as int, y) ==> target.poset_of().le(images@[a as int] as int, images@[y] as int),
            decreases n - b,
        {
            if covers[a].bit(b) {
                let lower_image = images[a];
                let upper_image = images[b];
                if !target_poset.leq(lower_image, upper_image) {
                    let lower = &target_elements[lower_image];
                    let upper = &target_elements[upper_image];
                    assert(target.system_bits()[lower_image as int] == lower.bits());
                    assert(target.system_bits()[upper_image as int] == upper.bits());
                    match factorization_failure_for_raw(&**universe, lower, upper) {
                        Some(f) => {
                            return Err(CompositionMapError::NotMonotone {
                                source_cover: Edge::new(a, b),
                                lower_image,
                                upper_image,
                                failed_square: (f.first, f.second),
                            });
                        },
                        None => {
                            proof {
                                assert(source.poset_of().le(a as int, b as int));
                                assert(composition_matrix(target.universe_of(), target.system_bits())[lower_image as int][upper_image as int]);
                            }
                        },
                    }
                }
            }
            b += 1;
        }
        a += 1;
    }
    proof {
        lemma_covers_monotone(source, target, images@);
    }
    Ok(())
}

proof fn lemma_covers_monotone<X, Y>(source: &TransferPoset<X>, target: &TransferPoset<Y>, images: Seq<usize>)
    requires
        source.wf(),
        target.wf(),
        images.len() == source.poset_of().card(),
        forall|i: int| 0 <= i < images.len() ==> #[trigger] images[i] < target.poset_of().card(),
        forall|x: int, y: int|
            0 <= x < source.poset_of().card() && 0 <= y < source.poset_of().card() && #[trigger] is_cover(
                source.poset_of().order(),
                source.poset_of().card(),
                x,
                y,
            ) ==> target.poset_of().le(images[x] as int, images[y] as int),
    ensures
        is_monotone_map(
            source.poset_of().order(),
            source.poset_of().card(),
            target.poset_of().order(),
            target.poset_of().card(),
            images,
        ),
{
    let so = source.poset_of().order();
    let sn = source.poset_of().card();
    assert forall|i: int, j: int| 0 <= i < sn && 0 <= j < sn && #[trigger] so[i][j] implies target.poset_of().order()[images[i] as int][images[j] as int] by {
        lemma_covers_generate(so, sn, target.poset_of().order(), target.poset_of().card(), images, i, j);
    }
}

/// Checks that the map lies over the universes of the two orders: the
/// domain is checked first.
fn validate_composition_orders<A, B, M: MonotoneMap<A, B>>(map: &M, domain: &TransferPoset<A>, codomain: &TransferPoset<B>) -> (r: Result<(), TransferMapError>)
    requires
        map.monotone(),
        domain.wf(),
        codomain.wf(),
    ensures
        match r {
            Ok(()) => lies_over(map, domain.universe_of().lattice_of(), codomain.universe_of().lattice_of()),
            Err(e) => e == TransferMapError::DomainMismatch || e == TransferMapError::CodomainMismatch,
        },
{
    if let Err(e) = validate_domain_lattice(map, &**domain.universe()) {
        return Err(e);
    }
    validate_codomain_lattice(map, &**codomain.universe())
}

/// `images` sends each system of `domain` to its pushforward in `codomain`.
pub open spec fn pushforward_ids<A, B, M: MonotoneMap<A, B>>(map: &M, domain: &TransferPoset<A>, codomain: &TransferPoset<B>, images: Seq<usize>) -> bool {
    &&& images.len() == domain.poset_of().card()
    &&& forall|i: int| 0 <= i < images.len() ==> #[trigger] images[i] < codomain.poset_of().card()
    &&& forall|i: int| 0 <= i < images.len() ==> #[trigger] is_least_system_containing(
        codomain.universe_of().lattice_of(),
        poset_system_at(codomain, images[i] as int),
        image_of(map.image_ids(), poset_system_at(domain, i)),
    )
}

/// `images` sends each system of `codomain` to its pullback in `domain`.
pub open spec fn pullback_ids<A, B, M: MonotoneMap<A, B>>(map: &M, codomain: &TransferPoset<B>, domain: &TransferPoset<A>, images: Seq<usize>) -> bool {
    &&& images.len() == codomain.poset_of().card()
    &&& forall|i: int| 0 <= i < images.len() ==> #[trigger] images[i] < domain.poset_of().card()
    &&& forall|i: int| 0 <= i < images.len() ==> #[trigger] is_greatest_system_within(
        domain.universe_of().lattice_of(),
        poset_system_at(domain, images[i] as int),
        preimage_of(domain.universe_of().lattice_of(), map.image_ids(), poset_system_at(codomain, i)),
    )
}

/// `images` sends each system of `codomain` to its generated inverse image
/// in `domain`.
pub open spec fn generated_ids<A, B, M: MonotoneMap<A, B>>(map: &M, codomain: &TransferPoset<B>, domain: &TransferPoset<A>, images: Seq<usize>) -> bool {
    &&& images.len() == codomain.poset_of().card()
    &&& forall|i: int| 0 <= i < images.len() ==> #[trigger] images[i] < domain.poset_of().card()
    &&& forall|i: int| 0 <= i < images.len() ==> #[trigger] is_least_system_containing(
        domain.universe_of().lattice_of(),
        poset_system_at(domain, images[i] as int),
        preimage_of(domain.universe_of().lattice_of(), map.image_ids(), poset_system_at(codomain, i)),
    )
}

/// A closed bit vector is listed in a composition-closed order.
proof fn lemma_closed_is_listed_in_poset<A>(tp: &TransferPoset<A>, bits: Seq<bool>)
    requires
        tp.wf(),
        bits.len() == tp.universe_of().edges_of().len(),
        is_transfer_system(tp.universe_of().lattice_of(), system_of(tp.universe_of().edges_of(), bits, tp.universe_of().lattice_of().card())),
    ensures
        exists|j: int| 0 <= j < tp.poset_of().card() && #[trigger] tp.poset_of().labels()[j].bits() == bits,
{
    let u = tp.universe_of();
    crate::transfer_theory::lemma_transfer_system_is_closed(u.lattice_of(), u.edges_of(), bits);
    let j = choose|j: int| 0 <= j < tp.system_bits().len() && #[trigger] tp.system_bits()[j] == bits;
    assert(tp.poset_of().labels()[j].bits() == bits);
}

/// Attempts to construct the pushforward map between the composition-closed
/// orders.  Every source cover is checked, in row-major order, so success is
/// equivalent to monotonicity; a failure reports the first bad cover and an
/// unsplittable target square.
pub fn try_pushforward_composition_map<A, B, M: MonotoneMap<A, B>>(map: &M, domain: &TransferPoset<A>, codomain: &TransferPoset<B>) -> (r: Result<PosetMap<TransferSystem<A>, TransferSystem<B>>, CompositionMapError>)
    requires
        map.monotone(),
        domain.wf(),
        codomain.wf(),
    ensures
        match r {
            Ok(pm) => {
                &&& pm.wf()
                &&& lies_over(map, domain.universe_of().lattice_of(), codomain.universe_of().lattice_of())
                &&& labels_poset_systems(pm.domain_of(), domain)
                &&& labels_poset_systems(pm.codomain_of(), codomain)
                &&& pushforward_ids(map, domain, codomain, pm.images_of())
            },
            Err(CompositionMapError::Transfer(e)) => e == TransferMapError::DomainMismatch || e == TransferMapError::CodomainMismatch,
            Err(CompositionMapError::NotMonotone { source_cover, lower_image, upper_image, failed_square }) => exists|images: Seq<usize>|
                pushforward_ids(map, domain, codomain, images) && cover_failure(
                    domain,
                    codomain,
                    images,
                    source_cover,
                    lower_image,
                    upper_image,
                    failed_square,
                ),
        },
{
    if let Err(e) = validate_composition_orders(map, domain, codomain) {
        return Err(CompositionMapError::Transfer(e));
    }
    let src_universe = domain.universe();
    let dst_universe = codomain.universe();
    let src_elements = domain.raw_poset().elements();
    let dst_elements = codomain.raw_poset().elements();
    let ghost u = domain.universe_of();
    let ghost v = codomain.universe_of();
    let mut images: Vec<ElementId> = Vec::new();
    let mut i: usize = 0;
    while i < src_elements.len()
        invariant
            map.monotone(),
            domain.wf(),
            codomain.wf(),
            u == domain.universe_of(),
            v == codomain.universe_of(),
            **src_universe == u,
            **dst_universe == v,
            lies_over(map, u.lattice_of(), v.lattice_of()),
            src_elements@ == domain.poset_of().labels(),
            dst_elements@ == codomain.poset_of().labels(),
            i <= src_elements@.len(),
            images@.len() == i,
            forall|k: int| 0 <= k < i ==> #[trigger] images@[k] < codomain.poset_of().card(),
            forall|k: int| 0 <= k < i ==> #[trigger] is_least_system_containing(
                v.lattice_of(),
                poset_system_at(codomain, images@[k] as int),
                image_of(map.image_ids(), poset_system_at(domain, k)),
            ),
        decreases src_elements@.len() - i,
    {
        assert(domain.system_bits()[i as int] == src_elements@[i as int].bits());
        let bits = push_bits(map, &**src_universe, src_elements[i].arrows(), &**dst_universe);
        match find_system(dst_elements, &bits) {
            Some(j) => {
                assert(codomain.system_bits()[j as int] == dst_elements@[j as int].bits());
                images.push(j);
            },
            None => {
                proof {
                    lemma_closed_is_listed_in_poset(codomain, bits@);
                }
                return Err(CompositionMapError::Transfer(TransferMapError::PushforwardImageMissing));
            },
        }
        i += 1;
    }
    proof {
        let p = u.edges_of();
        let q = v.edges_of();
        assert forall|a: int, b: int|
            0 <= a < domain.poset_of().card() && 0 <= b < domain.poset_of().card() && #[trigger] domain.poset_of().le(a, b) implies subset_bits(
            codomain.system_bits()[images@[a] as int],
            codomain.system_bits()[images@[b] as int],
        ) by {
            assert(composition_matrix(u, domain.system_bits())[a][b]);
            lemma_subset_bits_relations(p, domain.system_bits()[a], domain.system_bits()[b], u.lattice_of().card());
            assert(is_least_system_containing(v.lattice_of(), poset_system_at(codomain, images@[a] as int), image_of(map.image_ids(), poset_system_at(domain, a))));
            assert(is_least_system_containing(v.lattice_of(), poset_system_at(codomain, images@[b] as int), image_of(map.image_ids(), poset_system_at(domain, b))));
            lemma_pushforward_monotone(
                u.lattice_of(),
                v.lattice_of(),
                map.image_ids(),
                poset_system_at(domain, a),
                poset_system_at(domain, b),
                poset_system_at(codomain, images@[a] as int),
                poset_system_at(codomain, images@[b] as int),
            );
            lemma_subset_bits_relations(q, codomain.system_bits()[images@[a] as int], codomain.system_bits()[images@[b] as int], v.lattice_of().card());
        }
    }
    assert(pushforward_ids(map, domain, codomain, images@));
    match validate_composition_images(domain, codomain, &images) {
        Err(e) => Err(e),
        Ok(()) => Ok(PosetMap::from_validated(Arc::new(domain.to_system_poset()), Arc::new(codomain.to_system_poset()), images)),
    }
}

/// Attempts to construct the pullback map between the composition-closed
/// orders: `codomain` is the order on the map's codomain and is the domain
/// of the returned map.  Every source cover is checked, in row-major order,
/// so success is equivalent to monotonicity.
pub fn try_pullback_composition_map<A, B, M: MonotoneMap<A, B>>(map: &M, codomain: &TransferPoset<B>, domain: &TransferPoset<A>) -> (r: Result<PosetMap<TransferSystem<B>, TransferSystem<A>>, CompositionMapError>)
    requires
        map.monotone(),
        domain.wf(),
        codomain.wf(),
    ensures
        match r {
            Ok(pm) => {
                &&& pm.wf()
                &&& lies_over(map, domain.universe_of().lattice_of(), codomain.universe_of().lattice_of())
                &&& labels_poset_systems(pm.domain_of(), codomain)
                &&& labels_poset_systems(pm.codomain_of(), domain)
                &&& pullback_ids(map, codomain, domain, pm.images_of())
            },
            Err(CompositionMapError::Transfer(e)) => e == TransferMapError::DomainMismatch || e == TransferMapError::CodomainMismatch,
            Err(CompositionMapError::NotMonotone { source_cover, lower_image, upper_image, failed_square }) => exists|images: Seq<usize>|
                pullback_ids(map, codomain, domain, images) && cover_failure(
                    codomain,
                    domain,
                    images,
                    source_cover,
                    lower_image,
                    upper_image,
                    failed_square,
                ),
        },
{
    if let Err(e) = validate_composition_orders(map, domain, codomain) {
        return Err(CompositionMapError::Transfer(e));
    }
    let src_universe = codomain.universe();
    let dst_universe = domain.universe();
    let src_elements = codomain.raw_poset().elements();
    let dst_elements = domain.raw_poset().elements();
    let ghost u = domain.universe_of();
    let ghost v = codomain.universe_of();
    let mut images: Vec<ElementId> = Vec::new();
    let mut i: usize = 0;
    while i < src_elements.len()
        invariant
            map.monotone(),
            domain.wf(),
            codomain.wf(),
            u == domain.universe_of(),
            v == codomain.universe_of(),
            **src_universe == v,
            **dst_universe == u,
            lies_over(map, u.lattice_of(), v.lattice_of()),
            src_elements@ == codomain.poset_of().labels(),
            dst_elements@ == domain.poset_of().labels(),
            i <= src_elements@.len(),
            images@.len() == i,
            forall|k: int| 0 <= k < i ==> #[trigger] images@[k] < domain.poset_of().card(),
            forall|k: int| 0 <= k < i ==> #[trigger] is_greatest_system_within(
                u.lattice_of(),
                poset_system_at(domain, images@[k] as int),
                preimage_of(u.lattice_of(), map.image_ids(), poset_system_at(codomain, k)),
            ),
        decreases src_elements@.len() - i,
    {
        assert(codomain.system_bits()[i as int] == src_elements@[i as int].bits());
        proof {
            lemma_closed_iff_transfer_system(v.lattice_of(), v.edges_of(), codomain.system_bits()[i as int]);
        }
        let bits = pull_bits(map, &**dst_universe, src_elements[i].arrows(), &**src_universe);
        proof {
            lemma_closed_iff_transfer_system(u.lattice_of(), u.edges_of(), bits@);
        }
        match find_system(dst_elements, &bits) {
            Some(j) => {
                assert(domain.system_bits()[j as int] == dst_elements@[j as int].bits());
                images.push(j);
            },
            None => {
                proof {
                    lemma_closed_is_listed_in_poset(domain, bits@);
                }
                return Err(CompositionMapError::Transfer(TransferMapError::PullbackImageMissing));
            },
        }
        i += 1;
    }
    proof {
        let p = u.edges_of();
        let q = v.edges_of();
        assert forall|a: int, b: int|
            0 <= a < codomain.poset_of().card() && 0 <= b < codomain.poset_of().card() && #[trigger] codomain.poset_of().le(a, b) implies subset_bits(
            domain.system_bits()[images@[a] as int],
            domain.system_bits()[images@[b] as int],
        ) by {
            assert(composition_matrix(v, codomain.system_bits())[a][b]);
            lemma_subset_bits_relations(q, codomain.system_bits()[a], codomain.system_bits()[b], v.lattice_of().card());
            assert(is_greatest_system_within(u.lattice_of(), poset_system_at(domain, images@[a] as int), preimage_of(u.lattice_of(), map.image_ids(), poset_system_at(codomain, a))));
            assert(is_greatest_system_within(u.lattice_of(), poset_system_at(domain, images@[b] as int), preimage_of(u.lattice_of(), map.image_ids(), poset_system_at(codomain, b))));
            lemma_pullback_monotone::<A, B>(
                u.lattice_of(),
                map.image_ids(),
                poset_system_at(codomain, a),
                poset_system_at(codomain, b),
                poset_system_at(domain, images@[a] as int),
                poset_system_at(domain, images@[b] as int),
            );
            lemma_subset_bits_relations(p, domain.system_bits()[images@[a] as int], domain.system_bits()[images@[b] as int], u.lattice_of().card());
        }
    }
    assert(pullback_ids(map, codomain, domain, images@));
    match validate_composition_images(codomain, domain, &images) {
        Err(e) => Err(e),
        Ok(()) => Ok(PosetMap::from_validated(Arc::new(codomain.to_system_poset()), Arc::new(domain.to_system_poset()), images)),
    }
}

/// Attempts to construct the generated inverse-image map between the composition-closed
/// orders: `codomain` is the order on the map's codomain and is the domain
/// of the returned map.  Every source cover is checked, in row-major order,
/// so success is equivalent to monotonicity.
pub fn try_generated_inverse_image_composition_map<A, B, M: MonotoneMap<A, B>>(map: &M, codomain: &TransferPoset<B>, domain: &TransferPoset<A>) -> (r: Result<PosetMap<TransferSystem<B>, TransferSystem<A>>, CompositionMapError>)
    requires
        map.monotone(),
        domain.wf(),
        codomain.wf(),
    ensures
        match r {
            Ok(pm) => {
                &&& pm.wf()
                &&& lies_over(map, domain.universe_of().lattice_of(), codomain.universe_of().lattice_of())
                &&& labels_poset_systems(pm.domain_of(), codomain)
                &&& labels_poset_systems(pm.codomain_of(), domain)
                &&& generated_ids(map, codomain, domain, pm.images_of())
            },
            Err(CompositionMapError::Transfer(e)) => e == TransferMapError::DomainMismatch || e == TransferMapError::CodomainMismatch,
            Err(CompositionMapError::NotMonotone { source_cover, lower_image, upper_image, failed_square }) => exists|images: Seq<usize>|
                generated_ids(map, codomain, domain, images) && cover_failure(
                    codomain,
                    domain,
                    images,
                    source_cover,
                    lower_image,
                    upper_image,
                    failed_square,
                ),
        },
{
    if let Err(e) = validate_composition_orders(map, domain, codomain) {
        return Err(CompositionMapError::Transfer(e));
    }
    let src_universe = codomain.universe();
    let dst_universe = domain.universe();
    let src_elements = codomain.raw_poset().elements();
    let dst_elements = domain.raw_poset().elements();
    let ghost u = domain.universe_of();
    let ghost v = codomain.universe_of();
    let mut images: Vec<ElementId> = Vec::new();
    let mut i: usize = 0;
    while i < src_elements.len()
        invariant
            map.monotone(),
            domain.wf(),
            codomain.wf(),
            u == domain.universe_of(),
            v == codomain.universe_of(),
            **src_universe == v,
            **dst_universe == u,
            lies_over(map, u.lattice_of(), v.lattice_of()),
            src_elements@ == codomain.poset_of().labels(),
            dst_elements@ == domain.poset_of().labels(),
            i <= src_elements@.len(),
            images@.len() == i,
            forall|k: int| 0 <= k < i ==> #[trigger] images@[k] < domain.poset_of().card(),
            forall|k: int| 0 <= k < i ==> #[trigger] is_least_system_containing(
                u.lattice_of(),
                poset_system_at(domain, images@[k] as int),
                preimage_of(u.lattice_of(), map.image_ids(), poset_system_at(codomain, k)),
            ),
        decreases src_elements@.len() - i,
    {
        assert(codomain.system_bits()[i as int] == src_elements@[i as int].bits());
        proof {
            lemma_closed_iff_transfer_system(v.lattice_of(), v.edges_of(), codomain.system_bits()[i as int]);
        }
        let bits = generated_bits(map, &**dst_universe, src_elements[i].arrows(), &**src_universe);
        proof {
            lemma_closed_iff_transfer_system(u.lattice_of(), u.edges_of(), bits@);
        }
        match find_system(dst_elements, &bits) {
            Some(j) => {
                assert(domain.system_bits()[j as int] == dst_elements@[j as int].bits());
                images.push(j);
            },
            None => {
                proof {
                    lemma_closed_is_listed_in_poset(domain, bits@);
                }
                return Err(CompositionMapError::Transfer(TransferMapError::GeneratedInverseImageMissing));
            },
        }
        i += 1;
    }
    proof {
        let p = u.edges_of();
        let q = v.edges_of();
        assert forall|a: int, b: int|
            0 <= a < codomain.poset_of().card() && 0 <= b < codomain.poset_of().card() && #[trigger] codomain.poset_of().le(a, b) implies subset_bits(
            domain.system_bits()[images@[a] as int],
            domain.system_bits()[images@[b] as int],
        ) by {
            assert(composition_matrix(v, codomain.system_bits())[a][b]);
            lemma_subset_bits_relations(q, codomain.system_bits()[a], codomain.system_bits()[b], v.lattice_of().card());
            assert(is_least_system_containing(u.lattice_of(), poset_system_at(domain, images@[a] as int), preimage_of(u.lattice_of(), map.image_ids(), poset_system_at(codomain, a))));
            assert(is_least_system_containing(u.lattice_of(), poset_system_at(domain, images@[b] as int), preimage_of(u.lattice_of(), map.image_ids(), poset_system_at(codomain, b))));
            lemma_generated_inverse_image_monotone::<A, B>(
                u.lattice_of(),
                map.image_ids(),
                poset_system_at(codomain, a),
                poset_system_at(codomain, b),
                poset_system_at(domain, images@[a] as int),
                poset_system_at(domain, images@[b] as int),
            );
            lemma_subset_bits_relations(p, domain.system_bits()[images@[a] as int], domain.system_bits()[images@[b] as int], u.lattice_of().card());
        }
    }
    assert(generated_ids(map, codomain, domain, images@));
    match validate_composition_images(codomain, domain, &images) {
        Err(e) => Err(e),
        Ok(()) => Ok(PosetMap::from_validated(Arc::new(codomain.to_system_poset()), Arc::new(domain.to_system_poset()), images)),
    }
}

/// The pushforward and pullback maps between containment lattices are
/// adjoint: the pushforward of `r` lies below `s` exactly when `r` lies
/// below the pullback of `s`.
pub proof fn lemma_containment_maps_adjoint<A, B>(
    domain: &TransferLattice<A>,
    codomain: &TransferLattice<B>,
    images: Seq<usize>,
    push: Seq<usize>,
    pull: Seq<usize>,
    r: int,
    s: int,
)
    requires
        domain.wf(),
        codomain.wf(),
        monotone_between(domain.universe_of().lattice_of(), codomain.universe_of().lattice_of(), images),
        0 <= r < domain.lattice_of().card(),
        0 <= s < codomain.lattice_of().card(),
        push.len() == domain.lattice_of().card(),
        pull.len() == codomain.lattice_of().card(),
        forall|i: int| 0 <= i < push.len() ==> #[trigger] push[i] < codomain.lattice_of().card(),
        forall|i: int| 0 <= i < pull.len() ==> #[trigger] pull[i] < domain.lattice_of().card(),
        forall|i: int| 0 <= i < push.len() ==> #[trigger] is_least_system_containing(
            codomain.universe_of().lattice_of(),
            system_at(codomain, push[i] as int),
            image_of(images, system_at(domain, i)),
        ),
        forall|i: int| 0 <= i < pull.len() ==> #[trigger] is_greatest_system_within(
            domain.universe_of().lattice_of(),
            system_at(domain, pull[i] as int),
            preimage_of(domain.universe_of().lattice_of(), images, system_at(codomain, i)),
        ),
    ensures
        codomain.lattice_of().le(push[r] as int, s) <==> domain.lattice_of().le(r, pull[s] as int),
{
    let u = domain.universe_of();
    let v = codomain.universe_of();
    lemma_closed_iff_transfer_system(u.lattice_of(), u.edges_of(), domain.system_bits()[r]);
    lemma_closed_iff_transfer_system(v.lattice_of(), v.edges_of(), codomain.system_bits()[s]);
    assert(is_least_system_containing(v.lattice_of(), system_at(codomain, push[r] as int), image_of(images, system_at(domain, r))));
    assert(is_greatest_system_within(u.lattice_of(), system_at(domain, pull[s] as int), preimage_of(u.lattice_of(), images, system_at(codomain, s))));
    lemma_pushforward_pullback_adjunction(
        u.lattice_of(),
        v.lattice_of(),
        images,
        system_at(domain, r),
        system_at(codomain, s),
        system_at(codomain, push[r] as int),
        system_at(domain, pull[s] as int),
    );
    lemma_subset_bits_relations(v.edges_of(), codomain.system_bits()[push[r] as int], codomain.system_bits()[s], v.lattice_of().card());
    lemma_subset_bits_relations(u.edges_of(), domain.system_bits()[r], domain.system_bits()[pull[s] as int], u.lattice_of().card());
}

} // verus!
