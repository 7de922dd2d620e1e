//! Products and horizontal joins of finite lattices, with their canonical
//! lattice homomorphisms.

use crate::bits::{matrix_of, max_bits, Bits};
use crate::constructions::{
    either_left, either_right, lemma_pair_coordinates, lemma_pair_index, product, product_order,
};
use crate::lattice::first_non_lattice_pair;
use crate::order::relation_error;
use crate::poset::Poset;
use crate::edges::{Edge, ElementId};
use crate::lattice::{Lattice, LatticeError};
use crate::morphism::{is_lattice_map, preserves_pair, LatticeMap};
use crate::order::{
    has_join, has_meet, is_bottom, is_join, is_lattice_order, is_meet, is_partial_order, is_top,
    lemma_bounds_unique,
};
use crate::shared::{arc_clone, shared_value};
use either::Either;
use std::sync::Arc;
use vstd::prelude::*;

verus! {

/// A copy of a list of element ids.
pub(crate) fn copy_ids(ids: &[ElementId]) -> (r: Vec<ElementId>)
    ensures
        r@ == ids@,
{
    let mut r: Vec<ElementId> = Vec::new();
    let mut i: usize = 0;
    while i < ids.len()
        invariant
            i <= ids@.len(),
            r@ == ids@.subrange(0, i as int),
        decreases ids@.len() - i,
    {
        r.push(ids[i]);
        proof {
            assert(r@ =~= ids@.subrange(0, i + 1));
        }
        i += 1;
    }
    assert(r@ =~= ids@);
    r
}

/// The categorical product of two finite lattices and its projections; the
/// order, meet, and join are all computed componentwise.
#[derive(Debug)]
pub struct LatticeProduct<A, B> {
    /// The product lattice.
    pub lattice: Arc<Lattice<(A, B)>>,
    /// The first projection `(a, b) |-> a`.
    pub left_projection: LatticeMap<(A, B), A>,
    /// The second projection `(a, b) |-> b`.
    pub right_projection: LatticeMap<(A, B), B>,
}

/// The meet of the pairs at `i` and `j` of the product order.
pub open spec fn product_meet<A, B>(l: Lattice<A>, r: Lattice<B>, i: int, j: int) -> int {
    let m = r.card() as int;
    l.meet_of(i / m, j / m) * m + r.meet_of(i % m, j % m)
}

/// The join of the pairs at `i` and `j` of the product order.
pub open spec fn product_join<A, B>(l: Lattice<A>, r: Lattice<B>, i: int, j: int) -> int {
    let m = r.card() as int;
    l.join_of(i / m, j / m) * m + r.join_of(i % m, j % m)
}

/// The product of two lattices is a lattice, with componentwise meets,
/// joins, bottom and top.
pub proof fn lemma_product_lattice<A, B>(l: Lattice<A>, r: Lattice<B>)
    requires
        l.wf(),
        r.wf(),
    ensures
        is_partial_order(product_order(l.order(), l.card(), r.order(), r.card()), l.card() * r.card()),
        l.card() * r.card() > 0,
        forall|i: int, j: int|
            0 <= i < l.card() * r.card() && 0 <= j < l.card() * r.card() ==> #[trigger] is_meet(
                product_order(l.order(), l.card(), r.order(), r.card()),
                l.card() * r.card(),
                i,
                j,
                product_meet(l, r, i, j),
            ) && is_join(
                product_order(l.order(), l.card(), r.order(), r.card()),
                l.card() * r.card(),
                i,
                j,
                product_join(l, r, i, j),
            ),
        is_bottom(
            product_order(l.order(), l.card(), r.order(), r.card()),
            l.card() * r.card(),
            l.bottom_of() * r.card() + r.bottom_of(),
        ),
        is_top(product_order(l.order(), l.card(), r.order(), r.card()), l.card() * r.card(), l.top_of() * r.card() + r.top_of()),
{
    let n = l.card();
    let m = r.card();
    let po = product_order(l.order(), n, r.order(), m);
    crate::constructions::lemma_product_order(l.order(), n, r.order(), m);
    assert(n * m > 0) by (nonlinear_arith)
        requires
            n > 0,
            m > 0,
    ;
    assert forall|i: int, j: int| 0 <= i < n * m && 0 <= j < n * m implies #[trigger] is_meet(po, n * m, i, j, product_meet(l, r, i, j))
        && is_join(po, n * m, i, j, product_join(l, r, i, j)) by {
        lemma_pair_index(i, n, m);
        lemma_pair_index(j, n, m);
        let (i1, i2, j1, j2) = (i / (m as int), i % (m as int), j / (m as int), j % (m as int));
        assert(is_meet(l.order(), n, i1, j1, l.meet_of(i1, j1)));
        assert(is_meet(r.order(), m, i2, j2, r.meet_of(i2, j2)));
        assert(is_join(l.order(), n, i1, j1, l.join_of(i1, j1)));
        assert(is_join(r.order(), m, i2, j2, r.join_of(i2, j2)));
        lemma_pair_coordinates(l.meet_of(i1, j1), r.meet_of(i2, j2), n, m);
        lemma_pair_coordinates(l.join_of(i1, j1), r.join_of(i2, j2), n, m);
        let k = product_meet(l, r, i, j);
        assert forall|c: int| 0 <= c < n * m && #[trigger] po[c][i] && po[c][j] implies po[c][k] by {
            lemma_pair_index(c, n, m);
        }
        let h = product_join(l, r, i, j);
        assert forall|c: int| 0 <= c < n * m && #[trigger] po[i][c] && po[j][c] implies po[h][c] by {
            lemma_pair_index(c, n, m);
        }
    }
    lemma_pair_coordinates(l.bottom_of(), r.bottom_of(), n, m);
    lemma_pair_coordinates(l.top_of(), r.top_of(), n, m);
    assert forall|x: int| 0 <= x < n * m implies #[trigger] po[l.bottom_of() * m + r.bottom_of()][x] by {
        lemma_pair_index(x, n, m);
    }
    assert forall|x: int| 0 <= x < n * m implies #[trigger] po[x][l.top_of() * m + r.top_of()] by {
        lemma_pair_index(x, n, m);
    }
}

impl<A: Clone, B: Clone> Lattice<(A, B)> {
    /// Constructs the direct product of two lattices and its canonical
    /// projections: `(a, b) <= (a', b')` if and only if `a <= a'` and
    /// `b <= b'`.
    pub fn product(left: Arc<Lattice<A>>, right: Arc<Lattice<B>>) -> (r: Result<LatticeProduct<A, B>, LatticeError>)
        requires
            left.wf(),
            right.wf(),
            left.card() * right.card() <= max_bits(),
        ensures
            match r {
                Ok(p) => {
                    &&& p.lattice.wf()
                    &&& p.lattice.order() == product_order(left.order(), left.card(), right.order(), right.card())
                    &&& p.left_projection.wf() && p.right_projection.wf()
                    &&& p.left_projection.domain_of() == *p.lattice && p.left_projection.codomain_of() == *left
                    &&& p.right_projection.domain_of() == *p.lattice && p.right_projection.codomain_of() == *right
                    &&& p.left_projection.images_of() == Seq::new(
                        left.card() * right.card(),
                        |i: int| (i / (right.card() as int)) as usize,
                    )
                    &&& p.right_projection.images_of() == Seq::new(
                        left.card() * right.card(),
                        |i: int| (i % (right.card() as int)) as usize,
                    )
                },
                Err(_) => false,
            },
    {
        let ghost l = shared_value(&left);
        let ghost rl = shared_value(&right);
        let ghost n = left.card();
        let ghost m = right.card();
        let ghost po = product_order(l.order(), n, rl.order(), m);
        proof {
            lemma_product_lattice(l, rl);
        }
        let factors = product(Arc::new(left.as_poset().clone()), Arc::new(right.as_poset().clone()));
        let factors = match factors {
            Ok(f) => f,
            Err(_) => {
                return Err(LatticeError::Empty);
            },
        };
        let lattice = match Lattice::new((*factors.poset).clone()) {
            Ok(lattice) => Arc::new(lattice),
            Err(e) => {
                proof {
                    if let LatticeError::NotALattice { left: a, right: b } = e {
                        assert(is_meet(po, n * m, a as int, b as int, product_meet(l, rl, a as int, b as int)));
                    }
                    if e == LatticeError::MissingBottom {
                        assert(is_bottom(po, n * m, l.bottom_of() * m + rl.bottom_of()));
                    }
                    if e == LatticeError::MissingTop {
                        assert(is_top(po, n * m, l.top_of() * m + rl.top_of()));
                    }
                }
                return Err(e);
            },
        };
        let ghost p = shared_value(&lattice);
        proof {
            lemma_projections_preserve(l, rl, p);
        }
        let left_images = copy_ids(factors.left_projection.map());
        let right_images = copy_ids(factors.right_projection.map());
        let left_projection = match LatticeMap::new(arc_clone(&lattice), left, left_images) {
            Ok(f) => f,
            Err(e) => {
                return Err(LatticeError::Empty);
            },
        };
        let right_projection = match LatticeMap::new(arc_clone(&lattice), right, right_images) {
            Ok(f) => f,
            Err(e) => {
                return Err(LatticeError::Empty);
            },
        };
        Ok(LatticeProduct { lattice, left_projection, right_projection })
    }
}

/// The projections out of a lattice on the product order are lattice
/// homomorphisms.
proof fn lemma_projections_preserve<A, B, C>(l: Lattice<A>, r: Lattice<B>, p: Lattice<C>)
    requires
        l.wf(),
        r.wf(),
        p.wf(),
        p.order() == product_order(l.order(), l.card(), r.order(), r.card()),
    ensures
        is_lattice_map(p, l, Seq::new(l.card() * r.card(), |i: int| (i / (r.card() as int)) as usize)),
        is_lattice_map(p, r, Seq::new(l.card() * r.card(), |i: int| (i % (r.card() as int)) as usize)),
{
    let n = l.card();
    let m = r.card();
    let nm = n * m;
    let po = p.order();
    let left = Seq::new(nm, |i: int| (i / (m as int)) as usize);
    let right = Seq::new(nm, |i: int| (i % (m as int)) as usize);
    lemma_product_lattice(l, r);
    assert(p.card() == nm);
    assert forall|i: int| 0 <= i < nm implies #[trigger] left[i] < n && right[i] < m by {
        lemma_pair_index(i, n, m);
    }
    assert forall|i: int, j: int| 0 <= i < nm && 0 <= j < nm && #[trigger] po[i][j] implies l.order()[left[i] as int][left[j] as int]
        && r.order()[right[i] as int][right[j] as int] by {
        lemma_pair_index(i, n, m);
        lemma_pair_index(j, n, m);
    }
    let bot = l.bottom_of() * m + r.bottom_of();
    let top = l.top_of() * m + r.top_of();
    lemma_bounds_unique(po, nm, 0, 0, p.bottom_of(), bot);
    lemma_bounds_unique(po, nm, 0, 0, p.top_of(), top);
    lemma_pair_coordinates(l.bottom_of(), r.bottom_of(), n, m);
    lemma_pair_coordinates(l.top_of(), r.top_of(), n, m);
    assert forall|i: int, j: int| 0 <= i < nm && 0 <= j < nm implies #[trigger] preserves_pair(p, l, left, i, j) by {
        lemma_pair_index(i, n, m);
        lemma_pair_index(j, n, m);
        assert(is_meet(po, nm, i, j, p.meet_of(i, j)));
        assert(is_join(po, nm, i, j, p.join_of(i, j)));
        lemma_bounds_unique(po, nm, i, j, p.meet_of(i, j), product_meet(l, r, i, j));
        lemma_bounds_unique(po, nm, i, j, p.join_of(i, j), product_join(l, r, i, j));
        let (i1, i2, j1, j2) = (i / (m as int), i % (m as int), j / (m as int), j % (m as int));
        assert(is_meet(l.order(), n, i1, j1, l.meet_of(i1, j1)));
        assert(is_meet(r.order(), m, i2, j2, r.meet_of(i2, j2)));
        assert(is_join(l.order(), n, i1, j1, l.join_of(i1, j1)));
        assert(is_join(r.order(), m, i2, j2, r.join_of(i2, j2)));
        lemma_pair_coordinates(l.meet_of(i1, j1), r.meet_of(i2, j2), n, m);
        lemma_pair_coordinates(l.join_of(i1, j1), r.join_of(i2, j2), n, m);
    }
    assert forall|i: int, j: int| 0 <= i < nm && 0 <= j < nm implies #[trigger] preserves_pair(p, r, right, i, j) by {
        lemma_pair_index(i, n, m);
        lemma_pair_index(j, n, m);
        assert(is_meet(po, nm, i, j, p.meet_of(i, j)));
        assert(is_join(po, nm, i, j, p.join_of(i, j)));
        lemma_bounds_unique(po, nm, i, j, p.meet_of(i, j), product_meet(l, r, i, j));
        lemma_bounds_unique(po, nm, i, j, p.join_of(i, j), product_join(l, r, i, j));
        let (i1, i2, j1, j2) = (i / (m as int), i % (m as int), j / (m as int), j % (m as int));
        assert(is_meet(l.order(), n, i1, j1, l.meet_of(i1, j1)));
        assert(is_meet(r.order(), m, i2, j2, r.meet_of(i2, j2)));
        assert(is_join(l.order(), n, i1, j1, l.join_of(i1, j1)));
        assert(is_join(r.order(), m, i2, j2, r.join_of(i2, j2)));
        lemma_pair_coordinates(l.meet_of(i1, j1), r.meet_of(i2, j2), n, m);
        lemma_pair_coordinates(l.join_of(i1, j1), r.join_of(i2, j2), n, m);
    }
}

/// Errors that can occur while forming a horizontal join of lattices.
#[derive(Debug, Clone, Copy, PartialEq, Eq, Structural)]
pub enum HorizontalJoinError {
    /// At least one input has bottom equal to top.
    TrivialInput,
    /// The fused order failed to form a lattice.
    Lattice(LatticeError),
}

/// The horizontal join, or fusion, of two nontrivial lattices: the two
/// bottom elements are identified, and so are the two top elements; all
/// other elements of the two factors stay apart.
#[derive(Debug)]
#[verifier::reject_recursive_types(A)]
#[verifier::reject_recursive_types(B)]
pub struct LatticeFusion<A, B> {
    /// The fused lattice, with labels tagged according to their original side.
    pub lattice: Arc<Lattice<Either<A, B>>>,
    /// The canonical lattice embedding of the left factor.
    pub left: LatticeMap<A, Either<A, B>>,
    /// The canonical lattice embedding of the right factor.
    pub right: LatticeMap<B, Either<A, B>>,
}

/// The error that constructing a lattice from the order `m` on `n` elements
/// reports, as [`Lattice::new`] and the poset validation state it.
pub open spec fn lattice_order_error(m: Seq<Seq<bool>>, n: nat, e: LatticeError) -> bool {
    match e {
        LatticeError::Poset(pe) => relation_error(m, n, pe),
        LatticeError::Empty => n == 0,
        LatticeError::NotALattice { left, right } => n > 0 && first_non_lattice_pair(m, n, left as int, right as int),
        LatticeError::MissingBottom => is_partial_order(m, n) && is_lattice_order(m, n) && forall|b: int| !is_bottom(m, n, b),
        LatticeError::MissingTop => is_partial_order(m, n) && is_lattice_order(m, n) && forall|t: int| !is_top(m, n, t),
        LatticeError::BooleanRankTooLarge { .. } => false,
    }
}

/// Where element `id` of the right factor lands in the fusion: its bottom
/// and top on those of the left factor, its other elements after the left
/// factor's, in order.
pub open spec fn fusion_slot<A, B>(l: Lattice<A>, r: Lattice<B>, id: int) -> int {
    if id == r.bottom_of() {
        l.bottom_of()
    } else if id == r.top_of() {
        l.top_of()
    } else {
        l.card() + id - (if id > r.bottom_of() { 1int } else { 0 }) - (if id > r.top_of() { 1int } else { 0 })
    }
}

/// The size of the fusion.
pub open spec fn fusion_size<A, B>(l: Lattice<A>, r: Lattice<B>) -> nat {
    (l.card() + r.card() - 2) as nat
}

/// The fused order: the left order, and the right order carried by
/// [`fusion_slot`].
pub open spec fn fusion_order<A, B>(l: Lattice<A>, r: Lattice<B>) -> Seq<Seq<bool>> {
    Seq::new(
        fusion_size(l, r),
        |x: int|
            Seq::new(
                fusion_size(l, r),
                |y: int|
                    (x < l.card() && y < l.card() && l.le(x, y)) || exists|a: int, c: int|
                        #![trigger fusion_slot(l, r, a), fusion_slot(l, r, c)]
                        0 <= a < r.card() && 0 <= c < r.card() && fusion_slot(l, r, a) == x && fusion_slot(l, r, c) == y
                            && r.le(a, c),
            ),
    )
}

/// Some element of the right factor lands on `x`.
pub open spec fn fusion_covers<A, B>(l: Lattice<A>, r: Lattice<B>, x: int) -> bool {
    exists|a: int| 0 <= a < r.card() && #[trigger] fusion_slot(l, r, a) == x
}

/// The images of the right factor's elements in the fusion.
pub open spec fn fusion_right_images<A, B>(l: Lattice<A>, r: Lattice<B>) -> Seq<usize> {
    Seq::new(r.card(), |id: int| fusion_slot(l, r, id) as usize)
}

/// Basic facts on the slots of a nontrivial fusion.
proof fn lemma_fusion_slots<A, B>(l: Lattice<A>, r: Lattice<B>)
    requires
        l.wf(),
        r.wf(),
        l.bottom_of() != l.top_of(),
        r.bottom_of() != r.top_of(),
    ensures
        forall|id: int| 0 <= id < r.card() ==> 0 <= #[trigger] fusion_slot(l, r, id) < fusion_size(l, r),
        forall|id: int|
            0 <= id < r.card() && id != r.bottom_of() && id != r.top_of() ==> #[trigger] fusion_slot(l, r, id) >= l.card(),
        forall|a: int, c: int|
            0 <= a < r.card() && 0 <= c < r.card() && #[trigger] fusion_slot(l, r, a) == #[trigger] fusion_slot(l, r, c) ==> a == c,
{
    let n = l.card();
    let m = r.card();
    let br = r.bottom_of();
    let tr = r.top_of();
    assert(0 <= br < m && 0 <= tr < m);
    assert(0 <= l.bottom_of() < n && 0 <= l.top_of() < n);
    assert forall|id: int| 0 <= id < r.card() implies 0 <= #[trigger] fusion_slot(l, r, id) < fusion_size(l, r) by {
        if id != br && id != tr {
            if id == m - 1 {
                assert(br < id && tr < id);
            }
        }
    }
}

/// The fused order agrees with the left order on the left factor, with the
/// right order on the slots of the right factor, and only the left bottom
/// lies below, and only the left top above, a slot of the right factor's
/// middle.
proof fn lemma_fusion_order<A, B>(l: Lattice<A>, r: Lattice<B>)
    requires
        l.wf(),
        r.wf(),
        l.bottom_of() != l.top_of(),
        r.bottom_of() != r.top_of(),
    ensures
        forall|x: int, y: int| 0 <= x < l.card() && 0 <= y < l.card() ==> #[trigger] fusion_order(l, r)[x][y] == l.le(x, y),
        forall|a: int, c: int|
            0 <= a < r.card() && 0 <= c < r.card() ==> #[trigger] fusion_order(l, r)[fusion_slot(l, r, a)][fusion_slot(l, r, c)]
                == r.le(a, c),
        forall|x: int, y: int|
            0 <= x < fusion_size(l, r) && l.card() <= y < fusion_size(l, r) && #[trigger] fusion_order(l, r)[x][y] && x < l.card()
                ==> x == l.bottom_of(),
        forall|x: int, y: int|
            l.card() <= x < fusion_size(l, r) && 0 <= y < fusion_size(l, r) && #[trigger] fusion_order(l, r)[x][y] && y < l.card()
                ==> y == l.top_of(),
        forall|x: int| l.card() <= x < fusion_size(l, r) ==> #[trigger] fusion_covers(l, r, x),
{
    let n = l.card();
    let m = r.card();
    let f = fusion_order(l, r);
    let (bl, tl, br, tr) = (l.bottom_of(), l.top_of(), r.bottom_of(), r.top_of());
    lemma_fusion_slots(l, r);
    assert(is_partial_order(l.order(), n) && is_partial_order(r.order(), m));
    assert(l.le(bl, tl) && !l.le(tl, bl)) by {
        assert(is_bottom(l.order(), n, bl));
        assert(l.order()[bl][tl]);
        if l.order()[tl][bl] {
            assert(l.order()[bl][tl] && l.order()[tl][bl]);
        }
    }
    assert(r.le(br, tr) && !r.le(tr, br)) by {
        assert(is_bottom(r.order(), m, br));
        assert(r.order()[br][tr]);
        if r.order()[tr][br] {
            assert(r.order()[br][tr] && r.order()[tr][br]);
        }
    }
    assert forall|x: int, y: int| 0 <= x < n && 0 <= y < n implies #[trigger] f[x][y] == l.le(x, y) by {
        if f[x][y] && !l.le(x, y) {
            let (a, c) = choose|a: int, c: int|
                #![trigger fusion_slot(l, r, a), fusion_slot(l, r, c)]
                0 <= a < m && 0 <= c < m && fusion_slot(l, r, a) == x && fusion_slot(l, r, c) == y && r.le(a, c);
            assert(a == br || a == tr);
            assert(c == br || c == tr);
            assert(is_bottom(l.order(), n, bl));
            assert(is_top(l.order(), n, tl));
            assert(l.le(x, x));
        }
    }
    assert forall|a: int, c: int| 0 <= a < m && 0 <= c < m implies #[trigger] f[fusion_slot(l, r, a)][fusion_slot(l, r, c)] == r.le(a, c) by {
        let x = fusion_slot(l, r, a);
        let y = fusion_slot(l, r, c);
        if f[x][y] && !r.le(a, c) {
            if exists|a2: int, c2: int|
                #![trigger fusion_slot(l, r, a2), fusion_slot(l, r, c2)]
                0 <= a2 < m && 0 <= c2 < m && fusion_slot(l, r, a2) == x && fusion_slot(l, r, c2) == y && r.le(a2, c2) {
                let (a2, c2) = choose|a2: int, c2: int|
                    #![trigger fusion_slot(l, r, a2), fusion_slot(l, r, c2)]
                    0 <= a2 < m && 0 <= c2 < m && fusion_slot(l, r, a2) == x && fusion_slot(l, r, c2) == y && r.le(a2, c2);
            } else {
                assert(x < n && y < n && l.le(x, y));
                assert(a == br || a == tr);
                assert(c == br || c == tr);
                assert(is_bottom(r.order(), m, br));
                assert(is_top(r.order(), m, tr));
                assert(r.le(a, a));
            }
        }
        if r.le(a, c) {
            assert(f[x][y]);
        }
    }
    assert forall|x: int, y: int|
        0 <= x < fusion_size(l, r) && n <= y < fusion_size(l, r) && #[trigger] f[x][y] && x < n implies x == bl by {
        let (a, c) = choose|a: int, c: int|
            #![trigger fusion_slot(l, r, a), fusion_slot(l, r, c)]
            0 <= a < m && 0 <= c < m && fusion_slot(l, r, a) == x && fusion_slot(l, r, c) == y && r.le(a, c);
        assert(c != br && c != tr);
        if a == tr {
            assert(is_top(r.order(), m, tr));
            assert(r.le(c, tr));
        }
    }
    assert forall|x: int, y: int|
        n <= x < fusion_size(l, r) && 0 <= y < fusion_size(l, r) && #[trigger] f[x][y] && y < n implies y == tl by {
        let (a, c) = choose|a: int, c: int|
            #![trigger fusion_slot(l, r, a), fusion_slot(l, r, c)]
            0 <= a < m && 0 <= c < m && fusion_slot(l, r, a) == x && fusion_slot(l, r, c) == y && r.le(a, c);
        assert(a != br && a != tr);
        if c == br {
            assert(is_bottom(r.order(), m, br));
            assert(r.le(br, a));
        }
    }
    assert forall|x: int| l.card() <= x < fusion_size(l, r) implies #[trigger] fusion_covers(l, r, x) by {
        {
            let k = x - n;
            let lo2 = if br < tr { br } else { tr };
            let hi2 = if br < tr { tr } else { br };
            let a = if k < lo2 { k } else if k + 1 < hi2 { k + 1 } else { k + 2 };
            assert(0 <= a < m);
            assert(fusion_slot(l, r, a) == x);
        }
    }
}

/// The left factor embeds in a lattice on the fused order as a lattice
/// homomorphism, and so does the right factor.
proof fn lemma_fusion_embeddings<A, B, C>(l: Lattice<A>, r: Lattice<B>, f: Lattice<C>)
    requires
        l.wf(),
        r.wf(),
        f.wf(),
        l.bottom_of() != l.top_of(),
        r.bottom_of() != r.top_of(),
        f.order() == fusion_order(l, r),
        f.card() == fusion_size(l, r),
    ensures
        is_lattice_map(l, f, Seq::new(l.card(), |i: int| i as usize)),
        is_lattice_map(r, f, fusion_right_images(l, r)),
{
    let n = l.card();
    let m = r.card();
    let nf = fusion_size(l, r);
    let fo = f.order();
    let (bl, tl, br, tr) = (l.bottom_of(), l.top_of(), r.bottom_of(), r.top_of());
    let left = Seq::new(n, |i: int| i as usize);
    let right = fusion_right_images(l, r);
    lemma_fusion_slots(l, r);
    lemma_fusion_order(l, r);
    assert(n <= nf);
    // bottom and top
    assert(is_bottom(fo, nf, bl)) by {
        assert forall|x: int| 0 <= x < nf implies #[trigger] fo[bl][x] by {
            if x < n {
                assert(fo[bl][x] == l.le(bl, x));
            } else {
                assert(fusion_covers(l, r, x));
                let a = choose|a: int| 0 <= a < m && #[trigger] fusion_slot(l, r, a) == x;
                assert(fo[fusion_slot(l, r, br)][fusion_slot(l, r, a)] == r.le(br, a));
            }
        }
    }
    assert(is_top(fo, nf, tl)) by {
        assert forall|x: int| 0 <= x < nf implies #[trigger] fo[x][tl] by {
            if x < n {
                assert(fo[x][tl] == l.le(x, tl));
            } else {
                assert(fusion_covers(l, r, x));
                let a = choose|a: int| 0 <= a < m && #[trigger] fusion_slot(l, r, a) == x;
                assert(fo[fusion_slot(l, r, a)][fusion_slot(l, r, tr)] == r.le(a, tr));
            }
        }
    }
    lemma_bounds_unique(fo, nf, 0, 0, f.bottom_of(), bl);
    lemma_bounds_unique(fo, nf, 0, 0, f.top_of(), tl);
    // left embedding
    assert forall|i: int, j: int| 0 <= i < n && 0 <= j < n && #[trigger] l.order()[i][j] implies fo[left[i] as int][left[j] as int] by {
        assert(fo[i][j] == l.le(i, j));
    }
    assert forall|i: int, j: int| 0 <= i < n && 0 <= j < n implies #[trigger] preserves_pair(l, f, left, i, j) by {
        let k = l.meet_of(i, j);
        let h = l.join_of(i, j);
        assert(is_meet(l.order(), n, i, j, k));
        assert(is_join(l.order(), n, i, j, h));
        assert(is_meet(fo, nf, i, j, k)) by {
            assert(fo[k][i] == l.le(k, i));
            assert(fo[k][j] == l.le(k, j));
            assert forall|c: int| 0 <= c < nf && #[trigger] fo[c][i] && fo[c][j] implies fo[c][k] by {
                if c < n {
                    assert(fo[c][i] == l.le(c, i));
                    assert(fo[c][j] == l.le(c, j));
                    assert(fo[c][k] == l.le(c, k));
                } else {
                    assert(i == tl && j == tl);
                    assert(l.le(tl, tl));
                    assert(k == tl) by {
                        assert(is_meet(l.order(), n, tl, tl, tl));
                        lemma_bounds_unique(l.order(), n, tl, tl, k, tl);
                    }
                }
            }
        }
        assert(is_join(fo, nf, i, j, h)) by {
            assert(fo[i][h] == l.le(i, h));
            assert(fo[j][h] == l.le(j, h));
            assert forall|c: int| 0 <= c < nf && #[trigger] fo[i][c] && fo[j][c] implies fo[h][c] by {
                if c < n {
                    assert(fo[i][c] == l.le(i, c));
                    assert(fo[j][c] == l.le(j, c));
                    assert(fo[h][c] == l.le(h, c));
                } else {
                    assert(i == bl && j == bl);
                    assert(h == bl) by {
                        assert(is_join(l.order(), n, bl, bl, bl));
                        lemma_bounds_unique(l.order(), n, bl, bl, h, bl);
                    }
                }
            }
        }
        assert(is_meet(fo, nf, i, j, f.meet_of(i, j)));
        assert(is_join(fo, nf, i, j, f.join_of(i, j)));
        lemma_bounds_unique(fo, nf, i, j, k, f.meet_of(i, j));
        lemma_bounds_unique(fo, nf, i, j, h, f.join_of(i, j));
    }
    // right embedding
    assert forall|a: int, c: int| 0 <= a < m && 0 <= c < m && #[trigger] r.order()[a][c] implies fo[right[a] as int][right[c] as int] by {
        assert(fo[fusion_slot(l, r, a)][fusion_slot(l, r, c)] == r.le(a, c));
    }
    assert forall|a: int, c: int| 0 <= a < m && 0 <= c < m implies #[trigger] preserves_pair(r, f, right, a, c) by {
        let k = r.meet_of(a, c);
        let h = r.join_of(a, c);
        let (sa, sc, sk, sh) = (fusion_slot(l, r, a), fusion_slot(l, r, c), fusion_slot(l, r, k), fusion_slot(l, r, h));
        assert(is_meet(r.order(), m, a, c, k));
        assert(is_join(r.order(), m, a, c, h));
        assert(fo[sk][sa] == r.le(k, a));
        assert(fo[sk][sc] == r.le(k, c));
        assert(fo[sa][sh] == r.le(a, h));
        assert(fo[sc][sh] == r.le(c, h));
        assert(is_meet(fo, nf, sa, sc, sk)) by {
            assert forall|z: int| 0 <= z < nf && #[trigger] fo[z][sa] && fo[z][sc] implies fo[z][sk] by {
                if fusion_covers(l, r, z) {
                    let z2 = choose|z2: int| 0 <= z2 < m && #[trigger] fusion_slot(l, r, z2) == z;
                    assert(fo[fusion_slot(l, r, z2)][sa] == r.le(z2, a));
                    assert(fo[fusion_slot(l, r, z2)][sc] == r.le(z2, c));
                    assert(fo[fusion_slot(l, r, z2)][sk] == r.le(z2, k));
                } else {
                    if z >= n {
                        assert(fusion_covers(l, r, z));
                    }
                    assert(fusion_slot(l, r, br) == bl && fusion_slot(l, r, tr) == tl);
                    assert(z < n && z != bl && z != tl);
                    assert(a == br || a == tr);
                    assert(c == br || c == tr);
                    if a == br {
                        assert(fo[z][bl] == l.le(z, bl));
                        assert(is_bottom(l.order(), n, bl));
                        assert(l.le(bl, z));
                    }
                    if c == br {
                        assert(fo[z][bl] == l.le(z, bl));
                        assert(is_bottom(l.order(), n, bl));
                        assert(l.le(bl, z));
                    }
                    assert(a == tr && c == tr);
                    assert(k == tr) by {
                        assert(is_meet(r.order(), m, tr, tr, tr));
                        lemma_bounds_unique(r.order(), m, tr, tr, k, tr);
                    }
                }
            }
        }
        assert(is_join(fo, nf, sa, sc, sh)) by {
            assert forall|z: int| 0 <= z < nf && #[trigger] fo[sa][z] && fo[sc][z] implies fo[sh][z] by {
                if fusion_covers(l, r, z) {
                    let z2 = choose|z2: int| 0 <= z2 < m && #[trigger] fusion_slot(l, r, z2) == z;
                    assert(fo[sa][fusion_slot(l, r, z2)] == r.le(a, z2));
                    assert(fo[sc][fusion_slot(l, r, z2)] == r.le(c, z2));
                    assert(fo[sh][fusion_slot(l, r, z2)] == r.le(h, z2));
                } else {
                    if z >= n {
                        assert(fusion_covers(l, r, z));
                    }
                    assert(fusion_slot(l, r, br) == bl && fusion_slot(l, r, tr) == tl);
                    assert(z < n && z != bl && z != tl);
                    assert(a == br || a == tr);
                    assert(c == br || c == tr);
                    if a == tr {
                        assert(fo[tl][z] == l.le(tl, z));
                        assert(is_top(l.order(), n, tl));
                        assert(l.le(z, tl));
                    }
                    if c == tr {
                        assert(fo[tl][z] == l.le(tl, z));
                        assert(is_top(l.order(), n, tl));
                        assert(l.le(z, tl));
                    }
                    assert(a == br && c == br);
                    assert(h == br) by {
                        assert(is_join(r.order(), m, br, br, br));
                        lemma_bounds_unique(r.order(), m, br, br, h, br);
                    }
                }
            }
        }
        assert(is_meet(fo, nf, sa, sc, f.meet_of(sa, sc)));
        assert(is_join(fo, nf, sa, sc, f.join_of(sa, sc)));
        lemma_bounds_unique(fo, nf, sa, sc, sk, f.meet_of(sa, sc));
        lemma_bounds_unique(fo, nf, sa, sc, sh, f.join_of(sa, sc));
    }
}

/// The labels of the fusion and the slots of the right factor.
fn fusion_labels<A: Clone, B: Clone>(left: &Arc<Lattice<A>>, right: &Arc<Lattice<B>>) -> (r: (Vec<Either<A, B>>, Vec<ElementId>))
    requires
        left.wf(),
        right.wf(),
        left.bottom_of() != left.top_of(),
        right.bottom_of() != right.top_of(),
        left.card() + right.card() <= max_bits() + 2,
    ensures
        r.0@.len() == fusion_size(shared_value(left), shared_value(right)),
        r.1@ == fusion_right_images(shared_value(left), shared_value(right)),
{
    let ghost l = shared_value(left);
    let ghost rl = shared_value(right);
    proof {
        lemma_fusion_slots(l, rl);
    }
    let n = left.size();
    let m = right.size();
    let (bl, tl, br, tr) = (left.bottom(), left.top(), right.bottom(), right.top());
    let left_labels = left.elements();
    let right_labels = right.elements();
    let mut elements: Vec<Either<A, B>> = Vec::new();
    let mut i: usize = 0;
    while i < n
        invariant
            n == left_labels@.len(),
            i <= n,
            elements@.len() == i,
        decreases n - i,
    {
        elements.push(either_left(left_labels[i].clone()));
        i += 1;
    }
    let mut right_map: Vec<ElementId> = Vec::new();
    let mut id: usize = 0;
    while id < m
        invariant
            id <= m,
            right_map@.len() == id,
        decreases m - id,
    {
        right_map.push(0);
        id += 1;
    }
    right_map.set(br, bl);
    right_map.set(tr, tl);
    let mut id: usize = 0;
    while id < m
        invariant
            l == shared_value(left),
            rl == shared_value(right),
            n == l.card(),
            m == rl.card(),
            m == right_labels@.len(),
            bl == l.bottom_of(),
            tl == l.top_of(),
            br == rl.bottom_of(),
            tr == rl.top_of(),
            br != tr,
            bl != tl,
            br < m,
            tr < m,
            bl < n,
            tl < n,
            forall|a: int| 0 <= a < m ==> 0 <= #[trigger] fusion_slot(l, rl, a) < fusion_size(l, rl),
            n + m <= max_bits() + 2,
            id <= m,
            right_map@.len() == m,
            elements@.len() == n + id - (if br < id { 1int } else { 0 }) - (if tr < id { 1int } else { 0 }),
            right_map@[br as int] == bl,
            right_map@[tr as int] == tl,
            forall|a: int| 0 <= a < id && a != br && a != tr ==> #[trigger] right_map@[a] == fusion_slot(l, rl, a),
        decreases m - id,
    {
        if id != br && id != tr {
            assert(fusion_slot(l, rl, id as int) == elements@.len());
            right_map.set(id, elements.len());
            elements.push(either_right(right_labels[id].clone()));
        }
        id += 1;
    }
    let size = elements.len();
    assert(size == fusion_size(l, rl)) by {
        assert(br < m && tr < m);
    }
    assert(right_map@ =~= fusion_right_images(l, rl));
    (elements, right_map)
}

/// The relation matrix of the fused order.
fn fusion_relation<A, B>(left: &Arc<Lattice<A>>, right: &Arc<Lattice<B>>, right_map: &Vec<ElementId>, size: usize) -> (r: Vec<Bits>)
    requires
        left.wf(),
        right.wf(),
        left.bottom_of() != left.top_of(),
        right.bottom_of() != right.top_of(),
        size == fusion_size(shared_value(left), shared_value(right)),
        size <= max_bits(),
        right_map@ == fusion_right_images(shared_value(left), shared_value(right)),
    ensures
        matrix_of(r@) == fusion_order(shared_value(left), shared_value(right)),
{
    let ghost l = shared_value(left);
    let ghost rl = shared_value(right);
    let ghost fo = fusion_order(l, rl);
    proof {
        lemma_fusion_slots(l, rl);
    }
    let n = left.size();
    let m = right.size();
    let mut relation = crate::bits::repeat_rows(false, size, size);
    let left_relations = left.as_poset().all_relations_iter();
    let mut k: usize = 0;
    while k < left_relations.len()
        invariant
            l == shared_value(left),
            n == l.card(),
            size == fusion_size(l, rl),
            n <= size,
            forall|q: int| 0 <= q < left_relations@.len() ==> (#[trigger] left_relations@[q]).from < n && left_relations@[q].to < n,
            k <= left_relations@.len(),
            relation@.len() == size,
            forall|x: int| 0 <= x < size ==> (#[trigger] relation@[x])@.len() == size,
            forall|x: int, y: int| 0 <= x < size && 0 <= y < size ==> #[trigger] relation@[x]@[y] == exists|q: int|
                0 <= q < k && #[trigger] left_relations@[q] == (Edge { from: x as usize, to: y as usize }),
        decreases left_relations@.len() - k,
    {
        let e = left_relations[k];
        let ghost before = relation@;
        relation[e.from].set(e.to, true);
        proof {
            assert forall|x: int, y: int| 0 <= x < size && 0 <= y < size implies #[trigger] relation@[x]@[y] == exists|q: int|
                0 <= q < k + 1 && #[trigger] left_relations@[q] == (Edge { from: x as usize, to: y as usize }) by {
                if exists|q: int| 0 <= q < k + 1 && #[trigger] left_relations@[q] == (Edge { from: x as usize, to: y as usize }) {
                    let q = choose|q: int| 0 <= q < k + 1 && #[trigger] left_relations@[q] == (Edge { from: x as usize, to: y as usize });
                    if q < k {
                        assert(before[x]@[y]);
                    }
                }
                if before[x]@[y] {
                    let q = choose|q: int| 0 <= q < k && #[trigger] left_relations@[q] == (Edge { from: x as usize, to: y as usize });
                    assert(0 <= q < k + 1);
                }
                if x == e.from && y == e.to {
                    assert(left_relations@[k as int] == (Edge { from: x as usize, to: y as usize }));
                }
            }
        }
        k += 1;
    }
    let right_relations = right.as_poset().all_relations_iter();
    let mut k: usize = 0;
    while k < right_relations.len()
        invariant
            l == shared_value(left),
            rl == shared_value(right),
            n == l.card(),
            m == rl.card(),
            size == fusion_size(l, rl),
            n <= size,
            forall|a: int| 0 <= a < m ==> 0 <= #[trigger] fusion_slot(l, rl, a) < fusion_size(l, rl),
            right_map@ == fusion_right_images(l, rl),
            forall|q: int| 0 <= q < left_relations@.len() ==> (#[trigger] left_relations@[q]).from < n && left_relations@[q].to < n,
            forall|q: int| 0 <= q < right_relations@.len() ==> (#[trigger] right_relations@[q]).from < m && right_relations@[q].to < m,
            k <= right_relations@.len(),
            relation@.len() == size,
            forall|x: int| 0 <= x < size ==> (#[trigger] relation@[x])@.len() == size,
            forall|x: int, y: int| 0 <= x < size && 0 <= y < size ==> #[trigger] relation@[x]@[y] == ((exists|q: int|
                0 <= q < left_relations@.len() && #[trigger] left_relations@[q] == (Edge { from: x as usize, to: y as usize }))
                || exists|q: int|
                0 <= q < k && fusion_slot(l, rl, #[trigger] right_relations@[q].from as int) == x && fusion_slot(l, rl, right_relations@[q].to as int) == y),
        decreases right_relations@.len() - k,
    {
        let e = right_relations[k];
        let ghost before = relation@;
        let from = right_map[e.from];
        let to = right_map[e.to];
        relation[from].set(to, true);
        proof {
            assert forall|x: int, y: int| 0 <= x < size && 0 <= y < size implies #[trigger] relation@[x]@[y] == ((exists|q: int|
                0 <= q < left_relations@.len() && #[trigger] left_relations@[q] == (Edge { from: x as usize, to: y as usize }))
                || exists|q: int|
                0 <= q < k + 1 && fusion_slot(l, rl, #[trigger] right_relations@[q].from as int) == x && fusion_slot(l, rl, right_relations@[q].to as int) == y) by {
                if exists|q: int| 0 <= q < k + 1 && fusion_slot(l, rl, #[trigger] right_relations@[q].from as int) == x && fusion_slot(l, rl, right_relations@[q].to as int) == y {
                    let q = choose|q: int| 0 <= q < k + 1 && fusion_slot(l, rl, #[trigger] right_relations@[q].from as int) == x && fusion_slot(l, rl, right_relations@[q].to as int) == y;
                    if q < k {
                        assert(before[x]@[y]);
                    }
                }
                if exists|q: int| 0 <= q < k && fusion_slot(l, rl, #[trigger] right_relations@[q].from as int) == x && fusion_slot(l, rl, right_relations@[q].to as int) == y {
                    let q = choose|q: int| 0 <= q < k && fusion_slot(l, rl, #[trigger] right_relations@[q].from as int) == x && fusion_slot(l, rl, right_relations@[q].to as int) == y;
                    assert(0 <= q < k + 1);
                }
                if x == from && y == to {
                    assert(fusion_slot(l, rl, right_relations@[k as int].from as int) == x);
                }
            }
        }
        k += 1;
    }
    proof {
        assert(matrix_of(relation@) =~= fo) by {
            assert forall|x: int| 0 <= x < size implies #[trigger] matrix_of(relation@)[x] =~= fo[x] by {
                assert(matrix_of(relation@)[x] == relation@[x]@);
                assert forall|y: int| 0 <= y < size implies relation@[x]@[y] == fo[x][y] by {
                    let left_part = exists|q: int|
                        0 <= q < left_relations@.len() && #[trigger] left_relations@[q] == (Edge { from: x as usize, to: y as usize });
                    if x < n && y < n && l.le(x, y) {
                        assert(left_relations@.contains(Edge { from: x as usize, to: y as usize }));
                    }
                    if left_part {
                        let q = choose|q: int|
                            0 <= q < left_relations@.len() && #[trigger] left_relations@[q] == (Edge { from: x as usize, to: y as usize });
                    }
                    if exists|a: int, c: int|
                        #![trigger fusion_slot(l, rl, a), fusion_slot(l, rl, c)]
                        0 <= a < m && 0 <= c < m && fusion_slot(l, rl, a) == x && fusion_slot(l, rl, c) == y && rl.le(a, c) {
                        let (a, c) = choose|a: int, c: int|
                            #![trigger fusion_slot(l, rl, a), fusion_slot(l, rl, c)]
                            0 <= a < m && 0 <= c < m && fusion_slot(l, rl, a) == x && fusion_slot(l, rl, c) == y && rl.le(a, c);
                        assert(right_relations@.contains(Edge { from: a as usize, to: c as usize }));
                        let q = choose|q: int| 0 <= q < right_relations@.len() && right_relations@[q] == (Edge { from: a as usize, to: c as usize });
                    }
                    if exists|q: int|
                        0 <= q < right_relations@.len() && fusion_slot(l, rl, #[trigger] right_relations@[q].from as int) == x && fusion_slot(l, rl, right_relations@[q].to as int) == y {
                        let q = choose|q: int|
                            0 <= q < right_relations@.len() && fusion_slot(l, rl, #[trigger] right_relations@[q].from as int) == x && fusion_slot(l, rl, right_relations@[q].to as int) == y;
                        let a = right_relations@[q].from as int;
                        let c = right_relations@[q].to as int;
                        assert(rl.le(a, c));
                        assert(fusion_slot(l, rl, a) == x && fusion_slot(l, rl, c) == y);
                    }
                }
            }
        }
    }
    relation
}

/// Fuses two nontrivial lattices by identifying their bottoms and tops.
///
/// The result contains a copy of each input lattice, except that the two
/// bottom elements are identified and the two top elements are identified;
/// no other comparabilities are added between the two factors.  The left
/// factor keeps its element ids, and the other elements of the right factor
/// follow in order.  The returned embeddings record where each input went.
pub fn horizontal_join<A: Clone, B: Clone>(left: Arc<Lattice<A>>, right: Arc<Lattice<B>>) -> (r: Result<LatticeFusion<A, B>, HorizontalJoinError>)
    requires
        left.wf(),
        right.wf(),
        left.card() + right.card() <= max_bits() + 2,
    ensures
        left.bottom_of() == left.top_of() || right.bottom_of() == right.top_of() ==> r == Err::<
            LatticeFusion<A, B>,
            HorizontalJoinError,
        >(HorizontalJoinError::TrivialInput),
        match r {
            Ok(f) => {
                &&& f.lattice.wf()
                &&& f.lattice.card() == fusion_size(*left, *right)
                &&& f.lattice.order() == fusion_order(*left, *right)
                &&& f.left.wf() && f.right.wf()
                &&& f.left.domain_of() == *left && f.left.codomain_of() == *f.lattice
                &&& f.right.domain_of() == *right && f.right.codomain_of() == *f.lattice
                &&& f.left.images_of() == Seq::new(left.card(), |i: int| i as usize)
                &&& f.right.images_of() == fusion_right_images(*left, *right)
            },
            Err(HorizontalJoinError::TrivialInput) => left.bottom_of() == left.top_of() || right.bottom_of() == right.top_of(),
            Err(HorizontalJoinError::Lattice(e)) => {
                &&& left.bottom_of() != left.top_of()
                &&& right.bottom_of() != right.top_of()
                &&& lattice_order_error(fusion_order(*left, *right), fusion_size(*left, *right), e)
            },
        },
{
    if left.bottom() == left.top() || right.bottom() == right.top() {
        return Err(HorizontalJoinError::TrivialInput);
    }
    let ghost l = shared_value(&left);
    let ghost rl = shared_value(&right);
    let n = left.size();
    let (elements, right_map) = fusion_labels(&left, &right);
    let relation = fusion_relation(&left, &right, &right_map, elements.len());
    let poset = match Poset::from_relation(elements, relation) {
        Ok(poset) => poset,
        Err(e) => {
            return Err(HorizontalJoinError::Lattice(LatticeError::Poset(e)));
        },
    };
    let lattice = match Lattice::new(poset) {
        Ok(lattice) => Arc::new(lattice),
        Err(e) => {
            return Err(HorizontalJoinError::Lattice(e));
        },
    };
    proof {
        lemma_fusion_embeddings(l, rl, shared_value(&lattice));
    }
    let mut left_ids: Vec<ElementId> = Vec::new();
    let mut i: usize = 0;
    while i < n
        invariant
            i <= n,
            left_ids@ == Seq::new(i as nat, |k: int| k as usize),
        decreases n - i,
    {
        left_ids.push(i);
        proof {
            assert(left_ids@ =~= Seq::new((i + 1) as nat, |k: int| k as usize));
        }
        i += 1;
    }
    let left_map = match LatticeMap::new(left, arc_clone(&lattice), left_ids) {
        Ok(f) => f,
        Err(e) => {
            return Err(HorizontalJoinError::TrivialInput);
        },
    };
    let right_embedding = match LatticeMap::new(right, arc_clone(&lattice), right_map) {
        Ok(f) => f,
        Err(e) => {
            return Err(HorizontalJoinError::TrivialInput);
        },
    };
    Ok(LatticeFusion { lattice, left: left_map, right: right_embedding })
}

} // verus!
