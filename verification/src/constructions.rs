//! Coproducts and products of finite posets, with their canonical maps.
//!
//! The disjoint union places the right summand after the left one, with no
//! relation between them; the product lists pairs in row-major order,
//! `(a, b)` at `a * m + b` for a right factor of `m` elements, ordered
//! componentwise.

use crate::bits::{matrix_of, max_bits, Bits};
use crate::edges::ElementId;
use crate::morphism::{is_monotone_map, PosetMap, PosetMapError};
use crate::order::is_partial_order;
use crate::poset::Poset;
use crate::shared::arc_clone;
use either::Either;
use std::sync::Arc;
use vstd::prelude::*;

verus! {

/// The labels of a disjoint union.
#[verifier::external_type_specification]
#[verifier::external_body]
#[verifier::reject_recursive_types(L)]
#[verifier::reject_recursive_types(R)]
pub struct ExEither<L, R>(Either<L, R>);

/// `Either::Left`: tags a label of the left summand.
#[verifier::external_body]
pub(crate) fn either_left<L, R>(label: L) -> Either<L, R> {
    Either::Left(label)
}

/// `Either::Right`: tags a label of the right summand.
#[verifier::external_body]
pub(crate) fn either_right<L, R>(label: R) -> Either<L, R> {
    Either::Right(label)
}

/// The order of the disjoint union of an order on `n` elements and one on
/// `m` elements, the right one shifted by `n`.
pub open spec fn sum_order(lo: Seq<Seq<bool>>, n: nat, ro: Seq<Seq<bool>>, m: nat) -> Seq<Seq<bool>> {
    Seq::new(
        n + m,
        |i: int|
            Seq::new(
                n + m,
                |j: int|
                    if i < n && j < n {
                        lo[i][j]
                    } else if i >= n && j >= n {
                        ro[i - n][j - n]
                    } else {
                        false
                    },
            ),
    )
}

/// The componentwise order on pairs, the pair `(a, b)` at `a * m + b`.
pub open spec fn product_order(lo: Seq<Seq<bool>>, n: nat, ro: Seq<Seq<bool>>, m: nat) -> Seq<Seq<bool>> {
    Seq::new(
        n * m,
        |i: int| Seq::new(n * m, |j: int| lo[i / (m as int)][j / (m as int)] && ro[i % (m as int)][j % (m as int)]),
    )
}

proof fn lemma_sum_order(lo: Seq<Seq<bool>>, n: nat, ro: Seq<Seq<bool>>, m: nat)
    requires
        is_partial_order(lo, n),
        is_partial_order(ro, m),
    ensures
        is_partial_order(sum_order(lo, n, ro, m), n + m),
{
    let s = sum_order(lo, n, ro, m);
    assert forall|i: int, j: int, k: int|
        0 <= i < n + m && 0 <= j < n + m && 0 <= k < n + m && #[trigger] s[i][j] && #[trigger] s[j][k] implies s[i][k] by {
        if i < n {
            assert(lo[i][j] && lo[j][k]);
        } else {
            assert(ro[i - n][j - n] && ro[j - n][k - n]);
        }
    }
    assert forall|i: int, j: int| 0 <= i < n + m && 0 <= j < n + m && #[trigger] s[i][j] && #[trigger] s[j][i] implies i == j by {
        if i < n {
            assert(lo[i][j] && lo[j][i]);
        } else {
            assert(ro[i - n][j - n] && ro[j - n][i - n]);
        }
    }
}

/// Splits a pair index into its coordinates.
pub proof fn lemma_pair_index(i: int, n: nat, m: nat)
    requires
        0 <= i < n * m,
    ensures
        m > 0,
        0 <= i / (m as int) < n,
        0 <= i % (m as int) < m,
        i == (i / (m as int)) * m + i % (m as int),
{
    if m == 0 {
        assert(n * m == 0) by (nonlinear_arith)
            requires
                m == 0,
        ;
    }
    assert(m * n == n * m) by (nonlinear_arith);
    vstd::arithmetic::div_mod::lemma_fundamental_div_mod(i, m as int);
    vstd::arithmetic::div_mod::lemma_mod_bound(i, m as int);
    vstd::arithmetic::div_mod::lemma_multiply_divide_lt(i, m as int, n as int);
    vstd::arithmetic::div_mod::lemma_div_pos_is_pos(i, m as int);
    assert((i / (m as int)) * m == m * (i / (m as int))) by (nonlinear_arith);
}

/// The index of the pair `(a, b)`, and its coordinates.
pub proof fn lemma_pair_coordinates(a: int, b: int, n: nat, m: nat)
    requires
        0 <= a < n,
        0 <= b < m,
    ensures
        0 <= a * m + b < n * m,
        (a * m + b) / (m as int) == a,
        (a * m + b) % (m as int) == b,
{
    assert(0 <= a * m + b < n * m) by (nonlinear_arith)
        requires
            0 <= a < n,
            0 <= b < m,
    ;
    vstd::arithmetic::div_mod::lemma_fundamental_div_mod_converse(a * m + b, m as int, a, b);
}

pub proof fn lemma_product_order(lo: Seq<Seq<bool>>, n: nat, ro: Seq<Seq<bool>>, m: nat)
    requires
        is_partial_order(lo, n),
        is_partial_order(ro, m),
    ensures
        is_partial_order(product_order(lo, n, ro, m), n * m),
{
    let p = product_order(lo, n, ro, m);
    assert forall|i: int| 0 <= i < n * m implies (#[trigger] p[i]).len() == n * m by {
    }
    assert forall|i: int| 0 <= i < n * m implies #[trigger] p[i][i] by {
        lemma_pair_index(i, n, m);
    }
    assert forall|i: int, j: int, k: int|
        0 <= i < n * m && 0 <= j < n * m && 0 <= k < n * m && #[trigger] p[i][j] && #[trigger] p[j][k] implies p[i][k] by {
        lemma_pair_index(i, n, m);
        lemma_pair_index(j, n, m);
        lemma_pair_index(k, n, m);
    }
    assert forall|i: int, j: int| 0 <= i < n * m && 0 <= j < n * m && #[trigger] p[i][j] && #[trigger] p[j][i] implies i == j by {
        lemma_pair_index(i, n, m);
        lemma_pair_index(j, n, m);
    }
}

/// The coproduct, or disjoint union, of two finite posets.
///
/// No order relations are added between the two summands: an element of
/// the left summand is incomparable with every element of the right one.
#[derive(Debug)]
#[verifier::reject_recursive_types(A)]
#[verifier::reject_recursive_types(B)]
pub struct PosetCoproduct<A, B> {
    /// The disjoint union poset, with labels tagged by their summand.
    pub poset: Arc<Poset<Either<A, B>>>,
    /// The canonical order embedding of the left summand.
    pub left: PosetMap<A, Either<A, B>>,
    /// The canonical order embedding of the right summand.
    pub right: PosetMap<B, Either<A, B>>,
}

/// The categorical product of two finite posets and its projections.
#[derive(Debug)]
pub struct PosetProduct<A, B> {
    /// The product poset with componentwise order.
    pub poset: Arc<Poset<(A, B)>>,
    /// The first projection `(a, b) |-> a`.
    pub left_projection: PosetMap<(A, B), A>,
    /// The second projection `(a, b) |-> b`.
    pub right_projection: PosetMap<(A, B), B>,
}

/// Constructs the disjoint union of two posets and its canonical inclusions.
pub fn disjoint_union<A: Clone, B: Clone>(left: Arc<Poset<A>>, right: Arc<Poset<B>>) -> (r: Result<PosetCoproduct<A, B>, PosetMapError>)
    requires
        left.wf(),
        right.wf(),
        left.card() + right.card() <= max_bits(),
    ensures
        match r {
            Ok(c) => {
                &&& c.poset.wf()
                &&& c.poset.order() == sum_order(left.order(), left.card(), right.order(), right.card())
                &&& c.left.wf() && c.right.wf()
                &&& c.left.domain_of() == *left && c.left.codomain_of() == *c.poset
                &&& c.right.domain_of() == *right && c.right.codomain_of() == *c.poset
                &&& c.left.images_of() == Seq::new(left.card(), |i: int| i as usize)
                &&& c.right.images_of() == Seq::new(right.card(), |i: int| (left.card() + i) as usize)
            },
            Err(_) => false,
        },
{
    Poset::<Either<A, B>>::disjoint_union(left, right)
}

/// Constructs the direct product of two posets and its canonical projections.
pub fn product<A: Clone, B: Clone>(left: Arc<Poset<A>>, right: Arc<Poset<B>>) -> (r: Result<PosetProduct<A, B>, PosetMapError>)
    requires
        left.wf(),
        right.wf(),
        left.card() * right.card() <= max_bits(),
    ensures
        match r {
            Ok(p) => {
                &&& p.poset.wf()
                &&& p.poset.order() == product_order(left.order(), left.card(), right.order(), right.card())
                &&& forall|i: int| 0 <= i < p.poset.card() ==> cloned::<A>(left.labels()[i / (right.card() as int)], #[trigger] p.poset.labels()[i].0)
                    && cloned::<B>(right.labels()[i % (right.card() as int)], p.poset.labels()[i].1)
                &&& p.left_projection.wf() && p.right_projection.wf()
                &&& p.left_projection.domain_of() == *p.poset && p.left_projection.codomain_of() == *left
                &&& p.right_projection.domain_of() == *p.poset && p.right_projection.codomain_of() == *right
                &&& p.left_projection.images_of() == Seq::new(left.card() * right.card(), |i: int| (i / (right.card() as int)) as usize)
                &&& p.right_projection.images_of() == Seq::new(left.card() * right.card(), |i: int| (i % (right.card() as int)) as usize)
            },
            Err(_) => false,
        },
{
    Poset::<(A, B)>::product(left, right)
}

impl<A: Clone, B: Clone> Poset<Either<A, B>> {
    /// Constructs the disjoint union of two posets and its canonical
    /// inclusions; the same construction as [`disjoint_union`].
    pub fn disjoint_union(left: Arc<Poset<A>>, right: Arc<Poset<B>>) -> (r: Result<PosetCoproduct<A, B>, PosetMapError>)
        requires
            left.wf(),
            right.wf(),
            left.card() + right.card() <= max_bits(),
        ensures
            match r {
                Ok(c) => {
                    &&& c.poset.wf()
                    &&& c.poset.order() == sum_order(left.order(), left.card(), right.order(), right.card())
                    &&& c.left.wf() && c.right.wf()
                    &&& c.left.domain_of() == *left && c.left.codomain_of() == *c.poset
                    &&& c.right.domain_of() == *right && c.right.codomain_of() == *c.poset
                    &&& c.left.images_of() == Seq::new(left.card(), |i: int| i as usize)
                    &&& c.right.images_of() == Seq::new(right.card(), |i: int| (left.card() + i) as usize)
                },
                Err(_) => false,
            },
    {
        let n = left.size();
        let m = right.size();
        let ghost lo = left.order();
        let ghost ro = right.order();
        let ghost s = sum_order(lo, n as nat, ro, m as nat);
        let mut elements: Vec<Either<A, B>> = Vec::new();
        let left_labels = left.elements();
        let right_labels = right.elements();
        let mut i: usize = 0;
        while i < n
            invariant
                n == left_labels@.len(),
                i <= n,
                elements@.len() == i,
            decreases n - i,
        {
            elements.push(either_left(left_labels[i].clone()));
            i += 1;
        }
        let mut j: usize = 0;
        while j < m
            invariant
                m == right_labels@.len(),
                j <= m,
                elements@.len() == n + j,
            decreases m - j,
        {
            elements.push(either_right(right_labels[j].clone()));
            j += 1;
        }
        let total = n + m;
        let mut relation: Vec<Bits> = Vec::new();
        let mut i: usize = 0;
        while i < total
            invariant
                left.wf(),
                right.wf(),
                n == left.card(),
                m == right.card(),
                lo == left.order(),
                ro == right.order(),
                s == sum_order(lo, n as nat, ro, m as nat),
                total == n + m,
                total <= max_bits(),
                i <= total,
                relation@.len() == i,
                forall|a: int| 0 <= a < i ==> (#[trigger] relation@[a])@ == s[a],
            decreases total - i,
        {
            let mut row = Bits::repeat(false, total);
            let mut j: usize = 0;
            while j < total
                invariant
                    left.wf(),
                    right.wf(),
                    n == left.card(),
                    m == right.card(),
                    lo == left.order(),
                    ro == right.order(),
                    s == sum_order(lo, n as nat, ro, m as nat),
                    total == n + m,
                    i < total,
                    j <= total,
                    row@.len() == total,
                    forall|b: int| 0 <= b < j ==> #[trigger] row@[b] == s[i as int][b],
                    forall|b: int| j <= b < total ==> !#[trigger] row@[b],
                decreases total - j,
            {
                let related = if i < n && j < n {
                    left.leq(i, j)
                } else if i >= n && j >= n {
                    right.leq(i - n, j - n)
                } else {
                    false
                };
                row.set(j, related);
                j += 1;
            }
            assert(row@ =~= s[i as int]);
            relation.push(row);
            i += 1;
        }
        proof {
            lemma_sum_order(lo, n as nat, ro, m as nat);
            assert(matrix_of(relation@) =~= s) by {
                assert forall|a: int| 0 <= a < total implies #[trigger] matrix_of(relation@)[a] == s[a] by {
                    assert(matrix_of(relation@)[a] == relation@[a]@);
                }
            }
        }
        let poset = Arc::new(Poset::from_validated(elements, relation));
        let mut left_images: Vec<ElementId> = Vec::new();
        let mut i: usize = 0;
        while i < n
            invariant
                i <= n,
                left_images@ == Seq::new(i as nat, |k: int| k as usize),
            decreases n - i,
        {
            left_images.push(i);
            proof {
                assert(left_images@ =~= Seq::new((i + 1) as nat, |k: int| k as usize));
            }
            i += 1;
        }
        let mut right_images: Vec<ElementId> = Vec::new();
        let mut j: usize = 0;
        while j < m
            invariant
                j <= m,
                n + m <= max_bits(),
                right_images@ == Seq::new(j as nat, |k: int| (n + k) as usize),
            decreases m - j,
        {
            right_images.push(n + j);
            proof {
                assert(right_images@ =~= Seq::new((j + 1) as nat, |k: int| (n + k) as usize));
            }
            j += 1;
        }
        proof {
            assert(is_monotone_map(lo, n as nat, s, (n + m) as nat, left_images@));
            assert forall|a: int, b: int| 0 <= a < m && 0 <= b < m && #[trigger] ro[a][b] implies s[right_images@[a] as int][right_images@[b] as int] by {
                assert(s[n + a][n + b] == ro[a][b]);
            }
            assert(is_monotone_map(ro, m as nat, s, (n + m) as nat, right_images@));
        }
        let left_map = PosetMap::from_validated(left, arc_clone(&poset), left_images);
        let right_map = PosetMap::from_validated(right, arc_clone(&poset), right_images);
        Ok(PosetCoproduct { poset, left: left_map, right: right_map })
    }
}

impl<A: Clone, B: Clone> Poset<(A, B)> {
    /// Constructs the direct product of two posets and its canonical
    /// projections: `(a, b) <= (a', b')` if and only if `a <= a'` in the left
    /// factor and `b <= b'` in the right factor.
    pub fn product(left: Arc<Poset<A>>, right: Arc<Poset<B>>) -> (r: Result<PosetProduct<A, B>, PosetMapError>)
        requires
            left.wf(),
            right.wf(),
            left.card() * right.card() <= max_bits(),
        ensures
            match r {
                Ok(p) => {
                    &&& p.poset.wf()
                    &&& p.poset.order() == product_order(left.order(), left.card(), right.order(), right.card())
                    &&& forall|i: int| 0 <= i < p.poset.card() ==> cloned::<A>(left.labels()[i / (right.card() as int)], #[trigger] p.poset.labels()[i].0)
                        && cloned::<B>(right.labels()[i % (right.card() as int)], p.poset.labels()[i].1)
                    &&& p.left_projection.wf() && p.right_projection.wf()
                    &&& p.left_projection.domain_of() == *p.poset && p.left_projection.codomain_of() == *left
                    &&& p.right_projection.domain_of() == *p.poset && p.right_projection.codomain_of() == *right
                    &&& p.left_projection.images_of() == Seq::new(left.card() * right.card(), |i: int| (i / (right.card() as int)) as usize)
                    &&& p.right_projection.images_of() == Seq::new(left.card() * right.card(), |i: int| (i % (right.card() as int)) as usize)
                },
                Err(_) => false,
            },
    {
        let n = left.size();
        let m = right.size();
        let ghost lo = left.order();
        let ghost ro = right.order();
        let ghost po = product_order(lo, n as nat, ro, m as nat);
        let left_labels = left.elements();
        let right_labels = right.elements();
        let total = n * m;
        let mut elements: Vec<(A, B)> = Vec::new();
        let mut left_images: Vec<ElementId> = Vec::new();
        let mut right_images: Vec<ElementId> = Vec::new();
        let mut a: usize = 0;
        while a < n
            invariant
                n == left_labels@.len(),
                m == right_labels@.len(),
                left_labels@ == left.labels(),
                right_labels@ == right.labels(),
                total == n * m,
                a <= n,
                elements@.len() == a * m,
                left_images@.len() == a * m,
                right_images@.len() == a * m,
                forall|i: int| 0 <= i < a * m ==> cloned::<A>(left.labels()[i / (m as int)], #[trigger] elements@[i].0) && cloned::<B>(right.labels()[i % (m as int)], elements@[i].1),
                forall|i: int| 0 <= i < a * m ==> #[trigger] left_images@[i] == i / (m as int),
                forall|i: int| 0 <= i < a * m ==> #[trigger] right_images@[i] == i % (m as int),
            decreases n - a,
        {
            assert((a + 1) * m <= n * m) by (nonlinear_arith)
                requires
                    a < n,
            ;
            assert((a + 1) * m == a * m + m) by (nonlinear_arith);
            let mut b: usize = 0;
            while b < m
                invariant
                    n == left_labels@.len(),
                    m == right_labels@.len(),
                    left_labels@ == left.labels(),
                    right_labels@ == right.labels(),
                    total == n * m,
                    a < n,
                    (a + 1) * m <= n * m,
                    b <= m,
                    elements@.len() == a * m + b,
                    left_images@.len() == a * m + b,
                    right_images@.len() == a * m + b,
                    forall|i: int| 0 <= i < a * m + b ==> cloned::<A>(left.labels()[i / (m as int)], #[trigger] elements@[i].0) && cloned::<B>(right.labels()[i % (m as int)], elements@[i].1),
                    forall|i: int| 0 <= i < a * m + b ==> #[trigger] left_images@[i] == i / (m as int),
                    forall|i: int| 0 <= i < a * m + b ==> #[trigger] right_images@[i] == i % (m as int),
                decreases m - b,
            {
                proof {
                    lemma_pair_coordinates(a as int, b as int, n as nat, m as nat);
                }
                elements.push((left_labels[a].clone(), right_labels[b].clone()));
                left_images.push(a);
                right_images.push(b);
                b += 1;
            }
            a += 1;
        }
        let mut relation: Vec<Bits> = Vec::new();
        let mut i: usize = 0;
        while i < total
            invariant
                left.wf(),
                right.wf(),
                n == left.card(),
                m == right.card(),
                lo == left.order(),
                ro == right.order(),
                po == product_order(lo, n as nat, ro, m as nat),
                total == n * m,
                total <= max_bits(),
                i <= total,
                relation@.len() == i,
                forall|k: int| 0 <= k < i ==> (#[trigger] relation@[k])@ == po[k],
            decreases total - i,
        {
            proof {
                lemma_pair_index(i as int, n as nat, m as nat);
            }
            let i1 = i / m;
            let j1 = i % m;
            let mut row = Bits::repeat(false, total);
            let mut k: usize = 0;
            while k < total
                invariant
                    left.wf(),
                    right.wf(),
                    n == left.card(),
                    m == right.card(),
                    lo == left.order(),
                    ro == right.order(),
                    po == product_order(lo, n as nat, ro, m as nat),
                    total == n * m,
                    i < total,
                    i1 == (i as int) / (m as int),
                    j1 == (i as int) % (m as int),
                    i1 < n,
                    j1 < m,
                    k <= total,
                    row@.len() == total,
                    forall|c: int| 0 <= c < k ==> #[trigger] row@[c] == po[i as int][c],
                decreases total - k,
            {
                proof {
                    lemma_pair_index(k as int, n as nat, m as nat);
                }
                let related = left.leq(i1, k / m) && right.leq(j1, k % m);
                row.set(k, related);
                k += 1;
            }
            assert(row@ =~= po[i as int]);
            relation.push(row);
            i += 1;
        }
        proof {
            lemma_product_order(lo, n as nat, ro, m as nat);
            assert(matrix_of(relation@) =~= po) by {
                assert forall|k: int| 0 <= k < total implies #[trigger] matrix_of(relation@)[k] == po[k] by {
                    assert(matrix_of(relation@)[k] == relation@[k]@);
                }
            }
        }
        let poset = Arc::new(Poset::from_validated(elements, relation));
        proof {
            assert forall|x: int, y: int| 0 <= x < total && 0 <= y < total && #[trigger] po[x][y] implies lo[left_images@[x] as int][left_images@[y] as int] by {
                lemma_pair_index(x, n as nat, m as nat);
                lemma_pair_index(y, n as nat, m as nat);
            }
            assert forall|x: int, y: int| 0 <= x < total && 0 <= y < total && #[trigger] po[x][y] implies ro[right_images@[x] as int][right_images@[y] as int] by {
                lemma_pair_index(x, n as nat, m as nat);
                lemma_pair_index(y, n as nat, m as nat);
            }
            assert forall|x: int| 0 <= x < total implies #[trigger] left_images@[x] < n && right_images@[x] < m by {
                lemma_pair_index(x, n as nat, m as nat);
            }
            assert(left_images@ =~= Seq::new(total as nat, |x: int| (x / (m as int)) as usize));
            assert(right_images@ =~= Seq::new(total as nat, |x: int| (x % (m as int)) as usize));
        }
        let left_projection = PosetMap::from_validated(arc_clone(&poset), left, left_images);
        let right_projection = PosetMap::from_validated(arc_clone(&poset), right, right_images);
        Ok(PosetProduct { poset, left_projection, right_projection })
    }
}

} // verus!
