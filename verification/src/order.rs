//! Relations on `{0, ..., n - 1}` given by Boolean matrices: `m[i][j]`
//! means `i <= j`.  These spec functions state what a finite partial order
//! is, how the constructors of posets validate one, and the reflexive and
//! transitive closure that generates one from edges.

use crate::edges::Edge;
use vstd::prelude::*;

verus! {

/// `m` has `n` rows of `n` entries each.
pub open spec fn is_square(m: Seq<Seq<bool>>, n: nat) -> bool {
    m.len() == n && forall|i: int| 0 <= i < n ==> (#[trigger] m[i]).len() == n
}

/// `i <= i` for every element.
pub open spec fn is_reflexive(m: Seq<Seq<bool>>, n: nat) -> bool {
    forall|i: int| 0 <= i < n ==> #[trigger] m[i][i]
}

/// `i <= j` and `j <= i` only when `i == j`.
pub open spec fn is_antisymmetric(m: Seq<Seq<bool>>, n: nat) -> bool {
    forall|i: int, j: int| 0 <= i < n && 0 <= j < n && #[trigger] m[i][j] && #[trigger] m[j][i] ==> i == j
}

/// `i <= j <= k` implies `i <= k`.
pub open spec fn is_transitive(m: Seq<Seq<bool>>, n: nat) -> bool {
    forall|i: int, j: int, k: int|
        0 <= i < n && 0 <= j < n && 0 <= k < n && #[trigger] m[i][j] && #[trigger] m[j][k] ==> m[i][k]
}

/// `m` is a partial order on `{0, ..., n - 1}`.
pub open spec fn is_partial_order(m: Seq<Seq<bool>>, n: nat) -> bool {
    &&& is_square(m, n)
    &&& is_reflexive(m, n)
    &&& is_antisymmetric(m, n)
    &&& is_transitive(m, n)
}

/// Row `i` of `m` is closed under composition: `i <= j <= k` implies
/// `i <= k` for every `j` and `k`.
pub open spec fn row_closed(m: Seq<Seq<bool>>, n: nat, i: int) -> bool {
    forall|j: int, k: int| 0 <= j < n && 0 <= k < n && #[trigger] m[i][j] && #[trigger] m[j][k] ==> m[i][k]
}

/// Row `i` of `m` contains row `j` whenever `i <= j` and `j` comes before `upto`.
pub open spec fn row_closed_below(m: Seq<Seq<bool>>, n: nat, i: int, upto: int) -> bool {
    forall|j: int, k: int| 0 <= j < upto && 0 <= k < n && #[trigger] m[i][j] && #[trigger] m[j][k] ==> m[i][k]
}

/// The errors that the validation of a relation matrix reports.
#[derive(Debug, Clone, Copy, PartialEq, Eq, Structural)]
pub enum PosetError {
    /// The relation matrix has the wrong number of rows.
    RelationHeight {
        /// The number of rows required by the element list.
        expected: usize,
        /// The number of rows actually supplied.
        actual: usize,
    },
    /// A row of the relation matrix has the wrong number of columns.
    RelationWidth {
        /// The row whose width is invalid.
        row: usize,
        /// The number of columns required by the element list.
        expected: usize,
        /// The number of columns actually supplied.
        actual: usize,
    },
    /// The relation is not reflexive.
    MissingReflexiveEdge {
        /// The element `x` for which `x <= x` is absent.
        element: usize,
    },
    /// The relation has a nontrivial two-cycle.
    NotAntisymmetric {
        /// One element in a pair with both `left <= right` and `right <= left`.
        left: usize,
        /// The other element in the antisymmetry violation.
        right: usize,
    },
    /// The relation is not transitive.
    NotTransitive {
        /// The lower element in `lower <= middle <= upper`.
        lower: usize,
        /// The middle element in `lower <= middle <= upper`.
        middle: usize,
        /// The upper element that should be above `lower`.
        upper: usize,
    },
    /// An edge references an element outside the poset.
    EdgeOutOfBounds {
        /// The invalid edge.
        edge: Edge,
        /// The number of elements in the poset.
        len: usize,
    },
}

/// `e` is the error that the validation of `m` against `n` elements reports:
/// the checks run in the order height, widths (by row), reflexivity (by
/// element), antisymmetry (by pair `i < j` in lexicographic order) and
/// transitivity (by lower element, then middle, then upper), and the first
/// failing check is reported.
pub open spec fn relation_error(m: Seq<Seq<bool>>, n: nat, e: PosetError) -> bool {
    match e {
        PosetError::RelationHeight { expected, actual } => {
            &&& m.len() != n
            &&& expected == n
            &&& actual == m.len()
        },
        PosetError::RelationWidth { row, expected, actual } => {
            &&& m.len() == n
            &&& row < n
            &&& m[row as int].len() != n
            &&& expected == n
            &&& actual == m[row as int].len()
            &&& forall|r: int| 0 <= r < row ==> (#[trigger] m[r]).len() == n
        },
        PosetError::MissingReflexiveEdge { element } => {
            &&& is_square(m, n)
            &&& element < n
            &&& !m[element as int][element as int]
            &&& forall|i: int| 0 <= i < element ==> #[trigger] m[i][i]
        },
        PosetError::NotAntisymmetric { left, right } => {
            &&& is_square(m, n)
            &&& is_reflexive(m, n)
            &&& left < right < n
            &&& m[left as int][right as int]
            &&& m[right as int][left as int]
            &&& forall|i: int, j: int|
                0 <= i < j < n && (i < left || (i == left && j < right)) ==> !(#[trigger] m[i][j]
                    && #[trigger] m[j][i])
        },
        PosetError::NotTransitive { lower, middle, upper } => {
            &&& is_square(m, n)
            &&& is_reflexive(m, n)
            &&& is_antisymmetric(m, n)
            &&& lower < n
            &&& middle < n
            &&& upper < n
            &&& m[lower as int][middle as int]
            &&& m[middle as int][upper as int]
            &&& !m[lower as int][upper as int]
            &&& forall|l: int| 0 <= l < lower ==> #[trigger] row_closed(m, n, l)
            &&& row_closed_below(m, n, lower as int, middle as int)
            &&& forall|k: int|
                0 <= k < upper && #[trigger] m[middle as int][k] ==> m[lower as int][k]
        },
        PosetError::EdgeOutOfBounds { .. } => false,
    }
}

/// A matrix for which a check fails is not a partial order.
pub proof fn lemma_error_not_partial_order(m: Seq<Seq<bool>>, n: nat, e: PosetError)
    requires
        relation_error(m, n, e),
    ensures
        !is_partial_order(m, n),
{
}

/// One step of Warshall's algorithm: allow paths through `k`.
pub open spec fn closure_step(m: Seq<Seq<bool>>, k: int) -> Seq<Seq<bool>> {
    Seq::new(m.len(), |i: int| Seq::new(m[i].len(), |j: int| m[i][j] || (m[i][k] && m[k][j])))
}

/// Warshall's algorithm after the intermediate elements `0, ..., k - 1`.
pub open spec fn closure_upto(m: Seq<Seq<bool>>, k: nat) -> Seq<Seq<bool>>
    decreases k,
{
    if k == 0 {
        m
    } else {
        closure_step(closure_upto(m, (k - 1) as nat), k - 1)
    }
}

/// The relation holding the identities and the given edges.
pub open spec fn edge_matrix(edges: Seq<Edge>, n: nat) -> Seq<Seq<bool>> {
    Seq::new(
        n,
        |i: int|
            Seq::new(
                n,
                |j: int| i == j || exists|k: int| 0 <= k < edges.len() && (#[trigger] edges[k]).from == i && edges[k].to == j,
            ),
    )
}

/// The reflexive and transitive closure of `edges` on `n` elements.
pub open spec fn edge_closure(edges: Seq<Edge>, n: nat) -> Seq<Seq<bool>> {
    closure_upto(edge_matrix(edges, n), n)
}

/// `s` contains every entry of `m`.
pub open spec fn contains_matrix(s: Seq<Seq<bool>>, m: Seq<Seq<bool>>, n: nat) -> bool {
    forall|i: int, j: int| 0 <= i < n && 0 <= j < n && #[trigger] m[i][j] ==> s[i][j]
}

proof fn lemma_closure_square(m: Seq<Seq<bool>>, n: nat, k: nat)
    requires
        is_square(m, n),
    ensures
        is_square(closure_upto(m, k), n),
        contains_matrix(closure_upto(m, k), m, n),
    decreases k,
{
    if k > 0 {
        lemma_closure_square(m, n, (k - 1) as nat);
        let p = closure_upto(m, (k - 1) as nat);
        assert(is_square(closure_step(p, k - 1), n));
    }
}

/// After `k` steps, composition through any element below `k` stays inside
/// the relation.
proof fn lemma_closure_closed(m: Seq<Seq<bool>>, n: nat, k: nat)
    requires
        is_square(m, n),
        k <= n,
    ensures
        forall|i: int, c: int, j: int|
            0 <= i < n && 0 <= c < k && 0 <= j < n && #[trigger] closure_upto(m, k)[i][c]
                && #[trigger] closure_upto(m, k)[c][j] ==> closure_upto(m, k)[i][j],
    decreases k,
{
    if k > 0 {
        let kk = (k - 1) as nat;
        lemma_closure_closed(m, n, kk);
        lemma_closure_square(m, n, kk);
        let p = closure_upto(m, kk);
        let q = closure_upto(m, k);
        assert(q == closure_step(p, kk as int));
        assert forall|i: int, c: int, j: int|
            0 <= i < n && 0 <= c < k && 0 <= j < n && #[trigger] q[i][c] && #[trigger] q[c][j] implies q[i][j] by {
            let t = kk as int;
            assert(q[i][c] == (p[i][c] || (p[i][t] && p[t][c])));
            assert(q[c][j] == (p[c][j] || (p[c][t] && p[t][j])));
            assert(q[i][j] == (p[i][j] || (p[i][t] && p[t][j])));
            if c == t {
            } else {
                if p[i][c] && p[c][j] {
                } else if p[i][c] {
                    assert(p[i][t]);
                } else if p[c][j] {
                    assert(p[t][j]);
                } else {
                }
            }
        }
    }
}

/// Any transitive relation containing `m` contains every closure stage.
proof fn lemma_closure_least(m: Seq<Seq<bool>>, s: Seq<Seq<bool>>, n: nat, k: nat)
    requires
        is_square(m, n),
        is_square(s, n),
        k <= n,
        is_transitive(s, n),
        contains_matrix(s, m, n),
    ensures
        contains_matrix(s, closure_upto(m, k), n),
    decreases k,
{
    if k > 0 {
        lemma_closure_least(m, s, n, (k - 1) as nat);
        lemma_closure_square(m, n, (k - 1) as nat);
    }
}

/// The closure of `edges` is the least reflexive and transitive relation
/// containing every in-range edge.
pub proof fn lemma_edge_closure_least(edges: Seq<Edge>, n: nat)
    ensures
        is_square(edge_closure(edges, n), n),
        is_reflexive(edge_closure(edges, n), n),
        is_transitive(edge_closure(edges, n), n),
        forall|k: int|
            0 <= k < edges.len() && (#[trigger] edges[k]).from < n && edges[k].to < n
                ==> edge_closure(edges, n)[edges[k].from as int][edges[k].to as int],
        forall|s: Seq<Seq<bool>>|
            #[trigger] is_square(s, n) && is_reflexive(s, n) && is_transitive(s, n) && (forall|k: int|
                0 <= k < edges.len() && (#[trigger] edges[k]).from < n && edges[k].to < n
                    ==> s[edges[k].from as int][edges[k].to as int]) ==> contains_matrix(
                s,
                edge_closure(edges, n),
                n,
            ),
{
    let m = edge_matrix(edges, n);
    lemma_closure_square(m, n, n);
    lemma_closure_closed(m, n, n);
    let c = edge_closure(edges, n);
    assert forall|i: int| 0 <= i < n implies #[trigger] c[i][i] by {
        assert(m[i][i]);
    }
    assert forall|k: int|
        0 <= k < edges.len() && (#[trigger] edges[k]).from < n && edges[k].to < n implies c[edges[k].from as int][edges[k].to as int] by {
        assert(m[edges[k].from as int][edges[k].to as int]);
    }
    assert forall|s: Seq<Seq<bool>>|
        #[trigger] is_square(s, n) && is_reflexive(s, n) && is_transitive(s, n) && (forall|k: int|
            0 <= k < edges.len() && (#[trigger] edges[k]).from < n && edges[k].to < n
                ==> s[edges[k].from as int][edges[k].to as int]) implies contains_matrix(s, c, n) by {
        assert forall|i: int, j: int| 0 <= i < n && 0 <= j < n && #[trigger] m[i][j] implies s[i][j] by {
            if i != j {
                let k = choose|k: int|
                    0 <= k < edges.len() && (#[trigger] edges[k]).from == i && edges[k].to == j;
            }
        }
        lemma_closure_least(m, s, n, n);
    }
}

/// `c` is the greatest lower bound of `a` and `b`.
pub open spec fn is_meet(m: Seq<Seq<bool>>, n: nat, a: int, b: int, c: int) -> bool {
    &&& 0 <= c < n
    &&& m[c][a]
    &&& m[c][b]
    &&& forall|k: int| 0 <= k < n && #[trigger] m[k][a] && m[k][b] ==> m[k][c]
}

/// `c` is the least upper bound of `a` and `b`.
pub open spec fn is_join(m: Seq<Seq<bool>>, n: nat, a: int, b: int, c: int) -> bool {
    &&& 0 <= c < n
    &&& m[a][c]
    &&& m[b][c]
    &&& forall|k: int| 0 <= k < n && #[trigger] m[a][k] && m[b][k] ==> m[c][k]
}

/// `a` and `b` have a greatest lower bound.
pub open spec fn has_meet(m: Seq<Seq<bool>>, n: nat, a: int, b: int) -> bool {
    exists|c: int| is_meet(m, n, a, b, c)
}

/// `a` and `b` have a least upper bound.
pub open spec fn has_join(m: Seq<Seq<bool>>, n: nat, a: int, b: int) -> bool {
    exists|c: int| is_join(m, n, a, b, c)
}

/// `b` lies below every element.
pub open spec fn is_bottom(m: Seq<Seq<bool>>, n: nat, b: int) -> bool {
    0 <= b < n && forall|x: int| 0 <= x < n ==> #[trigger] m[b][x]
}

/// `t` lies above every element.
pub open spec fn is_top(m: Seq<Seq<bool>>, n: nat, t: int) -> bool {
    0 <= t < n && forall|x: int| 0 <= x < n ==> #[trigger] m[x][t]
}

/// Every pair of elements has a meet and a join, and there is an element.
pub open spec fn is_lattice_order(m: Seq<Seq<bool>>, n: nat) -> bool {
    &&& n > 0
    &&& forall|a: int, b: int| 0 <= a < n && 0 <= b < n ==> #[trigger] has_meet(m, n, a, b)
    &&& forall|a: int, b: int| 0 <= a < n && 0 <= b < n ==> #[trigger] has_join(m, n, a, b)
}

/// Meets, joins, bottoms and tops of a partial order are unique.
pub proof fn lemma_bounds_unique(m: Seq<Seq<bool>>, n: nat, a: int, b: int, c: int, d: int)
    requires
        is_partial_order(m, n),
        0 <= a < n,
        0 <= b < n,
    ensures
        is_meet(m, n, a, b, c) && is_meet(m, n, a, b, d) ==> c == d,
        is_join(m, n, a, b, c) && is_join(m, n, a, b, d) ==> c == d,
        is_bottom(m, n, c) && is_bottom(m, n, d) ==> c == d,
        is_top(m, n, c) && is_top(m, n, d) ==> c == d,
{
    if is_meet(m, n, a, b, c) && is_meet(m, n, a, b, d) {
        assert(m[c][d] && m[d][c]);
    }
    if is_join(m, n, a, b, c) && is_join(m, n, a, b, d) {
        assert(m[c][d] && m[d][c]);
    }
    if is_bottom(m, n, c) && is_bottom(m, n, d) {
        assert(m[c][d] && m[d][c]);
    }
    if is_top(m, n, c) && is_top(m, n, d) {
        assert(m[c][d] && m[d][c]);
    }
}

/// Meets and joins of a partial order are symmetric in their arguments and
/// idempotent.
pub proof fn lemma_bounds_symmetric(m: Seq<Seq<bool>>, n: nat, a: int, b: int, c: int)
    requires
        is_partial_order(m, n),
        0 <= a < n,
        0 <= b < n,
    ensures
        is_meet(m, n, a, b, c) == is_meet(m, n, b, a, c),
        is_join(m, n, a, b, c) == is_join(m, n, b, a, c),
        is_meet(m, n, a, a, a),
        is_join(m, n, a, a, a),
{
}

/// Row-major order of edges: by lower element, then by upper element.
pub open spec fn edge_lt(e: Edge, f: Edge) -> bool {
    e.from < f.from || (e.from == f.from && e.to < f.to)
}

/// The edges of `s` appear in strictly increasing row-major order.
pub open spec fn row_major(s: Seq<Edge>) -> bool {
    forall|k: int, l: int| 0 <= k < l < s.len() ==> edge_lt(#[trigger] s[k], #[trigger] s[l])
}

/// `y` covers `x`: `x < y` with nothing strictly between.
pub open spec fn is_cover(m: Seq<Seq<bool>>, n: nat, x: int, y: int) -> bool {
    &&& x != y
    &&& m[x][y]
    &&& forall|z: int| 0 <= z < n && #[trigger] m[x][z] && m[z][y] ==> z == x || z == y
}

/// No element lies strictly below `x`.
pub open spec fn is_minimal(m: Seq<Seq<bool>>, n: nat, x: int) -> bool {
    forall|y: int| 0 <= y < n && #[trigger] m[y][x] ==> y == x
}

/// No element lies strictly above `x`.
pub open spec fn is_maximal(m: Seq<Seq<bool>>, n: nat, x: int) -> bool {
    forall|y: int| 0 <= y < n && #[trigger] m[x][y] ==> y == x
}

/// In the thin category of the order `m`, the arrow `e` has the left lifting
/// property against `f`: every commutative square from `e` to `f` has a
/// diagonal filler, that is, `e.from <= f.from` and `e.to <= f.to` imply
/// `e.to <= f.from`.
pub open spec fn lifts(m: Seq<Seq<bool>>, e: Edge, f: Edge) -> bool {
    !m[e.from as int][f.from as int] || !m[e.to as int][f.to as int] || m[e.to as int][f.from as int]
}

/// The relations of `m` that lift against every non-identity arrow of `arrows`.
pub open spec fn left_lifting_class(m: Seq<Seq<bool>>, n: nat, arrows: Set<Edge>) -> Set<Edge> {
    Set::new(
        |e: Edge|
            e.from < n && e.to < n && m[e.from as int][e.to as int] && forall|f: Edge|
                #[trigger] arrows.contains(f) && f.from != f.to ==> lifts(m, e, f),
    )
}

/// The relations of `m` against which every non-identity arrow of `arrows` lifts.
pub open spec fn right_lifting_class(m: Seq<Seq<bool>>, n: nat, arrows: Set<Edge>) -> Set<Edge> {
    Set::new(
        |e: Edge|
            e.from < n && e.to < n && m[e.from as int][e.to as int] && forall|f: Edge|
                #[trigger] arrows.contains(f) && f.from != f.to ==> lifts(m, f, e),
    )
}

/// The edges `x -> y` for which `rows[x][y]` is set.
pub open spec fn edges_of(rows: Seq<Seq<bool>>, n: nat) -> Set<Edge> {
    Set::new(|e: Edge| e.from < n && e.to < n && rows[e.from as int][e.to as int])
}

/// The composites `x -> z` of an arrow `x -> y` of `second` followed by an
/// arrow `y -> z` of `first`.
pub open spec fn composite(first: Set<Edge>, second: Set<Edge>) -> Set<Edge> {
    Set::new(
        |e: Edge|
            exists|f: Edge, g: Edge|
                #[trigger] first.contains(f) && #[trigger] second.contains(g) && g.to == f.from
                    && e == (Edge { from: g.from, to: f.to }),
    )
}

/// Whether composable pairs in `class` always compose inside `class`.
pub open spec fn is_composition_closed(class: Set<Edge>) -> bool {
    composite(class, class).subset_of(class)
}

/// For every `x <= y <= z` of `m`, the three arrows `x -> y`, `y -> z`, and
/// `x -> z` are not exactly two in `class`.
pub open spec fn has_two_out_of_three(m: Seq<Seq<bool>>, n: nat, class: Set<Edge>) -> bool {
    forall|x: int, y: int, z: int|
        0 <= x < n && 0 <= y < n && 0 <= z < n && #[trigger] m[x][y] && #[trigger] m[y][z] ==> {
            let a = class.contains(Edge { from: x as usize, to: y as usize });
            let b = class.contains(Edge { from: y as usize, to: z as usize });
            let c = class.contains(Edge { from: x as usize, to: z as usize });
            !((a && b && !c) || (a && !b && c) || (!a && b && c))
        }
}

/// The elements between `x` and `y`, both included.
pub open spec fn interval(m: Seq<Seq<bool>>, n: nat, x: int, y: int) -> Set<int> {
    Set::new(|z: int| 0 <= z < n && m[x][z] && m[z][y])
}

proof fn lemma_interval_finite(m: Seq<Seq<bool>>, n: nat, x: int, y: int)
    ensures
        interval(m, n, x, y).finite(),
        interval(m, n, x, y).len() <= n,
{
    vstd::set_lib::lemma_int_range(0, n as int);
    vstd::set_lib::lemma_len_subset(interval(m, n, x, y), vstd::set_lib::set_int_range(0, n as int));
}

/// A map that preserves every cover relation of a finite order preserves
/// the whole order.
pub proof fn lemma_covers_generate(m: Seq<Seq<bool>>, n: nat, t: Seq<Seq<bool>>, k: nat, images: Seq<usize>, x: int, y: int)
    requires
        is_partial_order(m, n),
        is_partial_order(t, k),
        images.len() == n,
        forall|i: int| 0 <= i < n ==> #[trigger] images[i] < k,
        forall|a: int, b: int| 0 <= a < n && 0 <= b < n && #[trigger] is_cover(m, n, a, b) ==> t[images[a] as int][images[b] as int],
        0 <= x < n,
        0 <= y < n,
        m[x][y],
    ensures
        t[images[x] as int][images[y] as int],
    decreases interval(m, n, x, y).len(),
{
    if x == y {
        assert(t[images[x] as int][images[x] as int]);
    } else if is_cover(m, n, x, y) {
    } else {
        let z = choose|z: int| 0 <= z < n && #[trigger] m[x][z] && m[z][y] && !(z == x || z == y);
        lemma_interval_finite(m, n, x, y);
        let whole = interval(m, n, x, y);
        assert(interval(m, n, x, z).subset_of(whole.remove(y))) by {
            assert forall|w: int| interval(m, n, x, z).contains(w) implies whole.remove(y).contains(w) by {
                if w == y {
                    assert(m[y][z] && m[z][y]);
                }
            }
        }
        assert(interval(m, n, z, y).subset_of(whole.remove(x))) by {
            assert forall|w: int| interval(m, n, z, y).contains(w) implies whole.remove(x).contains(w) by {
                if w == x {
                    assert(m[x][z] && m[z][x]);
                }
            }
        }
        assert(whole.contains(y));
        assert(whole.contains(x));
        vstd::set_lib::lemma_len_subset(interval(m, n, x, z), whole.remove(y));
        vstd::set_lib::lemma_len_subset(interval(m, n, z, y), whole.remove(x));
        lemma_covers_generate(m, n, t, k, images, x, z);
        lemma_covers_generate(m, n, t, k, images, z, y);
        assert(t[images[x] as int][images[z] as int] && t[images[z] as int][images[y] as int]);
    }
}

} // verus!
