//! Finite partially ordered sets.
//!
//! A partial order is a relation `<=` that is reflexive (`x <= x`),
//! antisymmetric (`x <= y` and `y <= x` imply `x = y`), and transitive. A
//! [`Poset`] stores the whole relation and its transpose as dense Boolean
//! matrices: `relation[i][j]` means `i <= j`.  Elements are referred to by
//! their [`ElementId`], the position of their label in the label vector.
//!
//! In contracts a poset is modelled by `order()`, its matrix of bits, and
//! `labels()`, its element labels; `le(i, j)` reads the matrix.

use crate::bits::{
    count_true, lemma_count_true_full, lemma_count_true_single,
    difference_assign, intersection, is_rectangular, is_subset, matrix_of, max_bits, repeat_rows,
    subset_bits, transpose, union_assign, Bits,
};
pub use crate::edges::{Edge, EdgeSet, ElementId};
use crate::order::{lemma_error_not_partial_order, composite, has_two_out_of_three, is_composition_closed, edges_of, is_cover, is_minimal, is_maximal, left_lifting_class, lifts, right_lifting_class, edge_lt, has_join, has_meet, is_bottom, is_join, is_lattice_order, is_meet, is_top, lemma_bounds_symmetric, row_major, closure_step, closure_upto, edge_closure, edge_matrix, is_antisymmetric, is_partial_order, is_reflexive, is_square, is_transitive, relation_error, row_closed, row_closed_below};
pub use crate::order::PosetError;
pub use crate::constructions::{disjoint_union, product, PosetCoproduct, PosetProduct};
use crate::shared::{arc_clone, arc_ptr_eq};
use std::sync::Arc;
use vstd::prelude::*;

verus! {

/// A finite poset stored as dense upper- and lower-set matrices.
///
/// `relation[i][j]` is true if and only if `i <= j`.  Element labels are not
/// required to be unique.
#[derive(Debug)]
pub struct Poset<A> {
    elements: Vec<A>,
    relation: Arc<Vec<Bits>>,
    relation_transpose: Arc<Vec<Bits>>,
}

/// Checks that `relation` is a partial order on `len` elements.
///
/// The checks run in the order described by [`relation_error`], and the
/// first failure is reported.
pub fn validate_relation(len: usize, relation: &[Bits]) -> (r: Result<(), PosetError>)
    ensures
        match r {
            Ok(()) => is_partial_order(matrix_of(relation@), len as nat),
            Err(e) => relation_error(matrix_of(relation@), len as nat, e),
        },
{
    let ghost m = matrix_of(relation@);
    let ghost n = len as nat;
    if relation.len() != len {
        return Err(PosetError::RelationHeight { expected: len, actual: relation.len() });
    }
    let mut row: usize = 0;
    while row < len
        invariant
            relation@.len() == len,
            m == matrix_of(relation@),
            n == len as nat,
            row <= len,
            forall|r: int| 0 <= r < row ==> (#[trigger] m[r]).len() == n,
        decreases len - row,
    {
        assert(m[row as int] == relation@[row as int]@);
        if relation[row].len() != len {
            return Err(PosetError::RelationWidth { row, expected: len, actual: relation[row].len() });
        }
        row += 1;
    }
    assert(is_square(m, n));
    let mut i: usize = 0;
    while i < len
        invariant
            is_square(m, n),
            relation@.len() == len,
            m == matrix_of(relation@),
            n == len as nat,
            i <= len,
            forall|k: int| 0 <= k < i ==> #[trigger] m[k][k],
        decreases len - i,
    {
        assert(m[i as int] == relation@[i as int]@);
        if !relation[i].bit(i) {
            return Err(PosetError::MissingReflexiveEdge { element: i });
        }
        i += 1;
    }
    let mut i: usize = 0;
    while i < len
        invariant
            is_square(m, n),
            is_reflexive(m, n),
            relation@.len() == len,
            m == matrix_of(relation@),
            n == len as nat,
            i <= len,
            forall|a: int, b: int|
                0 <= a < b < n && a < i ==> !(#[trigger] m[a][b] && #[trigger] m[b][a]),
        decreases len - i,
    {
        let mut j: usize = i + 1;
        while j < len
            invariant
                is_square(m, n),
                is_reflexive(m, n),
                relation@.len() == len,
                m == matrix_of(relation@),
                n == len as nat,
            n == len as nat,
                i < len,
                i + 1 <= j <= len,
                forall|a: int, b: int|
                    0 <= a < b < n && (a < i || (a == i && b < j)) ==> !(#[trigger] m[a][b]
                        && #[trigger] m[b][a]),
            decreases len - j,
        {
            assert(m[i as int] == relation@[i as int]@);
            assert(m[j as int] == relation@[j as int]@);
            if relation[i].bit(j) && relation[j].bit(i) {
                return Err(PosetError::NotAntisymmetric { left: i, right: j });
            }
            j += 1;
        }
        i += 1;
    }
    assert(is_antisymmetric(m, n)) by {
        assert forall|a: int, b: int|
            0 <= a < n && 0 <= b < n && #[trigger] m[a][b] && #[trigger] m[b][a] implies a == b by {
            if a < b {
            } else if b < a {
            }
        }
    }
    let mut lower: usize = 0;
    while lower < len
        invariant
            is_square(m, n),
            is_reflexive(m, n),
            is_antisymmetric(m, n),
            relation@.len() == len,
            m == matrix_of(relation@),
            n == len as nat,
            lower <= len,
            forall|l: int| 0 <= l < lower ==> #[trigger] row_closed(m, n, l),
        decreases len - lower,
    {
        let mut middle: usize = 0;
        while middle < len
            invariant
                is_square(m, n),
                is_reflexive(m, n),
                is_antisymmetric(m, n),
                relation@.len() == len,
                m == matrix_of(relation@),
                n == len as nat,
            n == len as nat,
                lower < len,
                middle <= len,
                forall|l: int| 0 <= l < lower ==> #[trigger] row_closed(m, n, l),
                row_closed_below(m, n, lower as int, middle as int),
            decreases len - middle,
        {
            assert(m[lower as int] == relation@[lower as int]@);
            assert(m[middle as int] == relation@[middle as int]@);
            if relation[lower].bit(middle) {
                let mut upper: usize = 0;
                while upper < len
                    invariant
                        is_square(m, n),
                        is_reflexive(m, n),
                        is_antisymmetric(m, n),
                        forall|l: int| 0 <= l < lower ==> #[trigger] row_closed(m, n, l),
                        row_closed_below(m, n, lower as int, middle as int),
                        relation@.len() == len,
                        m == matrix_of(relation@),
                        n == len as nat,
                n == len as nat,
            n == len as nat,
                        lower < len,
                        middle < len,
                        upper <= len,
                        m[lower as int][middle as int],
                        forall|k: int|
                            0 <= k < upper && #[trigger] m[middle as int][k] ==> m[lower as int][k],
                    decreases len - upper,
                {
                    assert(m[lower as int] == relation@[lower as int]@);
                    assert(m[middle as int] == relation@[middle as int]@);
                    if relation[middle].bit(upper) && !relation[lower].bit(upper) {
                        return Err(PosetError::NotTransitive { lower, middle, upper });
                    }
                    upper += 1;
                }
            }
            middle += 1;
        }
        assert(row_closed(m, n, lower as int));
        lower += 1;
    }
    assert(is_transitive(m, n)) by {
        assert forall|a: int, b: int, c: int|
            0 <= a < n && 0 <= b < n && 0 <= c < n && #[trigger] m[a][b] && #[trigger] m[b][c] implies m[a][c] by {
            assert(row_closed(m, n, a));
        }
    }
    Ok(())
}

/// Runs Warshall's algorithm in place: afterwards `i <= j` whenever a chain
/// of relations leads from `i` to `j`.
pub fn transitive_closure(relation: &mut Vec<Bits>)
    requires
        is_square(matrix_of(old(relation)@), old(relation)@.len()),
    ensures
        matrix_of(final(relation)@) == closure_upto(
            matrix_of(old(relation)@),
            old(relation)@.len(),
        ),
        final(relation)@.len() == old(relation)@.len(),
{
    let ghost m0 = matrix_of(relation@);
    let n = relation.len();
    let mut middle: usize = 0;
    while middle < n
        invariant
            n == relation@.len(),
            is_square(m0, n as nat),
            middle <= n,
            matrix_of(relation@) == closure_upto(m0, middle as nat),
            is_square(matrix_of(relation@), n as nat),
        decreases n - middle,
    {
        let ghost p = matrix_of(relation@);
        let ghost q = closure_step(p, middle as int);
        assert(p[middle as int] == relation@[middle as int]@);
        let middle_upper = relation[middle].duplicate();
        let mut lower: usize = 0;
        while lower < n
            invariant
                n == relation@.len(),
                middle < n,
                lower <= n,
                is_square(p, n as nat),
                q == closure_step(p, middle as int),
                middle_upper@ == p[middle as int],
                forall|i: int| 0 <= i < lower ==> (#[trigger] relation@[i])@ == q[i],
                forall|i: int| lower <= i < n ==> (#[trigger] relation@[i])@ == p[i],
            decreases n - lower,
        {
            assert(relation@[lower as int]@ == p[lower as int]);
            if relation[lower].bit(middle) {
                relation[lower].or_assign(&middle_upper);
            }
            assert(relation@[lower as int]@ =~= q[lower as int]);
            lower += 1;
        }
        assert(matrix_of(relation@) =~= q);
        middle += 1;
    }
}

impl<A> Poset<A> {
    /// The order matrix: `order()[i][j]` holds exactly when `i <= j`.
    pub closed spec fn order(&self) -> Seq<Seq<bool>> {
        matrix_of((*self.relation)@)
    }

    /// The element labels, in `ElementId` order.
    pub closed spec fn labels(&self) -> Seq<A> {
        self.elements@
    }

    /// The number of elements.
    pub open spec fn card(&self) -> nat {
        self.labels().len()
    }

    /// `i <= j` in this poset.
    pub open spec fn le(&self, i: int, j: int) -> bool {
        self.order()[i][j]
    }

    /// The stored transpose agrees with the order.
    pub closed spec fn storage_wf(&self) -> bool {
        &&& self.card() <= max_bits()
        &&& (*self.relation)@.len() == self.card()
        &&& (*self.relation_transpose)@.len() == self.card()
        &&& forall|j: int|
            0 <= j < self.card() ==> (#[trigger] (*self.relation_transpose)@[j])@.len() == self.card()
        &&& forall|i: int, j: int|
            0 <= i < self.card() && 0 <= j < self.card() ==> #[trigger] (
            *self.relation_transpose)@[j]@[i] == self.order()[i][j]
    }

    /// A well-formed poset: its order is a partial order on its elements.
    pub open spec fn wf(&self) -> bool {
        &&& is_partial_order(self.order(), self.card())
        &&& self.card() <= max_bits()
        &&& self.storage_wf()
    }

    /// Constructs a poset from an already-computed order relation.
    ///
    /// The matrix must be square of size `elements.len()`, reflexive,
    /// antisymmetric, and transitive.  Entry `[i][j]` is interpreted as
    /// `i <= j`.
    pub fn from_relation(elements: Vec<A>, relation: Vec<Bits>) -> (r: Result<Self, PosetError>)
        ensures
            match r {
                Ok(p) => {
                    &&& p.wf()
                    &&& p.labels() == elements@
                    &&& p.order() == matrix_of(relation@)
                },
                Err(e) => relation_error(matrix_of(relation@), elements@.len(), e),
            },
    {
        let n = elements.len();
        match validate_relation(n, relation.as_slice()) {
            Err(e) => Err(e),
            Ok(()) => Ok(Self::from_validated(elements, relation)),
        }
    }

    /// Constructs a poset from an order relation known to be valid.
    pub(crate) fn from_validated(elements: Vec<A>, relation: Vec<Bits>) -> (r: Self)
        requires
            is_partial_order(matrix_of(relation@), elements@.len()),
        ensures
            r.wf(),
            r.labels() == elements@,
            r.order() == matrix_of(relation@),
    {
        let ghost m = matrix_of(relation@);
        if relation.len() > 0 {
            assert(m[0] == relation@[0]@);
            let _width = relation[0].len();
        }
        proof {
            assert(is_rectangular(relation@, elements@.len())) by {
                assert forall|i: int| 0 <= i < relation@.len() implies (#[trigger] relation@[i])@.len()
                    == elements@.len() by {
                    assert(m[i] == relation@[i]@);
                }
            }
        }
        let relation_transpose = transpose(relation.as_slice());
        proof {
            assert forall|i: int, j: int|
                0 <= i < elements@.len() && 0 <= j < elements@.len() implies #[trigger] relation_transpose@[j]@[i] == m[i][j] by {
                assert(m[i] == relation@[i]@);
            }
        }
        Poset { elements, relation: Arc::new(relation), relation_transpose: Arc::new(relation_transpose) }
    }

    /// Produces the smallest partial order containing the given edges.
    ///
    /// Identity edges are added and transitive consequences are computed
    /// with Warshall's algorithm.  Edges outside the element range are
    /// rejected first; a directed cycle among the generators is reported as
    /// [`PosetError::NotAntisymmetric`].
    pub fn from_edges(elements: Vec<A>, edges: Vec<Edge>) -> (r: Result<Self, PosetError>)
        requires
            elements@.len() <= max_bits(),
        ensures
            match r {
                Ok(p) => {
                    &&& forall|k: int|
                        0 <= k < edges@.len() ==> (#[trigger] edges@[k]).from < elements@.len()
                            && edges@[k].to < elements@.len()
                    &&& p.wf()
                    &&& p.labels() == elements@
                    &&& p.order() == edge_closure(edges@, elements@.len())
                },
                Err(PosetError::EdgeOutOfBounds { edge, len }) => {
                    &&& len == elements@.len()
                    &&& (edge.from >= len || edge.to >= len)
                    &&& exists|k: int| 0 <= k < edges@.len() && edges@[k] == edge && forall|l: int|
                        0 <= l < k ==> (#[trigger] edges@[l]).from < len && edges@[l].to < len
                },
                Err(e) => {
                    &&& forall|k: int|
                        0 <= k < edges@.len() ==> (#[trigger] edges@[k]).from < elements@.len()
                            && edges@[k].to < elements@.len()
                    &&& relation_error(edge_closure(edges@, elements@.len()), elements@.len(), e)
                },
            },
    {
        let n = elements.len();
        let mut relation = repeat_rows(false, n, n);
        let mut i: usize = 0;
        while i < n
            invariant
                n == elements@.len(),
                relation@.len() == n,
                i <= n,
                forall|r: int| 0 <= r < n ==> (#[trigger] relation@[r])@.len() == n,
                forall|r: int, c: int|
                    0 <= r < n && 0 <= c < n ==> #[trigger] relation@[r]@[c] == (r == c && r < i),
            decreases n - i,
        {
            relation[i].set(i, true);
            i += 1;
        }
        let mut k: usize = 0;
        while k < edges.len()
            invariant
                n == elements@.len(),
                relation@.len() == n,
                k <= edges@.len(),
                forall|r: int| 0 <= r < n ==> (#[trigger] relation@[r])@.len() == n,
                forall|l: int| 0 <= l < k ==> (#[trigger] edges@[l]).from < n && edges@[l].to < n,
                forall|r: int, c: int|
                    0 <= r < n && 0 <= c < n ==> #[trigger] relation@[r]@[c] == (r == c || exists|l: int|
                        0 <= l < k && (#[trigger] edges@[l]).from == r && edges@[l].to == c),
            decreases edges@.len() - k,
        {
            let edge = edges[k];
            if edge.from >= n || edge.to >= n {
                return Err(PosetError::EdgeOutOfBounds { edge, len: n });
            }
            let ghost before = relation@;
            relation[edge.from].set(edge.to, true);
            proof {
                assert forall|r: int, c: int| 0 <= r < n && 0 <= c < n implies #[trigger] relation@[r]@[c]
                    == (r == c || exists|l: int|
                    0 <= l < k + 1 && (#[trigger] edges@[l]).from == r && edges@[l].to == c) by {
                    if r == edge.from && c == edge.to {
                        assert(edges@[k as int].from == r && edges@[k as int].to == c);
                    } else {
                        assert(relation@[r]@[c] == before[r]@[c]);
                        if exists|l: int| 0 <= l < k + 1 && (#[trigger] edges@[l]).from == r && edges@[l].to == c {
                            let l = choose|l: int| 0 <= l < k + 1 && (#[trigger] edges@[l]).from == r && edges@[l].to == c;
                            assert(l < k);
                        }
                    }
                }
            }
            k += 1;
        }
        proof {
            assert(matrix_of(relation@) =~= edge_matrix(edges@, n as nat)) by {
                assert forall|r: int| 0 <= r < n implies #[trigger] matrix_of(relation@)[r] =~= edge_matrix(edges@, n as nat)[r] by {
                    assert(matrix_of(relation@)[r] == relation@[r]@);
                }
            }
        }
        transitive_closure(&mut relation);
        Self::from_relation(elements, relation)
    }

    /// Returns the number of elements.
    pub fn size(&self) -> (r: usize)
        ensures
            r == self.card(),
    {
        self.elements.len()
    }

    /// Returns whether the poset has no elements.
    pub fn is_empty(&self) -> (r: bool)
        ensures
            r == (self.card() == 0),
    {
        self.elements.len() == 0
    }

    /// Returns all element labels in `ElementId` order.
    pub fn elements(&self) -> (r: &[A])
        ensures
            r@ == self.labels(),
    {
        self.elements.as_slice()
    }

    /// Returns the label of an element by id.
    pub fn element(&self, id: ElementId) -> (r: Option<&A>)
        ensures
            r == (if id < self.card() {
                Some(&self.labels()[id as int])
            } else {
                None
            }),
    {
        if id < self.elements.len() {
            Some(&self.elements[id])
        } else {
            None
        }
    }

    /// Returns the dense order matrix: row `i` is the principal upper set of `i`.
    pub fn relation_matrix(&self) -> (r: &[Bits])
        ensures
            matrix_of(r@) == self.order(),
    {
        self.relation.as_slice()
    }

    /// Returns the transposed order matrix: row `j` is the principal lower set of `j`.
    pub fn relation_matrix_transpose(&self) -> (r: &[Bits])
        requires
            self.wf(),
        ensures
            r@.len() == self.card(),
            forall|i: int, j: int|
                0 <= i < self.card() && 0 <= j < self.card() ==> #[trigger] r@[j]@[i] == self.le(i, j),
            forall|j: int| 0 <= j < self.card() ==> (#[trigger] r@[j])@.len() == self.card(),
    {
        self.relation_transpose.as_slice()
    }

    /// Tests the order relation `left <= right`.
    pub fn leq(&self, left: ElementId, right: ElementId) -> (r: bool)
        requires
            self.wf(),
            left < self.card(),
            right < self.card(),
        ensures
            r == self.le(left as int, right as int),
    {
        assert(self.order()[left as int] == self.relation@[left as int]@);
        self.relation[left].bit(right)
    }
}

impl<A> Poset<A> {
    /// Returns a bottom element, if one exists: an element below every element.
    pub fn bottom(&self) -> (r: Option<ElementId>)
        requires
            self.wf(),
        ensures
            match r {
                Some(b) => is_bottom(self.order(), self.card(), b as int),
                None => forall|b: int| !is_bottom(self.order(), self.card(), b),
            },
    {
        let n = self.elements.len();
        let mut i: usize = 0;
        while i < n
            invariant
                self.wf(),
                n == self.card(),
                i <= n,
                forall|b: int| 0 <= b < i ==> !is_bottom(self.order(), self.card(), b),
            decreases n - i,
        {
            assert(self.order()[i as int] == self.relation@[i as int]@);
            proof {
                lemma_count_true_full(self.order()[i as int]);
            }
            if self.relation[i].count_ones() == n {
                return Some(i);
            }
            i += 1;
        }
        None
    }

    /// Returns a top element, if one exists: an element above every element.
    pub fn top(&self) -> (r: Option<ElementId>)
        requires
            self.wf(),
        ensures
            match r {
                Some(t) => is_top(self.order(), self.card(), t as int),
                None => forall|t: int| !is_top(self.order(), self.card(), t),
            },
    {
        let n = self.elements.len();
        let mut i: usize = 0;
        while i < n
            invariant
                self.wf(),
                n == self.card(),
                i <= n,
                forall|t: int| 0 <= t < i ==> !is_top(self.order(), self.card(), t),
            decreases n - i,
        {
            let column = &self.relation_transpose[i];
            proof {
                lemma_count_true_full(column@);
                if count_true(column@) == n {
                    assert forall|x: int| 0 <= x < n implies #[trigger] self.order()[x][i as int] by {
                        assert(column@[x]);
                    }
                }
                if is_top(self.order(), self.card(), i as int) {
                    assert forall|x: int| 0 <= x < n implies #[trigger] column@[x] by {
                        assert(self.order()[x][i as int]);
                    }
                }
            }
            if column.count_ones() == n {
                return Some(i);
            }
            i += 1;
        }
        None
    }

    /// Returns the greatest lower bound (meet) of two elements, if it exists.
    ///
    /// Returns `None` when either id is out of bounds or the two elements
    /// have no meet.  The lower sets of the two elements are intersected and
    /// the first member lying above the whole intersection is returned.
    pub fn meet(&self, left: ElementId, right: ElementId) -> (r: Option<ElementId>)
        requires
            self.wf(),
        ensures
            match r {
                Some(c) => left < self.card() && right < self.card() && is_meet(
                    self.order(),
                    self.card(),
                    left as int,
                    right as int,
                    c as int,
                ),
                None => left >= self.card() || right >= self.card() || !has_meet(
                    self.order(),
                    self.card(),
                    left as int,
                    right as int,
                ),
            },
    {
        let n = self.elements.len();
        if left >= n || right >= n {
            return None;
        }
        let ghost m = self.order();
        let t = self.relation_transpose.as_slice();
        let lower_bounds = intersection(&t[left], &t[right]);
        let candidates = lower_bounds.ones();
        let mut k: usize = 0;
        while k < candidates.len()
            invariant
                self.wf(),
                m == self.order(),
                n == self.card(),
                left < n,
                right < n,
                t@ == (*self.relation_transpose)@,
                lower_bounds@.len() == n,
                forall|x: int| 0 <= x < n ==> #[trigger] lower_bounds@[x] == (m[x][left as int] && m[x][right as int]),
                forall|q: int| 0 <= q < candidates@.len() ==> #[trigger] candidates@[q] < n && lower_bounds@[candidates@[q] as int],
                forall|x: int| 0 <= x < n && #[trigger] lower_bounds@[x] ==> candidates@.contains(x as usize),
                k <= candidates@.len(),
                forall|q: int| 0 <= q < k ==> !is_meet(m, n as nat, left as int, right as int, #[trigger] candidates@[q] as int),
            decreases candidates@.len() - k,
        {
            let c = candidates[k];
            let ok = is_subset(&lower_bounds, &t[c]);
            proof {
                assert(t@[c as int]@.len() == n);
                if ok {
                    assert forall|x: int| 0 <= x < n && #[trigger] m[x][left as int] && m[x][right as int] implies m[x][c as int] by {
                        assert(lower_bounds@[x]);
                        assert(t@[c as int]@[x]);
                    }
                }
                if is_meet(m, n as nat, left as int, right as int, c as int) {
                    assert forall|x: int| 0 <= x < lower_bounds@.len() && #[trigger] lower_bounds@[x] implies t@[c as int]@[x] by {
                        assert(m[x][left as int] && m[x][right as int]);
                    }
                }
            }
            if ok {
                return Some(c);
            }
            k += 1;
        }
        proof {
            if has_meet(m, n as nat, left as int, right as int) {
                let c = choose|c: int| is_meet(m, n as nat, left as int, right as int, c);
                assert(lower_bounds@[c]);
                let q = choose|q: int| 0 <= q < candidates@.len() && candidates@[q] == c as usize;
                assert(!is_meet(m, n as nat, left as int, right as int, candidates@[q] as int));
            }
        }
        None
    }

    /// Returns the least upper bound (join) of two elements, if it exists.
    ///
    /// Returns `None` when either id is out of bounds or the two elements
    /// have no join.  The upper sets of the two elements are intersected and
    /// the first member lying below the whole intersection is returned.
    pub fn join(&self, left: ElementId, right: ElementId) -> (r: Option<ElementId>)
        requires
            self.wf(),
        ensures
            match r {
                Some(c) => left < self.card() && right < self.card() && is_join(
                    self.order(),
                    self.card(),
                    left as int,
                    right as int,
                    c as int,
                ),
                None => left >= self.card() || right >= self.card() || !has_join(
                    self.order(),
                    self.card(),
                    left as int,
                    right as int,
                ),
            },
    {
        let n = self.elements.len();
        if left >= n || right >= n {
            return None;
        }
        let ghost m = self.order();
        let u = self.relation.as_slice();
        assert(m[left as int] == u@[left as int]@);
        assert(m[right as int] == u@[right as int]@);
        let upper_bounds = intersection(&u[left], &u[right]);
        let candidates = upper_bounds.ones();
        let mut k: usize = 0;
        while k < candidates.len()
            invariant
                self.wf(),
                m == self.order(),
                n == self.card(),
                left < n,
                right < n,
                u@ == (*self.relation)@,
                upper_bounds@.len() == n,
                forall|x: int| 0 <= x < n ==> #[trigger] upper_bounds@[x] == (m[left as int][x] && m[right as int][x]),
                forall|q: int| 0 <= q < candidates@.len() ==> #[trigger] candidates@[q] < n && upper_bounds@[candidates@[q] as int],
                forall|x: int| 0 <= x < n && #[trigger] upper_bounds@[x] ==> candidates@.contains(x as usize),
                k <= candidates@.len(),
                forall|q: int| 0 <= q < k ==> !is_join(m, n as nat, left as int, right as int, #[trigger] candidates@[q] as int),
            decreases candidates@.len() - k,
        {
            let c = candidates[k];
            assert(m[c as int] == u@[c as int]@);
            let ok = is_subset(&upper_bounds, &u[c]);
            proof {
                if ok {
                    assert forall|x: int| 0 <= x < n && #[trigger] m[left as int][x] && m[right as int][x] implies m[c as int][x] by {
                        assert(upper_bounds@[x]);
                    }
                }
                if is_join(m, n as nat, left as int, right as int, c as int) {
                    assert forall|x: int| 0 <= x < upper_bounds@.len() && #[trigger] upper_bounds@[x] implies u@[c as int]@[x] by {
                        assert(m[left as int][x] && m[right as int][x]);
                    }
                }
            }
            if ok {
                return Some(c);
            }
            k += 1;
        }
        proof {
            if has_join(m, n as nat, left as int, right as int) {
                let c = choose|c: int| is_join(m, n as nat, left as int, right as int, c);
                assert(upper_bounds@[c]);
                let q = choose|q: int| 0 <= q < candidates@.len() && candidates@[q] == c as usize;
                assert(!is_join(m, n as nat, left as int, right as int, candidates@[q] as int));
            }
        }
        None
    }

    /// Returns whether the poset is nonempty and every pair of elements has
    /// both a meet and a join.
    pub fn is_lattice(&self) -> (r: bool)
        requires
            self.wf(),
        ensures
            r == is_lattice_order(self.order(), self.card()),
    {
        let n = self.elements.len();
        if n == 0 {
            return false;
        }
        let ghost m = self.order();
        let mut i: usize = 0;
        while i < n
            invariant
                self.wf(),
                m == self.order(),
                n == self.card(),
                n > 0,
                i <= n,
                forall|a: int, b: int|
                    0 <= a < i && a < b < n ==> #[trigger] has_meet(m, n as nat, a, b) && has_join(m, n as nat, a, b),
            decreases n - i,
        {
            let mut j: usize = i + 1;
            while j < n
                invariant
                    self.wf(),
                    m == self.order(),
                    n == self.card(),
                    i < n,
                    i + 1 <= j <= n,
                    forall|a: int, b: int|
                        ((0 <= a < i && a < b < n) || (a == i && i < b < j)) ==> #[trigger] has_meet(m, n as nat, a, b) && has_join(m, n as nat, a, b),
                decreases n - j,
            {
                let meet = self.meet(i, j);
                let join = self.join(i, j);
                if meet.is_none() || join.is_none() {
                    return false;
                }
                proof {
                    assert(is_meet(m, n as nat, i as int, j as int, meet.unwrap() as int));
                    assert(is_join(m, n as nat, i as int, j as int, join.unwrap() as int));
                }
                j += 1;
            }
            i += 1;
        }
        proof {
            assert forall|a: int, b: int| 0 <= a < n && 0 <= b < n implies #[trigger] has_meet(m, n as nat, a, b) by {
                if a == b {
                    lemma_bounds_symmetric(m, n as nat, a, b, a);
                } else if b < a {
                    assert(has_meet(m, n as nat, b, a));
                    let c = choose|c: int| is_meet(m, n as nat, b, a, c);
                    lemma_bounds_symmetric(m, n as nat, a, b, c);
                }
            }
            assert forall|a: int, b: int| 0 <= a < n && 0 <= b < n implies #[trigger] has_join(m, n as nat, a, b) by {
                if a == b {
                    lemma_bounds_symmetric(m, n as nat, a, b, a);
                } else if b < a {
                    assert(has_meet(m, n as nat, b, a));
                    assert(has_join(m, n as nat, b, a));
                    let c = choose|c: int| is_join(m, n as nat, b, a, c);
                    lemma_bounds_symmetric(m, n as nat, a, b, c);
                } else {
                    assert(has_meet(m, n as nat, a, b) && has_join(m, n as nat, a, b));
                }
            }
        }
        true
    }

    /// Returns whether every pair of elements is comparable.
    pub fn is_total_order(&self) -> (r: bool)
        requires
            self.wf(),
        ensures
            r == forall|a: int, b: int| 0 <= a < self.card() && 0 <= b < self.card() ==> #[trigger] self.le(a, b) || self.le(b, a),
    {
        let n = self.elements.len();
        let mut i: usize = 0;
        while i < n
            invariant
                self.wf(),
                n == self.card(),
                i <= n,
                forall|a: int, b: int| 0 <= a < i && a < b < n ==> #[trigger] self.le(a, b) || self.le(b, a),
            decreases n - i,
        {
            let mut j: usize = i + 1;
            while j < n
                invariant
                    self.wf(),
                    n == self.card(),
                    i < n,
                    i + 1 <= j <= n,
                    forall|a: int, b: int| ((0 <= a < i && a < b < n) || (a == i && i < b < j)) ==> #[trigger] self.le(a, b) || self.le(b, a),
                decreases n - j,
            {
                if !(self.leq(i, j) || self.leq(j, i)) {
                    return false;
                }
                j += 1;
            }
            i += 1;
        }
        assert forall|a: int, b: int| 0 <= a < n && 0 <= b < n implies #[trigger] self.le(a, b) || self.le(b, a) by {
            if b < a {
                assert(self.le(b, a) || self.le(a, b));
            }
        }
        true
    }
}

/// The edges `x -> y` with `rows[x][y]` set, for `x` and `y` below `n`.
fn edges_of_rows(rows: &Vec<Bits>, n: usize) -> (r: EdgeSet)
    requires
        rows@.len() == n,
        forall|i: int| 0 <= i < n ==> (#[trigger] rows@[i])@.len() == n,
    ensures
        r@ == edges_of(matrix_of(rows@), n as nat),
{
    let ghost m = matrix_of(rows@);
    let mut result = EdgeSet::new();
    let mut x: usize = 0;
    while x < n
        invariant
            rows@.len() == n,
            m == matrix_of(rows@),
            forall|i: int| 0 <= i < n ==> (#[trigger] rows@[i])@.len() == n,
            x <= n,
            forall|e: Edge| #[trigger] result@.contains(e) <==> (e.from < x && e.to < n && m[e.from as int][e.to as int]),
        decreases n - x,
    {
        assert(m[x as int] == rows@[x as int]@);
        let mut y: usize = 0;
        while y < n
            invariant
                rows@.len() == n,
                m == matrix_of(rows@),
                m[x as int] == rows@[x as int]@,
                rows@[x as int]@.len() == n,
                x < n,
                y <= n,
                forall|e: Edge| #[trigger] result@.contains(e) <==> ((e.from < x || (e.from == x && e.to < y)) && e.to < n && m[e.from as int][e.to as int]),
            decreases n - y,
        {
            if rows[x].bit(y) {
                result.insert(Edge::new(x, y));
            }
            y += 1;
        }
        x += 1;
    }
    assert(result@ =~= edges_of(m, n as nat));
    result
}

impl<A> Poset<A> {
    /// Lists all ordered pairs `x <= y`, including identities, in row-major
    /// order: by increasing lower element, then increasing upper element.
    pub fn all_relations_iter(&self) -> (r: Vec<Edge>)
        requires
            self.wf(),
        ensures
            row_major(r@),
            forall|k: int| 0 <= k < r@.len() ==> (#[trigger] r@[k]).from < self.card() && r@[k].to < self.card() && self.le(r@[k].from as int, r@[k].to as int),
            forall|e: Edge| e.from < self.card() && e.to < self.card() && self.le(e.from as int, e.to as int) ==> r@.contains(e),
    {
        self.relations_list(true)
    }

    /// Lists all non-identity ordered pairs `x < y`, in row-major order.
    pub fn proper_relations_iter(&self) -> (r: Vec<Edge>)
        requires
            self.wf(),
        ensures
            row_major(r@),
            forall|k: int| 0 <= k < r@.len() ==> (#[trigger] r@[k]).from < self.card() && r@[k].to < self.card() && r@[k].from != r@[k].to && self.le(r@[k].from as int, r@[k].to as int),
            forall|e: Edge| e.from < self.card() && e.to < self.card() && e.from != e.to && self.le(e.from as int, e.to as int) ==> r@.contains(e),
    {
        self.relations_list(false)
    }

    fn relations_list(&self, identities: bool) -> (r: Vec<Edge>)
        requires
            self.wf(),
        ensures
            row_major(r@),
            forall|k: int| 0 <= k < r@.len() ==> (#[trigger] r@[k]).from < self.card() && r@[k].to < self.card() && (identities || r@[k].from != r@[k].to) && self.le(r@[k].from as int, r@[k].to as int),
            forall|e: Edge| e.from < self.card() && e.to < self.card() && (identities || e.from != e.to) && self.le(e.from as int, e.to as int) ==> r@.contains(e),
    {
        let n = self.elements.len();
        let mut result: Vec<Edge> = Vec::new();
        let mut x: usize = 0;
        while x < n
            invariant
                self.wf(),
                n == self.card(),
                x <= n,
                row_major(result@),
                forall|k: int| 0 <= k < result@.len() ==> (#[trigger] result@[k]).from < x && result@[k].to < n && (identities || result@[k].from != result@[k].to) && self.le(result@[k].from as int, result@[k].to as int),
                forall|e: Edge| e.from < x && e.to < n && (identities || e.from != e.to) && self.le(e.from as int, e.to as int) ==> result@.contains(e),
            decreases n - x,
        {
            let mut y: usize = 0;
            while y < n
                invariant
                    self.wf(),
                    n == self.card(),
                    x < n,
                    y <= n,
                    row_major(result@),
                    forall|k: int| 0 <= k < result@.len() ==> ((#[trigger] result@[k]).from < x || (result@[k].from == x && result@[k].to < y)) && result@[k].to < n && (identities || result@[k].from != result@[k].to) && self.le(result@[k].from as int, result@[k].to as int),
                    forall|e: Edge| (e.from < x || (e.from == x && e.to < y)) && e.to < n && (identities || e.from != e.to) && self.le(e.from as int, e.to as int) ==> result@.contains(e),
                decreases n - y,
            {
                if (identities || x != y) && self.leq(x, y) {
                    let ghost before = result@;
                    result.push(Edge::new(x, y));
                    proof {
                        assert forall|e: Edge| (e.from < x || (e.from == x && e.to < y + 1)) && e.to < n && (identities || e.from != e.to) && self.le(e.from as int, e.to as int) implies result@.contains(e) by {
                            if e.from == x && e.to == y {
                                assert(result@[before.len() as int] == e);
                            } else {
                                assert(before.contains(e));
                                let k = choose|k: int| 0 <= k < before.len() && before[k] == e;
                                assert(result@[k] == e);
                            }
                        }
                    }
                }
                y += 1;
            }
            x += 1;
        }
        result
    }

    /// The cover relation as a matrix: row `x` marks the elements covering
    /// `x`.
    ///
    /// Each upper set is scanned once: an element still present when it is
    /// reached is a cover, and everything strictly above it is removed.
    pub(crate) fn cover_matrix(&self) -> (r: Vec<Bits>)
        requires
            self.wf(),
        ensures
            r@.len() == self.card(),
            forall|i: int| 0 <= i < self.card() ==> (#[trigger] r@[i])@.len() == self.card(),
            forall|i: int, j: int| 0 <= i < self.card() && 0 <= j < self.card() ==> #[trigger] r@[i]@[j] == is_cover(self.order(), self.card(), i, j),
    {
        let n = self.elements.len();
        let ghost m = self.order();
        let mut cover_rows: Vec<Bits> = Vec::new();
        let mut x: usize = 0;
        while x < n
            invariant
                self.wf(),
                m == self.order(),
                n == self.card(),
                x <= n,
                cover_rows@.len() == x,
                forall|i: int| 0 <= i < x ==> (#[trigger] cover_rows@[i])@.len() == n,
                forall|i: int, j: int| 0 <= i < x && 0 <= j < n ==> #[trigger] cover_rows@[i]@[j] == is_cover(m, n as nat, i, j),
            decreases n - x,
        {
            assert(m[x as int] == self.relation@[x as int]@);
            let upper_set = &self.relation[x];
            let mut covers = upper_set.duplicate();
            covers.set(x, false);
            let mut t: usize = 0;
            while t < n
                invariant
                    self.wf(),
                    m == self.order(),
                    n == self.card(),
                    x < n,
                    t <= n,
                    upper_set@ == m[x as int],
                    covers@.len() == n,
                    forall|y: int| 0 <= y < n ==> #[trigger] covers@[y] == (m[x as int][y] && y != x && !exists|z: int| 0 <= z < t && z != x && z != y && #[trigger] m[x as int][z] && m[z][y]),
                decreases n - t,
            {
                let ghost before = covers@;
                if t != x && upper_set.bit(t) && covers.bit(t) {
                    assert(m[t as int] == self.relation@[t as int]@);
                    difference_assign(&mut covers, &self.relation[t]);
                    covers.set(t, true);
                    proof {
                        assert forall|y: int| 0 <= y < n implies #[trigger] covers@[y] == (m[x as int][y] && y != x && !exists|z: int| 0 <= z < t + 1 && z != x && z != y && #[trigger] m[x as int][z] && m[z][y]) by {
                            if y == t {
                                assert(before[y]);
                            } else if m[t as int][y] {
                                assert(!covers@[y]);
                            } else {
                                assert(covers@[y] == before[y]);
                            }
                        }
                    }
                } else {
                    proof {
                        assert forall|y: int| 0 <= y < n implies #[trigger] covers@[y] == (m[x as int][y] && y != x && !exists|z: int| 0 <= z < t + 1 && z != x && z != y && #[trigger] m[x as int][z] && m[z][y]) by {
                            if t != x && m[x as int][t as int] && before[y] && t != y && m[t as int][y] {
                                assert(!before[t as int]);
                                let z0 = choose|z: int| 0 <= z < t && z != x && z != t && #[trigger] m[x as int][z] && m[z][t as int];
                                assert(m[z0][y]);
                                if z0 == y {
                                    assert(m[y][t as int] && m[t as int][y]);
                                }
                                assert(false);
                            }
                        }
                    }
                }
                t += 1;
            }
            proof {
                assert forall|j: int| 0 <= j < n implies #[trigger] covers@[j] == is_cover(m, n as nat, x as int, j) by {
                    if covers@[j] {
                        assert forall|z: int| 0 <= z < n && #[trigger] m[x as int][z] && m[z][j] implies z == x || z == j by {
                            if z != x && z != j {
                                assert(!covers@[j]);
                            }
                        }
                    }
                    if is_cover(m, n as nat, x as int, j) {
                        if exists|z: int| 0 <= z < n && z != x && z != j && #[trigger] m[x as int][z] && m[z][j] {
                            let z = choose|z: int| 0 <= z < n && z != x && z != j && #[trigger] m[x as int][z] && m[z][j];
                            assert(z == x || z == j);
                        }
                    }
                }
            }
            cover_rows.push(covers);
            x += 1;
        }
        cover_rows
    }

    /// Returns the cover relations of the Hasse diagram: the pairs `x < y`
    /// with no `z` satisfying `x < z < y`.
    pub fn cover_relations(&self) -> (r: EdgeSet)
        requires
            self.wf(),
        ensures
            r@ == Set::new(|e: Edge| e.from < self.card() && e.to < self.card() && is_cover(self.order(), self.card(), e.from as int, e.to as int)),
    {
        let n = self.elements.len();
        let ghost m = self.order();
        let cover_rows = self.cover_matrix();
        let r = edges_of_rows(&cover_rows, n);
        proof {
            assert forall|e: Edge| r@.contains(e) <==> (e.from < n && e.to < n && is_cover(m, n as nat, e.from as int, e.to as int)) by {
                if e.from < n && e.to < n {
                    assert(matrix_of(cover_rows@)[e.from as int] == cover_rows@[e.from as int]@);
                }
            }
            assert(r@ =~= Set::new(|e: Edge| e.from < self.card() && e.to < self.card() && is_cover(self.order(), self.card(), e.from as int, e.to as int)));
        }
        r
    }

    /// Returns all minimal elements, in increasing order.
    pub fn minimal_elements(&self) -> (r: Vec<ElementId>)
        requires
            self.wf(),
        ensures
            forall|k: int, l: int| 0 <= k < l < r@.len() ==> #[trigger] r@[k] < #[trigger] r@[l],
            forall|k: int| 0 <= k < r@.len() ==> #[trigger] r@[k] < self.card() && is_minimal(self.order(), self.card(), r@[k] as int),
            forall|x: int| 0 <= x < self.card() && is_minimal(self.order(), self.card(), x) ==> r@.contains(x as usize),
    {
        let n = self.elements.len();
        let mut result: Vec<ElementId> = Vec::new();
        let mut x: usize = 0;
        while x < n
            invariant
                self.wf(),
                n == self.card(),
                x <= n,
                forall|k: int, l: int| 0 <= k < l < result@.len() ==> #[trigger] result@[k] < #[trigger] result@[l],
                forall|k: int| 0 <= k < result@.len() ==> #[trigger] result@[k] < x && is_minimal(self.order(), self.card(), result@[k] as int),
                forall|y: int| 0 <= y < x && is_minimal(self.order(), self.card(), y) ==> result@.contains(y as usize),
            decreases n - x,
        {
            let lower_set = &self.relation_transpose[x];
            proof {
                assert(lower_set@[x as int] == self.order()[x as int][x as int]);
                lemma_count_true_single(lower_set@, x as int);
                assert(is_minimal(self.order(), self.card(), x as int) == forall|j: int| 0 <= j < lower_set@.len() && j != x ==> !#[trigger] lower_set@[j]) by {
                    if is_minimal(self.order(), self.card(), x as int) {
                        assert forall|j: int| 0 <= j < lower_set@.len() && j != x implies !#[trigger] lower_set@[j] by {
                            assert(lower_set@[j] == self.order()[j][x as int]);
                        }
                    }
                    if forall|j: int| 0 <= j < lower_set@.len() && j != x ==> !#[trigger] lower_set@[j] {
                        assert forall|y: int| 0 <= y < n && #[trigger] self.order()[y][x as int] implies y == x by {
                            assert(lower_set@[y] == self.order()[y][x as int]);
                        }
                    }
                }
            }
            if lower_set.count_ones() == 1 {
                let ghost before = result@;
                result.push(x);
                proof {
                    assert forall|y: int| 0 <= y < x + 1 && is_minimal(self.order(), self.card(), y) implies result@.contains(y as usize) by {
                        if y == x {
                            assert(result@[before.len() as int] == x);
                        } else {
                            let k = choose|k: int| 0 <= k < before.len() && before[k] == y as usize;
                            assert(result@[k] == y as usize);
                        }
                    }
                }
            } else {
                assert forall|y: int| 0 <= y < x + 1 && is_minimal(self.order(), self.card(), y) implies result@.contains(y as usize) by {
                    if y == x {
                    }
                }
            }
            x += 1;
        }
        result
    }

    /// Returns all maximal elements, in increasing order.
    pub fn maximal_elements(&self) -> (r: Vec<ElementId>)
        requires
            self.wf(),
        ensures
            forall|k: int, l: int| 0 <= k < l < r@.len() ==> #[trigger] r@[k] < #[trigger] r@[l],
            forall|k: int| 0 <= k < r@.len() ==> #[trigger] r@[k] < self.card() && is_maximal(self.order(), self.card(), r@[k] as int),
            forall|x: int| 0 <= x < self.card() && is_maximal(self.order(), self.card(), x) ==> r@.contains(x as usize),
    {
        let n = self.elements.len();
        let mut result: Vec<ElementId> = Vec::new();
        let mut x: usize = 0;
        while x < n
            invariant
                self.wf(),
                n == self.card(),
                x <= n,
                forall|k: int, l: int| 0 <= k < l < result@.len() ==> #[trigger] result@[k] < #[trigger] result@[l],
                forall|k: int| 0 <= k < result@.len() ==> #[trigger] result@[k] < x && is_maximal(self.order(), self.card(), result@[k] as int),
                forall|y: int| 0 <= y < x && is_maximal(self.order(), self.card(), y) ==> result@.contains(y as usize),
            decreases n - x,
        {
            let upper_set = &self.relation[x];
            proof {
                assert(upper_set@ == self.order()[x as int]);
                lemma_count_true_single(upper_set@, x as int);
            }
            if upper_set.count_ones() == 1 {
                let ghost before = result@;
                result.push(x);
                proof {
                    assert forall|y: int| 0 <= y < x + 1 && is_maximal(self.order(), self.card(), y) implies result@.contains(y as usize) by {
                        if y == x {
                            assert(result@[before.len() as int] == x);
                        } else {
                            let k = choose|k: int| 0 <= k < before.len() && before[k] == y as usize;
                            assert(result@[k] == y as usize);
                        }
                    }
                }
            }
            x += 1;
        }
        result
    }
}

/// Every non-identity arrow of `arrows` has endpoints below `n`.
pub open spec fn arrows_in_range(arrows: Set<Edge>, n: nat) -> bool {
    forall|f: Edge| #[trigger] arrows.contains(f) && f.from != f.to ==> f.from < n && f.to < n
}

impl<A> Poset<A> {
    /// Computes the left lifting class of a set of arrows.
    ///
    /// Regard the poset as a category with one arrow `x -> y` exactly when
    /// `x <= y`.  An arrow is in the left lifting class when every
    /// commutative square against an arrow of `arrows` has a diagonal
    /// filler; identity arrows impose no condition.
    pub fn llc(&self, arrows: &EdgeSet) -> (r: EdgeSet)
        requires
            self.wf(),
            arrows_in_range(arrows@, self.card()),
        ensures
            r@ == left_lifting_class(self.order(), self.card(), arrows@),
    {
        let n = self.elements.len();
        let ghost m = self.order();
        let t = self.relation_transpose.as_slice();
        let list = arrows.as_slice();
        let mut excluded = repeat_rows(false, n, n);
        let mut k: usize = 0;
        while k < list.len()
            invariant
                self.wf(),
                m == self.order(),
                n == self.card(),
                t@ == (*self.relation_transpose)@,
                list@.to_set() == arrows@,
                arrows_in_range(arrows@, n as nat),
                k <= list@.len(),
                excluded@.len() == n,
                forall|i: int| 0 <= i < n ==> (#[trigger] excluded@[i])@.len() == n,
                forall|x: int, y: int| 0 <= x < n && 0 <= y < n ==> #[trigger] excluded@[x]@[y] == exists|l: int|
                    0 <= l < k && (#[trigger] list@[l]).from != list@[l].to && !lifts(m, Edge { from: x as usize, to: y as usize }, list@[l]),
            decreases list@.len() - k,
        {
            let f = list[k];
            let ghost before = excluded@;
            proof {
                assert(arrows@.contains(f));
            }
            if !f.is_identity() {
                let mut possible_tos = t[f.to].duplicate();
                difference_assign(&mut possible_tos, &t[f.from]);
                let mut x: usize = 0;
                while x < n
                    invariant
                        self.wf(),
                        m == self.order(),
                        n == self.card(),
                        t@ == (*self.relation_transpose)@,
                        f.from < n,
                        f.to < n,
                        x <= n,
                        possible_tos@.len() == n,
                        forall|y: int| 0 <= y < n ==> #[trigger] possible_tos@[y] == (m[y][f.to as int] && !m[y][f.from as int]),
                        excluded@.len() == n,
                        forall|i: int| 0 <= i < n ==> (#[trigger] excluded@[i])@.len() == n,
                        forall|a: int, y: int| 0 <= a < x && 0 <= y < n ==> #[trigger] excluded@[a]@[y] == (before[a]@[y] || (m[a][f.from as int] && possible_tos@[y])),
                        forall|a: int, y: int| x <= a < n && 0 <= y < n ==> #[trigger] excluded@[a]@[y] == before[a]@[y],
                    decreases n - x,
                {
                    if t[f.from].bit(x) {
                        excluded[x].or_assign(&possible_tos);
                    }
                    x += 1;
                }
                proof {
                    assert forall|x: int, y: int| 0 <= x < n && 0 <= y < n implies #[trigger] excluded@[x]@[y] == exists|l: int|
                        0 <= l < k + 1 && (#[trigger] list@[l]).from != list@[l].to && !lifts(m, Edge { from: x as usize, to: y as usize }, list@[l]) by {
                        if before[x]@[y] {
                            let l = choose|l: int| 0 <= l < k && (#[trigger] list@[l]).from != list@[l].to && !lifts(m, Edge { from: x as usize, to: y as usize }, list@[l]);
                            assert(0 <= l < k + 1);
                        }
                        if !lifts(m, Edge { from: x as usize, to: y as usize }, f) {
                            assert(list@[k as int] == f);
                        }
                        if exists|l: int| 0 <= l < k + 1 && (#[trigger] list@[l]).from != list@[l].to && !lifts(m, Edge { from: x as usize, to: y as usize }, list@[l]) {
                            let l = choose|l: int| 0 <= l < k + 1 && (#[trigger] list@[l]).from != list@[l].to && !lifts(m, Edge { from: x as usize, to: y as usize }, list@[l]);
                            if l < k {
                                assert(before[x]@[y]);
                            }
                        }
                    }
                }
            } else {
                proof {
                    assert forall|x: int, y: int| 0 <= x < n && 0 <= y < n implies #[trigger] excluded@[x]@[y] == exists|l: int|
                        0 <= l < k + 1 && (#[trigger] list@[l]).from != list@[l].to && !lifts(m, Edge { from: x as usize, to: y as usize }, list@[l]) by {
                        if exists|l: int| 0 <= l < k + 1 && (#[trigger] list@[l]).from != list@[l].to && !lifts(m, Edge { from: x as usize, to: y as usize }, list@[l]) {
                            let l = choose|l: int| 0 <= l < k + 1 && (#[trigger] list@[l]).from != list@[l].to && !lifts(m, Edge { from: x as usize, to: y as usize }, list@[l]);
                            assert(l < k);
                        }
                    }
                }
            }
            k += 1;
        }
        let included = self.remaining_rows(&excluded);
        let r = edges_of_rows(&included, n);
        proof {
            assert forall|e: Edge| r@.contains(e) <==> left_lifting_class(m, n as nat, arrows@).contains(e) by {
                if e.from < n && e.to < n {
                    assert(matrix_of(included@)[e.from as int] == included@[e.from as int]@);
                    if r@.contains(e) {
                        assert forall|f: Edge| #[trigger] arrows@.contains(f) && f.from != f.to implies lifts(m, e, f) by {
                            let l = choose|l: int| 0 <= l < list@.len() && list@[l] == f;
                            assert(list@[l].from != list@[l].to);
                        }
                    }
                    if left_lifting_class(m, n as nat, arrows@).contains(e) {
                        if excluded@[e.from as int]@[e.to as int] {
                            let l = choose|l: int| 0 <= l < list@.len() && (#[trigger] list@[l]).from != list@[l].to && !lifts(m, Edge { from: e.from, to: e.to }, list@[l]);
                            assert(arrows@.contains(list@[l]));
                            assert(e == Edge { from: e.from, to: e.to });
                        }
                    }
                }
            }
            assert(r@ =~= left_lifting_class(m, n as nat, arrows@));
        }
        r
    }

    /// Computes the right lifting class of a set of arrows: the relations
    /// against which every arrow of `arrows` has the lifting property.
    /// Identity arrows impose no condition.
    pub fn rlc(&self, arrows: &EdgeSet) -> (r: EdgeSet)
        requires
            self.wf(),
            arrows_in_range(arrows@, self.card()),
        ensures
            r@ == right_lifting_class(self.order(), self.card(), arrows@),
    {
        let n = self.elements.len();
        let ghost m = self.order();
        let u = self.relation.as_slice();
        let list = arrows.as_slice();
        let mut excluded = repeat_rows(false, n, n);
        let mut k: usize = 0;
        while k < list.len()
            invariant
                self.wf(),
                m == self.order(),
                n == self.card(),
                u@ == (*self.relation)@,
                list@.to_set() == arrows@,
                arrows_in_range(arrows@, n as nat),
                k <= list@.len(),
                excluded@.len() == n,
                forall|i: int| 0 <= i < n ==> (#[trigger] excluded@[i])@.len() == n,
                forall|x: int, y: int| 0 <= x < n && 0 <= y < n ==> #[trigger] excluded@[x]@[y] == exists|l: int|
                    0 <= l < k && (#[trigger] list@[l]).from != list@[l].to && !lifts(m, list@[l], Edge { from: x as usize, to: y as usize }),
            decreases list@.len() - k,
        {
            let f = list[k];
            let ghost before = excluded@;
            proof {
                assert(arrows@.contains(f));
            }
            if !f.is_identity() {
                assert(m[f.from as int] == u@[f.from as int]@);
                assert(m[f.to as int] == u@[f.to as int]@);
                let mut possible_froms = u[f.from].duplicate();
                difference_assign(&mut possible_froms, &u[f.to]);
                let mut x: usize = 0;
                while x < n
                    invariant
                        self.wf(),
                        m == self.order(),
                        n == self.card(),
                        u@ == (*self.relation)@,
                        m[f.to as int] == u@[f.to as int]@,
                        f.from < n,
                        f.to < n,
                        x <= n,
                        possible_froms@.len() == n,
                        forall|a: int| 0 <= a < n ==> #[trigger] possible_froms@[a] == (m[f.from as int][a] && !m[f.to as int][a]),
                        excluded@.len() == n,
                        forall|i: int| 0 <= i < n ==> (#[trigger] excluded@[i])@.len() == n,
                        forall|a: int, y: int| 0 <= a < x && 0 <= y < n ==> #[trigger] excluded@[a]@[y] == (before[a]@[y] || (possible_froms@[a] && m[f.to as int][y])),
                        forall|a: int, y: int| x <= a < n && 0 <= y < n ==> #[trigger] excluded@[a]@[y] == before[a]@[y],
                    decreases n - x,
                {
                    if possible_froms.bit(x) {
                        excluded[x].or_assign(&u[f.to]);
                    }
                    x += 1;
                }
                proof {
                    assert forall|x: int, y: int| 0 <= x < n && 0 <= y < n implies #[trigger] excluded@[x]@[y] == exists|l: int|
                        0 <= l < k + 1 && (#[trigger] list@[l]).from != list@[l].to && !lifts(m, list@[l], Edge { from: x as usize, to: y as usize }) by {
                        if before[x]@[y] {
                            let l = choose|l: int| 0 <= l < k && (#[trigger] list@[l]).from != list@[l].to && !lifts(m, list@[l], Edge { from: x as usize, to: y as usize });
                            assert(0 <= l < k + 1);
                        }
                        if !lifts(m, f, Edge { from: x as usize, to: y as usize }) {
                            assert(list@[k as int] == f);
                        }
                        if exists|l: int| 0 <= l < k + 1 && (#[trigger] list@[l]).from != list@[l].to && !lifts(m, list@[l], Edge { from: x as usize, to: y as usize }) {
                            let l = choose|l: int| 0 <= l < k + 1 && (#[trigger] list@[l]).from != list@[l].to && !lifts(m, list@[l], Edge { from: x as usize, to: y as usize });
                            if l < k {
                                assert(before[x]@[y]);
                            }
                        }
                    }
                }
            } else {
                proof {
                    assert forall|x: int, y: int| 0 <= x < n && 0 <= y < n implies #[trigger] excluded@[x]@[y] == exists|l: int|
                        0 <= l < k + 1 && (#[trigger] list@[l]).from != list@[l].to && !lifts(m, list@[l], Edge { from: x as usize, to: y as usize }) by {
                        if exists|l: int| 0 <= l < k + 1 && (#[trigger] list@[l]).from != list@[l].to && !lifts(m, list@[l], Edge { from: x as usize, to: y as usize }) {
                            let l = choose|l: int| 0 <= l < k + 1 && (#[trigger] list@[l]).from != list@[l].to && !lifts(m, list@[l], Edge { from: x as usize, to: y as usize });
                            assert(l < k);
                        }
                    }
                }
            }
            k += 1;
        }
        let included = self.remaining_rows(&excluded);
        let r = edges_of_rows(&included, n);
        proof {
            assert forall|e: Edge| r@.contains(e) <==> right_lifting_class(m, n as nat, arrows@).contains(e) by {
                if e.from < n && e.to < n {
                    assert(matrix_of(included@)[e.from as int] == included@[e.from as int]@);
                    if r@.contains(e) {
                        assert forall|f: Edge| #[trigger] arrows@.contains(f) && f.from != f.to implies lifts(m, f, e) by {
                            let l = choose|l: int| 0 <= l < list@.len() && list@[l] == f;
                            assert(list@[l].from != list@[l].to);
                        }
                    }
                    if right_lifting_class(m, n as nat, arrows@).contains(e) {
                        if excluded@[e.from as int]@[e.to as int] {
                            let l = choose|l: int| 0 <= l < list@.len() && (#[trigger] list@[l]).from != list@[l].to && !lifts(m, list@[l], Edge { from: e.from, to: e.to });
                            assert(arrows@.contains(list@[l]));
                            assert(e == Edge { from: e.from, to: e.to });
                        }
                    }
                }
            }
            assert(r@ =~= right_lifting_class(m, n as nat, arrows@));
        }
        r
    }

    /// Row `x` of the result holds the upper set of `x` minus `excluded[x]`.
    fn remaining_rows(&self, excluded: &Vec<Bits>) -> (r: Vec<Bits>)
        requires
            self.wf(),
            excluded@.len() == self.card(),
            forall|i: int| 0 <= i < self.card() ==> (#[trigger] excluded@[i])@.len() == self.card(),
        ensures
            r@.len() == self.card(),
            forall|i: int| 0 <= i < self.card() ==> (#[trigger] r@[i])@.len() == self.card(),
            forall|x: int, y: int| 0 <= x < self.card() && 0 <= y < self.card() ==> #[trigger] r@[x]@[y] == (self.le(x, y) && !excluded@[x]@[y]),
    {
        let n = self.elements.len();
        let mut result: Vec<Bits> = Vec::new();
        let mut x: usize = 0;
        while x < n
            invariant
                self.wf(),
                n == self.card(),
                excluded@.len() == n,
                forall|i: int| 0 <= i < n ==> (#[trigger] excluded@[i])@.len() == n,
                x <= n,
                result@.len() == x,
                forall|i: int| 0 <= i < x ==> (#[trigger] result@[i])@.len() == n,
                forall|a: int, y: int| 0 <= a < x && 0 <= y < n ==> #[trigger] result@[a]@[y] == (self.le(a, y) && !excluded@[a]@[y]),
            decreases n - x,
        {
            assert(self.order()[x as int] == self.relation@[x as int]@);
            let mut included = self.relation[x].duplicate();
            difference_assign(&mut included, &excluded[x]);
            result.push(included);
            x += 1;
        }
        result
    }
}

/// Every edge of `class` is an in-range relation of the order `m`.
pub open spec fn relations_of(m: Seq<Seq<bool>>, n: nat, class: Set<Edge>) -> bool {
    forall|e: Edge| #[trigger] class.contains(e) ==> e.from < n && e.to < n && m[e.from as int][e.to as int]
}

impl<A> Poset<A> {
    /// Returns whether a class of relations has the 2-out-of-3 property:
    /// for every composable pair `x <= y <= z`, if two of `x <= y`, `y <= z`,
    /// and `x <= z` belong to `class`, then so does the third.  Returns
    /// `false` if `class` holds an edge that is not a relation of this poset.
    pub fn two_out_of_three(&self, class: &EdgeSet) -> (r: bool)
        requires
            self.wf(),
        ensures
            r == (relations_of(self.order(), self.card(), class@) && has_two_out_of_three(self.order(), self.card(), class@)),
    {
        let n = self.elements.len();
        let ghost m = self.order();
        let list = class.as_slice();
        let mut k: usize = 0;
        while k < list.len()
            invariant
                self.wf(),
                m == self.order(),
                n == self.card(),
                list@.to_set() == class@,
                k <= list@.len(),
                forall|l: int| 0 <= l < k ==> (#[trigger] list@[l]).from < n && list@[l].to < n && m[list@[l].from as int][list@[l].to as int],
            decreases list@.len() - k,
        {
            let e = list[k];
            if e.from >= n || e.to >= n || !self.leq(e.from, e.to) {
                proof {
                    assert(class@.contains(e));
                }
                return false;
            }
            k += 1;
        }
        proof {
            assert forall|e: Edge| #[trigger] class@.contains(e) implies e.from < n && e.to < n && m[e.from as int][e.to as int] by {
                let l = choose|l: int| 0 <= l < list@.len() && list@[l] == e;
            }
        }
        let mut y: usize = 0;
        while y < n
            invariant
                self.wf(),
                m == self.order(),
                n == self.card(),
                y <= n,
                forall|x: int, b: int, z: int|
                    0 <= x < n && 0 <= b < y && 0 <= z < n && #[trigger] m[x][b] && #[trigger] m[b][z] ==> {
                        let p = class@.contains(Edge { from: x as usize, to: b as usize });
                        let q = class@.contains(Edge { from: b as usize, to: z as usize });
                        let c = class@.contains(Edge { from: x as usize, to: z as usize });
                        !((p && q && !c) || (p && !q && c) || (!p && q && c))
                    },
            decreases n - y,
        {
            let mut x: usize = 0;
            while x < n
                invariant
                    self.wf(),
                    m == self.order(),
                    n == self.card(),
                    y < n,
                    x <= n,
                    forall|a: int, b: int, z: int|
                        0 <= a < n && 0 <= b < n && 0 <= z < n && (b < y || (b == y && a < x)) && #[trigger] m[a][b] && #[trigger] m[b][z] ==> {
                            let p = class@.contains(Edge { from: a as usize, to: b as usize });
                            let q = class@.contains(Edge { from: b as usize, to: z as usize });
                            let c = class@.contains(Edge { from: a as usize, to: z as usize });
                            !((p && q && !c) || (p && !q && c) || (!p && q && c))
                        },
                decreases n - x,
            {
                if self.leq(x, y) {
                    let first = class.contains(&Edge::new(x, y));
                    let mut z: usize = 0;
                    while z < n
                        invariant
                            self.wf(),
                            m == self.order(),
                            n == self.card(),
                            y < n,
                            x < n,
                            z <= n,
                            m[x as int][y as int],
                            first == class@.contains(Edge { from: x, to: y }),
                            forall|a: int, b: int, c: int|
                                0 <= a < n && 0 <= b < n && 0 <= c < n && ((b < y || (b == y && a < x)) || (b == y && a == x && c < z)) && #[trigger] m[a][b] && #[trigger] m[b][c] ==> {
                                    let p = class@.contains(Edge { from: a as usize, to: b as usize });
                                    let q = class@.contains(Edge { from: b as usize, to: c as usize });
                                    let d = class@.contains(Edge { from: a as usize, to: c as usize });
                                    !((p && q && !d) || (p && !q && d) || (!p && q && d))
                                },
                        decreases n - z,
                    {
                        if self.leq(y, z) {
                            let second = class.contains(&Edge::new(y, z));
                            let composite = class.contains(&Edge::new(x, z));
                            if (first && second && !composite) || (first && !second && composite) || (!first && second && composite) {
                                return false;
                            }
                        }
                        z += 1;
                    }
                }
                x += 1;
            }
            y += 1;
        }
        true
    }
}

/// Returns whether a class of relations in `poset` has the 2-out-of-3 property.
pub fn two_out_of_three<A>(poset: &Poset<A>, class: &EdgeSet) -> (r: bool)
    requires
        poset.wf(),
    ensures
        r == (relations_of(poset.order(), poset.card(), class@) && has_two_out_of_three(poset.order(), poset.card(), class@)),
{
    poset.two_out_of_three(class)
}

/// Computes the composites of arrows in `class2` followed by arrows in
/// `class1`: `x <= y` from `class2` and `y <= z` from `class1` contribute
/// `x <= z`.
pub fn compose(class1: &EdgeSet, class2: &EdgeSet) -> (r: EdgeSet)
    ensures
        r@ == composite(class1@, class2@),
{
    let first = class1.as_slice();
    let second = class2.as_slice();
    let mut result = EdgeSet::new();
    let mut i: usize = 0;
    while i < first.len()
        invariant
            first@.to_set() == class1@,
            second@.to_set() == class2@,
            i <= first@.len(),
            forall|e: Edge| #[trigger] result@.contains(e) <==> exists|a: int, b: int|
                0 <= a < i && 0 <= b < second@.len() && #[trigger] second@[b].to == #[trigger] first@[a].from && e == (Edge { from: second@[b].from, to: first@[a].to }),
        decreases first@.len() - i,
    {
        let f = first[i];
        let mut j: usize = 0;
        while j < second.len()
            invariant
                first@.to_set() == class1@,
                second@.to_set() == class2@,
                i < first@.len(),
                f == first@[i as int],
                j <= second@.len(),
                forall|e: Edge| #[trigger] result@.contains(e) <==> exists|a: int, b: int|
                    0 <= a <= i && 0 <= b < second@.len() && (a < i || b < j) && #[trigger] second@[b].to == #[trigger] first@[a].from && e == (Edge { from: second@[b].from, to: first@[a].to }),
            decreases second@.len() - j,
        {
            let g = second[j];
            if g.to == f.from {
                result.insert(Edge::new(g.from, f.to));
            }
            proof {
                assert forall|e: Edge| #[trigger] result@.contains(e) <==> exists|a: int, b: int|
                    0 <= a <= i && 0 <= b < second@.len() && (a < i || b < j + 1) && #[trigger] second@[b].to == #[trigger] first@[a].from && e == (Edge { from: second@[b].from, to: first@[a].to }) by {
                    if g.to == f.from && e == (Edge { from: g.from, to: f.to }) {
                        assert(second@[j as int].to == first@[i as int].from);
                    }
                }
            }
            j += 1;
        }
        i += 1;
    }
    proof {
        assert forall|e: Edge| result@.contains(e) <==> composite(class1@, class2@).contains(e) by {
            if result@.contains(e) {
                let (a, b) = choose|a: int, b: int|
                    0 <= a < first@.len() && 0 <= b < second@.len() && #[trigger] second@[b].to == #[trigger] first@[a].from && e == (Edge { from: second@[b].from, to: first@[a].to });
                assert(class1@.contains(first@[a]));
                assert(class2@.contains(second@[b]));
            }
            if composite(class1@, class2@).contains(e) {
                let (f, g) = choose|f: Edge, g: Edge|
                    #[trigger] class1@.contains(f) && #[trigger] class2@.contains(g) && g.to == f.from && e == (Edge { from: g.from, to: f.to });
                let a = choose|a: int| 0 <= a < first@.len() && first@[a] == f;
                let b = choose|b: int| 0 <= b < second@.len() && second@[b] == g;
                assert(second@[b].to == first@[a].from);
            }
        }
        assert(result@ =~= composite(class1@, class2@));
    }
    result
}

/// Returns whether a class of relations is closed under composition:
/// `x <= y` and `y <= z` in the class require `x <= z` in the class.
pub fn composition_closed(class: &EdgeSet) -> (r: bool)
    ensures
        r == is_composition_closed(class@),
{
    let composites = compose(class, class);
    composites.is_subset(class)
}

impl<A> Poset<A> {
    /// Constructs the poset whose order relation is given by `pred`:
    /// `pred(a, b)` is read as `a <= b`.  The whole relation is evaluated
    /// and then validated as by [`Poset::from_relation`].
    pub fn from_vec_by<F: Fn(&A, &A) -> bool>(elements: Vec<A>, pred: F) -> (r: Result<Self, PosetError>)
        requires
            elements@.len() <= max_bits(),
            forall|a: &A, b: &A| #[trigger] pred.requires((a, b)),
        ensures
            match r {
                Ok(p) => {
                    &&& p.wf()
                    &&& p.labels() == elements@
                    &&& forall|i: int, j: int| 0 <= i < elements@.len() && 0 <= j < elements@.len() ==> pred.ensures((&elements@[i], &elements@[j]), #[trigger] p.le(i, j))
                },
                Err(e) => exists|m: Seq<Seq<bool>>| {
                    &&& is_square(m, elements@.len())
                    &&& forall|i: int, j: int| 0 <= i < elements@.len() && 0 <= j < elements@.len() ==> pred.ensures((&elements@[i], &elements@[j]), #[trigger] m[i][j])
                    &&& relation_error(m, elements@.len(), e)
                },
            },
    {
        let n = elements.len();
        let mut relation: Vec<Bits> = Vec::new();
        let mut i: usize = 0;
        while i < n
            invariant
                n == elements@.len(),
                n <= max_bits(),
                forall|a: &A, b: &A| #[trigger] pred.requires((a, b)),
                i <= n,
                relation@.len() == i,
                forall|k: int| 0 <= k < i ==> (#[trigger] relation@[k])@.len() == n,
                forall|k: int, l: int| 0 <= k < i && 0 <= l < n ==> pred.ensures((&elements@[k], &elements@[l]), #[trigger] relation@[k]@[l]),
            decreases n - i,
        {
            let mut row = Bits::repeat(false, n);
            let mut j: usize = 0;
            while j < n
                invariant
                    n == elements@.len(),
                    forall|a: &A, b: &A| #[trigger] pred.requires((a, b)),
                    i < n,
                    j <= n,
                    row@.len() == n,
                    forall|l: int| 0 <= l < j ==> pred.ensures((&elements@[i as int], &elements@[l]), #[trigger] row@[l]),
                decreases n - j,
            {
                let b = pred(&elements[i], &elements[j]);
                row.set(j, b);
                j += 1;
            }
            relation.push(row);
            i += 1;
        }
        let ghost m = matrix_of(relation@);
        proof {
            assert forall|k: int, l: int| 0 <= k < n && 0 <= l < n implies pred.ensures((&elements@[k], &elements@[l]), #[trigger] m[k][l]) by {
                assert(m[k] == relation@[k]@);
            }
            assert forall|k: int| 0 <= k < n implies (#[trigger] m[k]).len() == n by {
                assert(m[k] == relation@[k]@);
            }
        }
        Self::from_relation(elements, relation)
    }

    /// Returns the same ordered set with labels transformed by `f`.
    ///
    /// The order relation is shared exactly; only the element labels change.
    pub fn relabelled<B, F: Fn(&A) -> B>(&self, f: F) -> (r: Poset<B>)
        requires
            self.wf(),
            forall|a: &A| #[trigger] f.requires((a,)),
        ensures
            r.wf(),
            r.order() == self.order(),
            r.card() == self.card(),
            forall|i: int| 0 <= i < self.card() ==> f.ensures((&self.labels()[i],), #[trigger] r.labels()[i]),
    {
        let n = self.elements.len();
        let mut labels: Vec<B> = Vec::new();
        let mut i: usize = 0;
        while i < n
            invariant
                n == self.elements@.len(),
                forall|a: &A| #[trigger] f.requires((a,)),
                i <= n,
                labels@.len() == i,
                forall|k: int| 0 <= k < i ==> f.ensures((&self.elements@[k],), #[trigger] labels@[k]),
            decreases n - i,
        {
            labels.push(f(&self.elements[i]));
            i += 1;
        }
        Poset {
            elements: labels,
            relation: arc_clone(&self.relation),
            relation_transpose: arc_clone(&self.relation_transpose),
        }
    }
}

impl<A: Clone> Clone for Poset<A> {
    /// Clones the labels; the order matrices are shared, not copied.
    fn clone(&self) -> (r: Self)
        ensures
            r.order() == self.order(),
            r.card() == self.card(),
            self.wf() ==> r.wf(),
            forall|i: int| 0 <= i < self.card() ==> cloned::<A>(self.labels()[i], #[trigger] r.labels()[i]),
    {
        Poset {
            elements: self.elements.clone(),
            relation: arc_clone(&self.relation),
            relation_transpose: arc_clone(&self.relation_transpose),
        }
    }
}

impl<A> Poset<A> {
    /// Whether the two posets share the same stored order matrices (not
    /// merely equal ones): maps and transfer-system universes built over the
    /// same order agree on its coordinates.  Sharing implies equal orders;
    /// nothing is stated of posets whose matrices are stored apart.
    pub(crate) fn shares_order_coordinates_with<B>(&self, other: &Poset<B>) -> (r: bool)
        requires
            self.wf(),
            other.wf(),
        ensures
            r ==> self.order() == other.order() && self.card() == other.card(),
    {
        arc_ptr_eq(&self.relation, &other.relation) && arc_ptr_eq(&self.relation_transpose, &other.relation_transpose)
    }
}

impl Poset<usize> {
    /// Constructs the chain `[top] = {0, ..., top}` with its usual total order.
    ///
    /// The argument is the largest element, so the poset has `top + 1`
    /// elements; element `i` carries the label `i`.
    pub fn chain(top: usize) -> (r: Result<Self, PosetError>)
        requires
            top < max_bits(),
        ensures
            r matches Ok(p) && {
                &&& p.wf()
                &&& p.card() == top + 1
                &&& forall|i: int| 0 <= i <= top ==> #[trigger] p.labels()[i] == i
                &&& forall|i: int, j: int| 0 <= i <= top && 0 <= j <= top ==> #[trigger] p.le(i, j) == (i <= j)
            },
    {
        let mut elements: Vec<usize> = Vec::new();
        let mut i: usize = 0;
        while i <= top
            invariant
                top < max_bits(),
                i <= top + 1,
                elements@.len() == i,
                forall|k: int| 0 <= k < i ==> #[trigger] elements@[k] == k,
            decreases top + 1 - i,
        {
            elements.push(i);
            i += 1;
        }
        let ghost labels = elements@;
        let leq = |a: &usize, b: &usize| -> (r: bool)
            ensures
                r == (*a <= *b),
            { *a <= *b };
        let r = Self::from_vec_by(elements, leq);
        proof {
            let n = (top + 1) as nat;
            match &r {
                Ok(p) => {
                    assert forall|i: int, j: int| 0 <= i <= top && 0 <= j <= top implies #[trigger] p.le(i, j) == (i <= j) by {
                        assert(leq.ensures((&labels[i], &labels[j]), p.le(i, j)));
                    }
                },
                Err(e) => {
                    let m = choose|m: Seq<Seq<bool>>| {
                        &&& is_square(m, n)
                        &&& forall|i: int, j: int| 0 <= i < n && 0 <= j < n ==> leq.ensures((&labels[i], &labels[j]), #[trigger] m[i][j])
                        &&& relation_error(m, n, *e)
                    };
                    assert forall|i: int, j: int| 0 <= i < n && 0 <= j < n implies #[trigger] m[i][j] == (i <= j) by {
                        assert(leq.ensures((&labels[i], &labels[j]), m[i][j]));
                    }
                    lemma_error_not_partial_order(m, n, *e);
                    assert(is_reflexive(m, n));
                    assert(is_antisymmetric(m, n));
                    assert(is_transitive(m, n));
                },
            }
        }
        r
    }
}

} // verus!
