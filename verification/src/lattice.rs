//! Finite lattices.
//!
//! A [`Lattice`] is a nonempty finite poset in which every pair `x, y` has a
//! meet `x /\ y` (greatest lower bound) and a join `x \/ y` (least upper
//! bound).  The type stores the underlying [`Poset`] together with complete
//! meet and join tables, its bottom and its top; construction validates
//! and precomputes, and later lookups take constant time.

use crate::order::{
    has_join, has_meet, is_bottom, is_join, is_lattice_order, is_meet, is_partial_order, is_top,
    lemma_bounds_symmetric, lemma_bounds_unique,
};
use crate::bits::max_bits;
use crate::order::{is_antisymmetric, is_reflexive, is_square, is_transitive, lemma_error_not_partial_order, relation_error};
use crate::poset::{ElementId, Poset, PosetError};
pub use crate::lattice_constructions::{horizontal_join, HorizontalJoinError, LatticeFusion, LatticeProduct};
use vstd::prelude::*;

verus! {

/// A finite lattice with precomputed meet and join tables.
#[derive(Debug)]
pub struct Lattice<A> {
    poset: Poset<A>,
    meet: Vec<Vec<ElementId>>,
    join: Vec<Vec<ElementId>>,
    bottom: ElementId,
    top: ElementId,
}

/// Errors that can occur while constructing a finite lattice.
#[derive(Debug, Clone, Copy, PartialEq, Eq, Structural)]
pub enum LatticeError {
    /// The underlying poset failed validation.
    Poset(PosetError),
    /// A finite lattice must have at least one element.
    Empty,
    /// The requested Boolean lattice cannot be encoded by `usize` bitmasks.
    BooleanRankTooLarge {
        /// The requested rank.
        rank: usize,
    },
    /// The poset has no element below every other element.
    MissingBottom,
    /// The poset has no element above every other element.
    MissingTop,
    /// A pair of elements lacks a meet or a join.
    NotALattice {
        /// The first element in the failing pair.
        left: ElementId,
        /// The second element in the failing pair.
        right: ElementId,
    },
}

/// `a` and `b` have both a meet and a join.
pub open spec fn pair_bounded(m: Seq<Seq<bool>>, n: nat, a: int, b: int) -> bool {
    has_meet(m, n, a, b) && has_join(m, n, a, b)
}

/// The first pair `left < right`, in lexicographic order, that lacks a meet
/// or a join in the order `m`.
pub open spec fn first_non_lattice_pair(m: Seq<Seq<bool>>, n: nat, left: int, right: int) -> bool {
    &&& 0 <= left < right < n
    &&& !(has_meet(m, n, left, right) && has_join(m, n, left, right))
    &&& forall|i: int, j: int|
        0 <= i < j < n && (i < left || (i == left && j < right)) ==> #[trigger] has_meet(m, n, i, j)
            && has_join(m, n, i, j)
}

impl<A> Lattice<A> {
    /// The underlying order.
    pub closed spec fn order(&self) -> Seq<Seq<bool>> {
        self.poset.order()
    }

    /// The element labels.
    pub closed spec fn labels(&self) -> Seq<A> {
        self.poset.labels()
    }

    /// The number of elements.
    pub open spec fn card(&self) -> nat {
        self.labels().len()
    }

    /// `i <= j` in the lattice.
    pub open spec fn le(&self, i: int, j: int) -> bool {
        self.order()[i][j]
    }

    /// The stored meet of `i` and `j`.
    pub closed spec fn meet_of(&self, i: int, j: int) -> int {
        self.meet@[i]@[j] as int
    }

    /// The stored join of `i` and `j`.
    pub closed spec fn join_of(&self, i: int, j: int) -> int {
        self.join@[i]@[j] as int
    }

    /// The stored bottom element.
    pub closed spec fn bottom_of(&self) -> int {
        self.bottom as int
    }

    /// The stored top element.
    pub closed spec fn top_of(&self) -> int {
        self.top as int
    }

    /// The underlying poset.
    pub closed spec fn poset_of(&self) -> Poset<A> {
        self.poset
    }

    /// A well-formed lattice: a lattice order with correct tables.
    pub open spec fn wf(&self) -> bool {
        &&& self.poset_of().wf()
        &&& self.poset_of().order() == self.order()
        &&& self.poset_of().labels() == self.labels()
        &&& is_lattice_order(self.order(), self.card())
        &&& forall|i: int, j: int|
            0 <= i < self.card() && 0 <= j < self.card() ==> is_meet(
                self.order(),
                self.card(),
                i,
                j,
                #[trigger] self.meet_of(i, j),
            )
        &&& forall|i: int, j: int|
            0 <= i < self.card() && 0 <= j < self.card() ==> is_join(
                self.order(),
                self.card(),
                i,
                j,
                #[trigger] self.join_of(i, j),
            )
        &&& is_bottom(self.order(), self.card(), self.bottom_of())
        &&& is_top(self.order(), self.card(), self.top_of())
        &&& self.storage_wf()
    }

    /// The tables have one row and one column per element.
    pub closed spec fn storage_wf(&self) -> bool {
        &&& self.meet@.len() == self.card()
        &&& self.join@.len() == self.card()
        &&& forall|i: int| 0 <= i < self.card() ==> (#[trigger] self.meet@[i])@.len() == self.card()
        &&& forall|i: int| 0 <= i < self.card() ==> (#[trigger] self.join@[i])@.len() == self.card()
    }

    /// Constructs a lattice from a finite poset.
    ///
    /// Every pair `i < j` is checked for a meet and a join, in lexicographic
    /// order; the results are stored in symmetric tables, and bottom and top
    /// are located.  Element ids and labels are preserved.
    pub fn new(poset: Poset<A>) -> (r: Result<Self, LatticeError>)
        requires
            poset.wf(),
        ensures
            match r {
                Ok(l) => {
                    &&& l.wf()
                    &&& l.order() == poset.order()
                    &&& l.labels() == poset.labels()
                },
                Err(LatticeError::Empty) => poset.card() == 0,
                Err(LatticeError::NotALattice { left, right }) => poset.card() > 0 && first_non_lattice_pair(
                    poset.order(),
                    poset.card(),
                    left as int,
                    right as int,
                ),
                Err(LatticeError::MissingBottom) => is_lattice_order(poset.order(), poset.card())
                    && forall|b: int| !is_bottom(poset.order(), poset.card(), b),
                Err(LatticeError::MissingTop) => is_lattice_order(poset.order(), poset.card())
                    && forall|t: int| !is_top(poset.order(), poset.card(), t),
                Err(_) => false,
            },
    {
        if poset.is_empty() {
            return Err(LatticeError::Empty);
        }
        let n = poset.size();
        let ghost m = poset.order();
        let mut meet: Vec<Vec<ElementId>> = Vec::new();
        let mut join: Vec<Vec<ElementId>> = Vec::new();
        let mut i: usize = 0;
        while i < n
            invariant
                poset.wf(),
                m == poset.order(),
                n == poset.card(),
                i <= n,
                meet@.len() == i,
                join@.len() == i,
                forall|a: int| 0 <= a < i ==> (#[trigger] meet@[a])@.len() == n,
                forall|a: int| 0 <= a < i ==> (#[trigger] join@[a])@.len() == n,
                forall|a: int, b: int| 0 <= a < i && 0 <= b < n ==> is_meet(m, n as nat, a, b, #[trigger] meet@[a]@[b] as int),
                forall|a: int, b: int| 0 <= a < i && 0 <= b < n ==> is_join(m, n as nat, a, b, #[trigger] join@[a]@[b] as int),
                forall|a: int, b: int| 0 <= a < b < n && a < i ==> #[trigger] pair_bounded(m, n as nat, a, b),
            decreases n - i,
        {
            let mut meet_row: Vec<ElementId> = Vec::new();
            let mut join_row: Vec<ElementId> = Vec::new();
            let mut j: usize = 0;
            while j < n
                invariant
                    poset.wf(),
                    m == poset.order(),
                    n == poset.card(),
                    i < n,
                    j <= n,
                    meet@.len() == i,
                    join@.len() == i,
                    forall|a: int| 0 <= a < i ==> (#[trigger] meet@[a])@.len() == n,
                    forall|a: int| 0 <= a < i ==> (#[trigger] join@[a])@.len() == n,
                    forall|a: int, b: int| 0 <= a < i && 0 <= b < n ==> is_meet(m, n as nat, a, b, #[trigger] meet@[a]@[b] as int),
                    forall|a: int, b: int| 0 <= a < i && 0 <= b < n ==> is_join(m, n as nat, a, b, #[trigger] join@[a]@[b] as int),
                    forall|a: int, b: int| 0 <= a < b < n && a < i ==> #[trigger] pair_bounded(m, n as nat, a, b),
                    meet_row@.len() == j,
                    join_row@.len() == j,
                    forall|b: int| 0 <= b < j ==> is_meet(m, n as nat, i as int, b, #[trigger] meet_row@[b] as int),
                    forall|b: int| 0 <= b < j ==> is_join(m, n as nat, i as int, b, #[trigger] join_row@[b] as int),
                    forall|b: int| i < b < j ==> #[trigger] pair_bounded(m, n as nat, i as int, b),
                decreases n - j,
            {
                if j < i {
                    let mt = meet[j][i];
                    let jn = join[j][i];
                    proof {
                        lemma_bounds_symmetric(m, n as nat, i as int, j as int, mt as int);
                        lemma_bounds_symmetric(m, n as nat, i as int, j as int, jn as int);
                    }
                    meet_row.push(mt);
                    join_row.push(jn);
                } else if j == i {
                    proof {
                        lemma_bounds_symmetric(m, n as nat, i as int, i as int, i as int);
                    }
                    meet_row.push(i);
                    join_row.push(i);
                } else {
                    let mt = poset.meet(i, j);
                    let jn = poset.join(i, j);
                    if mt.is_none() || jn.is_none() {
                        proof {
                            assert(!(has_meet(m, n as nat, i as int, j as int) && has_join(m, n as nat, i as int, j as int)));
                            assert forall|a: int, b: int|
                                0 <= a < b < n && (a < i || (a == i && b < j)) implies #[trigger] has_meet(m, n as nat, a, b)
                                    && has_join(m, n as nat, a, b) by {
                                assert(pair_bounded(m, n as nat, a, b));
                            }
                            assert(first_non_lattice_pair(m, n as nat, i as int, j as int));
                        }
                        let e = LatticeError::NotALattice { left: i, right: j };
                        assert(e matches LatticeError::NotALattice { left, right } && first_non_lattice_pair(m, n as nat, left as int, right as int));
                        return Err(e);
                    }
                    let a = mt.unwrap();
                    let b = jn.unwrap();
                    proof {
                        assert(is_meet(m, n as nat, i as int, j as int, a as int));
                        assert(is_join(m, n as nat, i as int, j as int, b as int));
                        assert(pair_bounded(m, n as nat, i as int, j as int));
                    }
                    meet_row.push(a);
                    join_row.push(b);
                }
                j += 1;
            }
            meet.push(meet_row);
            join.push(join_row);
            i += 1;
        }
        proof {
            assert forall|a: int, b: int| 0 <= a < n && 0 <= b < n implies #[trigger] has_meet(m, n as nat, a, b) by {
                assert(is_meet(m, n as nat, a, b, meet@[a]@[b] as int));
            }
            assert forall|a: int, b: int| 0 <= a < n && 0 <= b < n implies #[trigger] has_join(m, n as nat, a, b) by {
                assert(is_join(m, n as nat, a, b, join@[a]@[b] as int));
            }
        }
        let bottom = match poset.bottom() {
            Some(b) => b,
            None => {
                return Err(LatticeError::MissingBottom);
            },
        };
        let top = match poset.top() {
            Some(t) => t,
            None => {
                return Err(LatticeError::MissingTop);
            },
        };
        Ok(Lattice { poset, meet, join, bottom, top })
    }

    /// Returns the underlying poset.
    pub fn as_poset(&self) -> (r: &Poset<A>)
        ensures
            *r == self.poset_of(),
    {
        &self.poset
    }

    /// Consumes the lattice and returns its underlying poset.
    pub fn into_poset(self) -> (r: Poset<A>)
        ensures
            r == self.poset_of(),
    {
        self.poset
    }

    /// Returns the number of elements.
    pub fn size(&self) -> (r: usize)
        requires
            self.wf(),
        ensures
            r == self.card(),
    {
        self.poset.size()
    }

    /// Returns whether the lattice has exactly one element.
    pub fn is_trivial(&self) -> (r: bool)
        requires
            self.wf(),
        ensures
            r == (self.card() == 1),
    {
        proof {
            let m = self.order();
            let n = self.card();
            let b = self.bottom_of();
            if b == self.top_of() && n != 1 {
                assert(m[b][0] && m[0][b]);
                assert(m[b][1] && m[1][b]);
            }
        }
        self.bottom == self.top
    }

    /// Returns all element labels in `ElementId` order.
    pub fn elements(&self) -> (r: &[A])
        requires
            self.wf(),
        ensures
            r@ == self.labels(),
    {
        self.poset.elements()
    }

    /// Returns the label of an element by id.
    pub fn element(&self, id: ElementId) -> (r: Option<&A>)
        requires
            self.wf(),
        ensures
            r == (if id < self.card() {
                Some(&self.labels()[id as int])
            } else {
                None
            }),
    {
        self.poset.element(id)
    }

    /// Tests the order relation `left <= right`.
    pub fn leq(&self, left: ElementId, right: ElementId) -> (r: bool)
        requires
            self.wf(),
            left < self.card(),
            right < self.card(),
        ensures
            r == self.le(left as int, right as int),
    {
        self.poset.leq(left, right)
    }

    /// Returns the meet `left /\ right`.
    pub fn meet_id(&self, left: ElementId, right: ElementId) -> (r: ElementId)
        requires
            self.wf(),
            left < self.card(),
            right < self.card(),
        ensures
            r == self.meet_of(left as int, right as int),
            is_meet(self.order(), self.card(), left as int, right as int, r as int),
    {
        proof {
            assert(is_meet(self.order(), self.card(), left as int, right as int, self.meet_of(left as int, right as int)));
        }
        self.meet[left][right]
    }

    /// Returns the join `left \/ right`.
    pub fn join_id(&self, left: ElementId, right: ElementId) -> (r: ElementId)
        requires
            self.wf(),
            left < self.card(),
            right < self.card(),
        ensures
            r == self.join_of(left as int, right as int),
            is_join(self.order(), self.card(), left as int, right as int, r as int),
    {
        proof {
            assert(is_join(self.order(), self.card(), left as int, right as int, self.join_of(left as int, right as int)));
        }
        self.join[left][right]
    }

    /// Returns the bottom element.
    pub fn bottom(&self) -> (r: ElementId)
        requires
            self.wf(),
        ensures
            r == self.bottom_of(),
            is_bottom(self.order(), self.card(), r as int),
    {
        self.bottom
    }

    /// Returns the top element.
    pub fn top(&self) -> (r: ElementId)
        requires
            self.wf(),
        ensures
            r == self.top_of(),
            is_top(self.order(), self.card(), r as int),
    {
        self.top
    }

    /// Returns whether any two incomparable elements have meet equal to
    /// bottom, that is, whether the lattice is a fusion of total orders.
    pub fn is_fusion_of_total_orders(&self) -> (r: bool)
        requires
            self.wf(),
        ensures
            r == forall|i: int, j: int|
                0 <= i < self.card() && 0 <= j < self.card() ==> {
                    let k = #[trigger] self.meet_of(i, j);
                    k == i || k == j || k == self.bottom_of()
                },
    {
        let n = self.size();
        let mut i: usize = 0;
        while i < n
            invariant
                self.wf(),
                n == self.card(),
                i <= n,
                forall|a: int, b: int|
                    0 <= a < i && a < b < n ==> {
                        let k = #[trigger] self.meet_of(a, b);
                        k == a || k == b || k == self.bottom_of()
                    },
            decreases n - i,
        {
            let mut j: usize = i + 1;
            while j < n
                invariant
                    self.wf(),
                    n == self.card(),
                    i < n,
                    i + 1 <= j <= n,
                    forall|a: int, b: int|
                        ((0 <= a < i && a < b < n) || (a == i && i < b < j)) ==> {
                            let k = #[trigger] self.meet_of(a, b);
                            k == a || k == b || k == self.bottom_of()
                        },
                decreases n - j,
            {
                let meet = self.meet_id(i, j);
                if !(meet == i || meet == j || meet == self.bottom) {
                    return false;
                }
                j += 1;
            }
            i += 1;
        }
        proof {
            let m = self.order();
            assert forall|a: int, b: int| 0 <= a < n && 0 <= b < n implies {
                let k = #[trigger] self.meet_of(a, b);
                k == a || k == b || k == self.bottom_of()
            } by {
                let k = self.meet_of(a, b);
                if a == b {
                    lemma_bounds_symmetric(m, n as nat, a, a, a);
                    lemma_bounds_unique(m, n as nat, a, a, k, a);
                } else if b < a {
                    let k2 = self.meet_of(b, a);
                    assert(k2 == b || k2 == a || k2 == self.bottom_of());
                    lemma_bounds_symmetric(m, n as nat, a, b, k2);
                    lemma_bounds_unique(m, n as nat, a, b, k, k2);
                }
            }
        }
        true
    }
}

impl<A> Lattice<A> {
    /// Returns the same lattice with labels transformed by `f`.
    ///
    /// The order, meet table, join table, bottom, and top are unchanged.
    pub fn relabelled<B, F: Fn(&A) -> B>(&self, f: F) -> (r: Lattice<B>)
        requires
            self.wf(),
            forall|a: &A| #[trigger] f.requires((a,)),
        ensures
            r.wf(),
            r.order() == self.order(),
            r.card() == self.card(),
            forall|i: int, j: int| 0 <= i < self.card() && 0 <= j < self.card() ==> #[trigger] r.meet_of(i, j) == self.meet_of(i, j) && r.join_of(i, j) == self.join_of(i, j),
            r.bottom_of() == self.bottom_of(),
            r.top_of() == self.top_of(),
            forall|i: int| 0 <= i < self.card() ==> f.ensures((&self.labels()[i],), #[trigger] r.labels()[i]),
    {
        let r = Lattice {
            poset: self.poset.relabelled(f),
            meet: clone_table(&self.meet),
            join: clone_table(&self.join),
            bottom: self.bottom,
            top: self.top,
        };
        proof {
            assert forall|i: int, j: int| 0 <= i < self.card() && 0 <= j < self.card() implies #[trigger] r.meet_of(i, j) == self.meet_of(i, j) && r.join_of(i, j) == self.join_of(i, j) by {
                assert(r.meet@[i]@ == self.meet@[i]@);
                assert(r.join@[i]@ == self.join@[i]@);
            }
            assert forall|i: int, j: int| 0 <= i < r.card() && 0 <= j < r.card() implies is_meet(r.order(), r.card(), i, j, #[trigger] r.meet_of(i, j)) by {
                assert(r.meet_of(i, j) == self.meet_of(i, j));
            }
            assert forall|i: int, j: int| 0 <= i < r.card() && 0 <= j < r.card() implies is_join(r.order(), r.card(), i, j, #[trigger] r.join_of(i, j)) by {
                assert(r.join_of(i, j) == self.join_of(i, j));
            }
        }
        r
    }
}

/// A copy of a table of element ids.
fn clone_table(table: &Vec<Vec<ElementId>>) -> (r: Vec<Vec<ElementId>>)
    ensures
        r@.len() == table@.len(),
        forall|i: int| 0 <= i < table@.len() ==> (#[trigger] r@[i])@ == table@[i]@,
{
    let mut result: Vec<Vec<ElementId>> = Vec::new();
    let mut i: usize = 0;
    while i < table.len()
        invariant
            i <= table@.len(),
            result@.len() == i,
            forall|k: int| 0 <= k < i ==> (#[trigger] result@[k])@ == table@[k]@,
        decreases table@.len() - i,
    {
        let mut row: Vec<ElementId> = Vec::new();
        let mut j: usize = 0;
        while j < table[i].len()
            invariant
                i < table@.len(),
                j <= table@[i as int]@.len(),
                row@ == table@[i as int]@.subrange(0, j as int),
            decreases table@[i as int]@.len() - j,
        {
            row.push(table[i][j]);
            j += 1;
        }
        assert(row@ =~= table@[i as int]@);
        result.push(row);
        i += 1;
    }
    result
}

/// The smaller of two integers.
pub open spec fn min_of(i: int, j: int) -> int {
    if i <= j { i } else { j }
}

/// The larger of two integers.
pub open spec fn max_of(i: int, j: int) -> int {
    if i <= j { j } else { i }
}

/// A chain `0 <= 1 <= ... <= top` is a lattice with meet `min`, join `max`,
/// bottom `0` and top `top`.
proof fn lemma_chain_bounds(m: Seq<Seq<bool>>, n: nat)
    requires
        n > 0,
        is_square(m, n),
        forall|i: int, j: int| 0 <= i < n && 0 <= j < n ==> #[trigger] m[i][j] == (i <= j),
    ensures
        is_partial_order(m, n),
        forall|i: int, j: int| 0 <= i < n && 0 <= j < n ==> is_meet(m, n, i, j, #[trigger] min_of(i, j)),
        forall|i: int, j: int| 0 <= i < n && 0 <= j < n ==> is_join(m, n, i, j, #[trigger] max_of(i, j)),
        is_lattice_order(m, n),
        is_bottom(m, n, 0),
        is_top(m, n, n - 1),
{
    assert forall|a: int, b: int| 0 <= a < n && 0 <= b < n implies #[trigger] has_meet(m, n, a, b) by {
        assert(is_meet(m, n, a, b, min_of(a, b)));
    }
    assert forall|a: int, b: int| 0 <= a < n && 0 <= b < n implies #[trigger] has_join(m, n, a, b) by {
        assert(is_join(m, n, a, b, max_of(a, b)));
    }
}

impl Lattice<usize> {
    /// Constructs the chain `[top] = {0, ..., top}` with its usual total order.
    ///
    /// The lattice has `top + 1` elements; meet is minimum and join is maximum.
    pub fn chain(top: usize) -> (r: Result<Self, LatticeError>)
        requires
            top < max_bits(),
        ensures
            r matches Ok(l) && {
                &&& l.wf()
                &&& l.card() == top + 1
                &&& forall|i: int| 0 <= i <= top ==> #[trigger] l.labels()[i] == i
                &&& forall|i: int, j: int| 0 <= i <= top && 0 <= j <= top ==> #[trigger] l.le(i, j) == (i <= j)
                &&& forall|i: int, j: int| 0 <= i <= top && 0 <= j <= top ==> #[trigger] l.meet_of(i, j) == min_of(i, j)
                &&& forall|i: int, j: int| 0 <= i <= top && 0 <= j <= top ==> #[trigger] l.join_of(i, j) == max_of(i, j)
                &&& l.bottom_of() == 0
                &&& l.top_of() == top
            },
    {
        let poset = match Poset::chain(top) {
            Ok(p) => p,
            Err(e) => {
                return Err(LatticeError::Poset(e));
            },
        };
        let ghost m = poset.order();
        let ghost n = poset.card();
        proof {
            assert forall|i: int, j: int| 0 <= i < n && 0 <= j < n implies #[trigger] m[i][j] == (i <= j) by {
                assert(poset.le(i, j) == (i <= j));
            }
            lemma_chain_bounds(m, n);
        }
        let r = Lattice::new(poset);
        proof {
            match &r {
                Ok(l) => {
                    assert forall|i: int, j: int| 0 <= i <= top && 0 <= j <= top implies #[trigger] l.meet_of(i, j) == min_of(i, j) by {
                        lemma_bounds_unique(m, n, i, j, l.meet_of(i, j), min_of(i, j));
                    }
                    assert forall|i: int, j: int| 0 <= i <= top && 0 <= j <= top implies #[trigger] l.join_of(i, j) == max_of(i, j) by {
                        lemma_bounds_unique(m, n, i, j, l.join_of(i, j), max_of(i, j));
                    }
                    lemma_bounds_unique(m, n, 0, 0, l.bottom_of(), 0);
                    lemma_bounds_unique(m, n, 0, 0, l.top_of(), n - 1);
                },
                Err(e) => {
                    if let LatticeError::NotALattice { left, right } = e {
                        assert(has_meet(m, n, *left as int, *right as int));
                        assert(has_join(m, n, *left as int, *right as int));
                    }
                    assert(is_bottom(m, n, 0));
                    assert(is_top(m, n, n - 1));
                },
            }
        }
        r
    }
}

/// Inclusion of bitmasks is a partial order.
proof fn lemma_mask_order(x: usize, y: usize, z: usize)
    by (bit_vector)
    ensures
        x & !x == 0,
        (x & !y == 0 && y & !x == 0) ==> x == y,
        (x & !y == 0 && y & !z == 0) ==> x & !z == 0,
{
}

/// Bitwise intersection is the meet of inclusion.
proof fn lemma_mask_meet(x: usize, y: usize, k: usize)
    by (bit_vector)
    ensures
        (x & y) & !x == 0,
        (x & y) & !y == 0,
        (k & !x == 0 && k & !y == 0) ==> k & !(x & y) == 0,
        x & y <= x,
{
}

/// Bitwise union is the join of inclusion.
proof fn lemma_mask_join(x: usize, y: usize, k: usize)
    by (bit_vector)
    ensures
        x & !(x | y) == 0,
        y & !(x | y) == 0,
        (x & !k == 0 && y & !k == 0) ==> (x | y) & !k == 0,
{
}

/// Masks below `2^rank` are closed under union, contain `0`, and all lie
/// below `2^rank - 1`.
proof fn lemma_mask_range(x: usize, y: usize, rank: usize)
    by (bit_vector)
    requires
        rank < usize::BITS,
        x < (1usize << rank),
        y < (1usize << rank),
    ensures
        (x | y) < (1usize << rank),
        x & !(((1usize << rank) - 1usize) as usize) == 0,
        0usize & !x == 0,
{
}

/// `2^rank` is positive.
proof fn lemma_mask_size(rank: usize)
    by (bit_vector)
    requires
        rank < usize::BITS,
    ensures
        0 < (1usize << rank),
{
}

/// The inclusion order on the masks `0, ..., 2^rank - 1`.
pub open spec fn mask_order(m: Seq<Seq<bool>>, size: nat) -> bool {
    &&& is_square(m, size)
    &&& forall|i: int, j: int| 0 <= i < size && 0 <= j < size ==> #[trigger] m[i][j] == ((i as usize) & !(j as usize) == 0)
}

proof fn lemma_boolean_lattice(m: Seq<Seq<bool>>, rank: usize)
    requires
        rank < usize::BITS,
        mask_order(m, (1usize << rank) as nat),
    ensures
        is_partial_order(m, (1usize << rank) as nat),
        is_lattice_order(m, (1usize << rank) as nat),
        forall|i: int, j: int| 0 <= i < (1usize << rank) && 0 <= j < (1usize << rank) ==> is_meet(m, (1usize << rank) as nat, i, j, #[trigger] mask_and(i, j)),
        forall|i: int, j: int| 0 <= i < (1usize << rank) && 0 <= j < (1usize << rank) ==> is_join(m, (1usize << rank) as nat, i, j, #[trigger] mask_or(i, j)),
        is_bottom(m, (1usize << rank) as nat, 0),
        is_top(m, (1usize << rank) as nat, (1usize << rank) - 1),
{
    let size = 1usize << rank;
    let n = size as nat;
    lemma_mask_size(rank);
    lemma_mask_range(0, 0, rank);
    assert(is_reflexive(m, n)) by {
        assert forall|i: int| 0 <= i < n implies #[trigger] m[i][i] by {
            lemma_mask_order(i as usize, i as usize, i as usize);
        }
    }
    assert(is_antisymmetric(m, n)) by {
        assert forall|i: int, j: int| 0 <= i < n && 0 <= j < n && #[trigger] m[i][j] && #[trigger] m[j][i] implies i == j by {
            lemma_mask_order(i as usize, j as usize, j as usize);
        }
    }
    assert(is_transitive(m, n)) by {
        assert forall|i: int, j: int, k: int| 0 <= i < n && 0 <= j < n && 0 <= k < n && #[trigger] m[i][j] && #[trigger] m[j][k] implies m[i][k] by {
            lemma_mask_order(i as usize, j as usize, k as usize);
        }
    }
    assert forall|i: int, j: int| 0 <= i < size && 0 <= j < size implies is_meet(m, n, i, j, #[trigger] mask_and(i, j)) by {
        let c = mask_and(i, j);
        lemma_mask_meet(i as usize, j as usize, 0);
        assert forall|k: int| 0 <= k < n && #[trigger] m[k][i] && m[k][j] implies m[k][c] by {
            lemma_mask_meet(i as usize, j as usize, k as usize);
        }
    }
    assert forall|i: int, j: int| 0 <= i < size && 0 <= j < size implies is_join(m, n, i, j, #[trigger] mask_or(i, j)) by {
        let c = mask_or(i, j);
        lemma_mask_join(i as usize, j as usize, 0);
        lemma_mask_range(i as usize, j as usize, rank);
        assert forall|k: int| 0 <= k < n && #[trigger] m[i][k] && m[j][k] implies m[c][k] by {
            lemma_mask_join(i as usize, j as usize, k as usize);
        }
    }
    assert forall|a: int, b: int| 0 <= a < n && 0 <= b < n implies #[trigger] has_meet(m, n, a, b) by {
        assert(is_meet(m, n, a, b, mask_and(a, b)));
    }
    assert forall|a: int, b: int| 0 <= a < n && 0 <= b < n implies #[trigger] has_join(m, n, a, b) by {
        assert(is_join(m, n, a, b, mask_or(a, b)));
    }
    assert forall|x: int| 0 <= x < n implies #[trigger] m[0][x] by {
        lemma_mask_range(x as usize, 0, rank);
    }
    assert forall|x: int| 0 <= x < n implies #[trigger] m[x][size - 1] by {
        lemma_mask_range(x as usize, 0, rank);
    }
}

/// The mask `i & j`.
pub open spec fn mask_and(i: int, j: int) -> int {
    ((i as usize) & (j as usize)) as int
}

/// The mask `i | j`.
pub open spec fn mask_or(i: int, j: int) -> int {
    ((i as usize) | (j as usize)) as int
}

impl Lattice<usize> {
    /// Constructs the Boolean lattice of subsets of `{0, ..., rank - 1}`.
    ///
    /// Elements are `usize` bitmasks ordered by inclusion: element `i`
    /// carries the label `i`, meet is bitwise intersection and join is
    /// bitwise union.  Ranks that do not fit in a `usize` bitmask are
    /// rejected.
    pub fn boolean(rank: usize) -> (r: Result<Self, LatticeError>)
        requires
            rank < usize::BITS ==> (1usize << rank) <= max_bits(),
        ensures
            rank >= usize::BITS ==> r == Err::<Self, LatticeError>(LatticeError::BooleanRankTooLarge { rank }),
            rank < usize::BITS ==> (r matches Ok(l) && {
                &&& l.wf()
                &&& l.card() == (1usize << rank)
                &&& forall|i: int| 0 <= i < l.card() ==> #[trigger] l.labels()[i] == i
                &&& mask_order(l.order(), l.card())
                &&& forall|i: int, j: int| 0 <= i < l.card() && 0 <= j < l.card() ==> #[trigger] l.meet_of(i, j) == mask_and(i, j)
                &&& forall|i: int, j: int| 0 <= i < l.card() && 0 <= j < l.card() ==> #[trigger] l.join_of(i, j) == mask_or(i, j)
                &&& l.bottom_of() == 0
                &&& l.top_of() == l.card() - 1
            }),
    {
        if rank >= usize::BITS as usize {
            return Err(LatticeError::BooleanRankTooLarge { rank });
        }
        let size: usize = 1usize << rank;
        let mut elements: Vec<usize> = Vec::new();
        let mut i: usize = 0;
        while i < size
            invariant
                i <= size,
                elements@.len() == i,
                forall|k: int| 0 <= k < i ==> #[trigger] elements@[k] == k,
            decreases size - i,
        {
            elements.push(i);
            i += 1;
        }
        let ghost labels = elements@;
        let subset = |left: &usize, right: &usize| -> (b: bool)
            ensures
                b == (*left & !*right == 0),
            { *left & !*right == 0 };
        let poset = match Poset::from_vec_by(elements, subset) {
            Ok(p) => p,
            Err(e) => {
                proof {
                    let n = size as nat;
                    let m = choose|m: Seq<Seq<bool>>| {
                        &&& is_square(m, n)
                        &&& forall|i: int, j: int| 0 <= i < n && 0 <= j < n ==> subset.ensures((&labels[i], &labels[j]), #[trigger] m[i][j])
                        &&& relation_error(m, n, e)
                    };
                    assert forall|i: int, j: int| 0 <= i < n && 0 <= j < n implies #[trigger] m[i][j] == ((i as usize) & !(j as usize) == 0) by {
                        assert(subset.ensures((&labels[i], &labels[j]), m[i][j]));
                    }
                    lemma_boolean_lattice(m, rank);
                    lemma_error_not_partial_order(m, n, e);
                }
                return Err(LatticeError::Poset(e));
            },
        };
        let ghost m = poset.order();
        let ghost n = poset.card();
        proof {
            assert forall|i: int, j: int| 0 <= i < n && 0 <= j < n implies #[trigger] m[i][j] == ((i as usize) & !(j as usize) == 0) by {
                assert(subset.ensures((&labels[i], &labels[j]), poset.le(i, j)));
            }
            lemma_boolean_lattice(m, rank);
        }
        let r = Lattice::new(poset);
        proof {
            match &r {
                Ok(l) => {
                    assert forall|i: int, j: int| 0 <= i < n && 0 <= j < n implies #[trigger] l.meet_of(i, j) == mask_and(i, j) by {
                        lemma_bounds_unique(m, n, i, j, l.meet_of(i, j), mask_and(i, j));
                    }
                    assert forall|i: int, j: int| 0 <= i < n && 0 <= j < n implies #[trigger] l.join_of(i, j) == mask_or(i, j) by {
                        lemma_bounds_unique(m, n, i, j, l.join_of(i, j), mask_or(i, j));
                    }
                    lemma_bounds_unique(m, n, 0, 0, l.bottom_of(), 0);
                    lemma_bounds_unique(m, n, 0, 0, l.top_of(), n - 1);
                },
                Err(e) => {
                    if let LatticeError::NotALattice { left, right } = e {
                        assert(has_meet(m, n, *left as int, *right as int));
                        assert(has_join(m, n, *left as int, *right as int));
                    }
                    assert(is_bottom(m, n, 0));
                    assert(is_top(m, n, n - 1));
                },
            }
        }
        r
    }
}

} // verus!
