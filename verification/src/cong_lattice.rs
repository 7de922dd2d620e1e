//! Posets and lattices described through traits, with congruences on their
//! relations.
//!
//! [`IsPoset`] is a finite set of elements `0, ..., n - 1` with a relation
//! `leq`; from it come upsets, downsets and (where they exist) meets and
//! joins, found as the first element whose downset (upset) is the
//! intersection of the two given ones.  [`IsCongPoset`] adds a preorder
//! `preceq` coming from an equivalence relation on the relations of the
//! poset, and [`IsLattice`] adds meets, joins, restrictions and
//! corestrictions.  The concrete types [`Poset`], [`CongPoset`],
//! [`Lattice`] and [`CongLattice`] implement them.

use crate::edges::Edge;
use crate::order::{
    closure_step, closure_upto, edge_closure, edge_matrix, is_antisymmetric, is_join, is_meet,
    is_partial_order, is_square, lemma_edge_closure_least, lemma_bounds_unique,
};
use std::collections::HashSet;
use vstd::prelude::*;

verus! {

/// The rows of a boolean matrix as sequences.
pub open spec fn bool_rows(rows: Seq<Vec<bool>>) -> Seq<Seq<bool>> {
    Seq::new(rows.len(), |i: int| rows[i]@)
}

/// The downset of `c` in the relation `m` is the intersection of the
/// downsets of `a` and `b`.
pub open spec fn is_downset_meet(m: Seq<Seq<bool>>, a: int, b: int, c: int) -> bool {
    forall|x: int| 0 <= x < m.len() ==> (#[trigger] m[x][c] == (m[x][a] && m[x][b]))
}

/// The upset of `c` in the relation `m` is the intersection of the upsets
/// of `a` and `b`.
pub open spec fn is_upset_join(m: Seq<Seq<bool>>, a: int, b: int, c: int) -> bool {
    forall|x: int| 0 <= x < m.len() ==> (#[trigger] m[c][x] == (m[a][x] && m[b][x]))
}

/// `c` is the first element whose downset is the intersection of those of
/// `a` and `b`.
pub open spec fn is_first_meet(m: Seq<Seq<bool>>, a: int, b: int, c: int) -> bool {
    &&& 0 <= c < m.len()
    &&& is_downset_meet(m, a, b, c)
    &&& forall|d: int| 0 <= d < c ==> !#[trigger] is_downset_meet(m, a, b, d)
}

/// `c` is the first element whose upset is the intersection of those of
/// `a` and `b`.
pub open spec fn is_first_join(m: Seq<Seq<bool>>, a: int, b: int, c: int) -> bool {
    &&& 0 <= c < m.len()
    &&& is_upset_join(m, a, b, c)
    &&& forall|d: int| 0 <= d < c ==> !#[trigger] is_upset_join(m, a, b, d)
}

/// The first meet and the first join are unique: so the meet and join that
/// a lattice computes from a poset are the ones the poset finds, and two
/// lattices over the same relation agree on them.
pub proof fn lemma_first_bounds_unique(m: Seq<Seq<bool>>, a: int, b: int, c: int, d: int)
    ensures
        is_first_meet(m, a, b, c) && is_first_meet(m, a, b, d) ==> c == d,
        is_first_join(m, a, b, c) && is_first_join(m, a, b, d) ==> c == d,
{
    if is_first_meet(m, a, b, c) && is_first_meet(m, a, b, d) {
        if c < d {
            assert(!is_downset_meet(m, a, b, c));
        } else if d < c {
            assert(!is_downset_meet(m, a, b, d));
        }
    }
    if is_first_join(m, a, b, c) && is_first_join(m, a, b, d) {
        if c < d {
            assert(!is_upset_join(m, a, b, c));
        } else if d < c {
            assert(!is_upset_join(m, a, b, d));
        }
    }
}

/// Some element has as downset the intersection of those of `a` and `b`.
pub open spec fn has_downset_meet(m: Seq<Seq<bool>>, a: int, b: int) -> bool {
    exists|c: int| 0 <= c < m.len() && #[trigger] is_downset_meet(m, a, b, c)
}

/// Some element has as upset the intersection of those of `a` and `b`.
pub open spec fn has_upset_join(m: Seq<Seq<bool>>, a: int, b: int) -> bool {
    exists|c: int| 0 <= c < m.len() && #[trigger] is_upset_join(m, a, b, c)
}

/// The elements above `a` in the relation `m`.
pub open spec fn upset_in(m: Seq<Seq<bool>>, a: int) -> Set<usize> {
    Set::new(|x: usize| x < m.len() && m[a][x as int])
}

/// The elements below `a` in the relation `m`.
pub open spec fn downset_in(m: Seq<Seq<bool>>, a: int) -> Set<usize> {
    Set::new(|x: usize| x < m.len() && m[x as int][a])
}

/// A finite poset on the elements `0, ..., n - 1`.
///
/// Implementors give the number of elements and the relation; upsets,
/// downsets, meets and joins follow from them.  A meet of `a` and `b` is
/// an element whose downset is the intersection of the downsets of `a` and
/// `b`; the provided methods return the first one.  Joins are the same
/// with upsets.
pub trait IsPoset {
    /// The stored data is consistent, so that the methods may be called.
    spec fn poset_inv(&self) -> bool;

    /// The relation: `relation()[a][b]` holds when `a <= b`; its length is
    /// the number of elements.
    spec fn relation(&self) -> Seq<Seq<bool>>;

    /// The number of elements.
    fn num_elements(&self) -> (n: usize)
        requires
            self.poset_inv(),
        ensures
            n == self.relation().len(),
    ;

    /// Whether `a <= b`.
    fn leq(&self, a: usize, b: usize) -> (r: bool)
        requires
            self.poset_inv(),
            a < self.relation().len(),
            b < self.relation().len(),
        ensures
            r == self.relation()[a as int][b as int],
    ;

    /// The elements `x` with `a <= x`.
    fn upset(&self, a: usize) -> (s: HashSet<usize>)
        requires
            self.poset_inv(),
            a < self.relation().len(),
        ensures
            s@ == upset_in(self.relation(), a as int),
    {
        let n = self.num_elements();
        let ghost m = self.relation();
        let mut upset: HashSet<usize> = HashSet::new();
        let mut i: usize = 0;
        while i < n
            invariant
                self.poset_inv(),
                m == self.relation(),
                n == m.len(),
                a < n,
                i <= n,
                upset@ == Set::new(|x: usize| x < i && m[a as int][x as int]),
            decreases n - i,
        {
            if self.leq(a, i) {
                upset.insert(i);
            }
            assert(upset@ =~= Set::new(|x: usize| x < i + 1 && m[a as int][x as int]));
            i += 1;
        }
        assert(upset@ =~= upset_in(m, a as int));
        upset
    }

    /// The elements `x` with `x <= a`.
    fn downset(&self, a: usize) -> (s: HashSet<usize>)
        requires
            self.poset_inv(),
            a < self.relation().len(),
        ensures
            s@ == downset_in(self.relation(), a as int),
    {
        let n = self.num_elements();
        let ghost m = self.relation();
        let mut downset: HashSet<usize> = HashSet::new();
        let mut i: usize = 0;
        while i < n
            invariant
                self.poset_inv(),
                m == self.relation(),
                n == m.len(),
                a < n,
                i <= n,
                downset@ == Set::new(|x: usize| x < i && m[x as int][a as int]),
            decreases n - i,
        {
            if self.leq(i, a) {
                downset.insert(i);
            }
            assert(downset@ =~= Set::new(|x: usize| x < i + 1 && m[x as int][a as int]));
            i += 1;
        }
        assert(downset@ =~= downset_in(m, a as int));
        downset
    }

    /// The first element whose downset is the intersection of the downsets
    /// of `a` and `b`, if there is one.
    fn maybe_meet(&self, a: usize, b: usize) -> (r: Option<usize>)
        requires
            self.poset_inv(),
            a < self.relation().len(),
            b < self.relation().len(),
        ensures
            match r {
                Some(c) => is_first_meet(self.relation(), a as int, b as int, c as int),
                None => !has_downset_meet(self.relation(), a as int, b as int),
            },
    {
        let n = self.num_elements();
        let ghost m = self.relation();
        let mut c: usize = 0;
        while c < n
            invariant
                self.poset_inv(),
                m == self.relation(),
                n == m.len(),
                a < n,
                b < n,
                c <= n,
                forall|d: int| 0 <= d < c ==> !#[trigger] is_downset_meet(m, a as int, b as int, d),
            decreases n - c,
        {
            let mut x: usize = 0;
            let mut same = true;
            while same && x < n
                invariant
                    self.poset_inv(),
                    m == self.relation(),
                    n == m.len(),
                    a < n,
                    b < n,
                    c < n,
                    x <= n,
                    forall|y: int|
                        0 <= y < x ==> (#[trigger] m[y][c as int] == (m[y][a as int] && m[y][b as int])),
                    !same ==> x < n && m[x as int][c as int] != (m[x as int][a as int]
                        && m[x as int][b as int]),
                decreases n - x + (if same { 1int } else { 0int }),
            {
                let below_c = self.leq(x, c);
                let below_both = self.leq(x, a) && self.leq(x, b);
                if below_c != below_both {
                    same = false;
                } else {
                    x += 1;
                }
            }
            if same {
                return Some(c);
            }
            c += 1;
        }
        None
    }

    /// The first element whose upset is the intersection of the upsets of
    /// `a` and `b`, if there is one.
    fn maybe_join(&self, a: usize, b: usize) -> (r: Option<usize>)
        requires
            self.poset_inv(),
            a < self.relation().len(),
            b < self.relation().len(),
        ensures
            match r {
                Some(c) => is_first_join(self.relation(), a as int, b as int, c as int),
                None => !has_upset_join(self.relation(), a as int, b as int),
            },
    {
        let n = self.num_elements();
        let ghost m = self.relation();
        let mut c: usize = 0;
        while c < n
            invariant
                self.poset_inv(),
                m == self.relation(),
                n == m.len(),
                a < n,
                b < n,
                c <= n,
                forall|d: int| 0 <= d < c ==> !#[trigger] is_upset_join(m, a as int, b as int, d),
            decreases n - c,
        {
            let mut x: usize = 0;
            let mut same = true;
            while same && x < n
                invariant
                    self.poset_inv(),
                    m == self.relation(),
                    n == m.len(),
                    a < n,
                    b < n,
                    c < n,
                    x <= n,
                    forall|y: int|
                        0 <= y < x ==> (#[trigger] m[c as int][y] == (m[a as int][y] && m[b as int][y])),
                    !same ==> x < n && m[c as int][x as int] != (m[a as int][x as int]
                        && m[b as int][x as int]),
                decreases n - x + (if same { 1int } else { 0int }),
            {
                let above_c = self.leq(c, x);
                let above_both = self.leq(a, x) && self.leq(b, x);
                if above_c != above_both {
                    same = false;
                } else {
                    x += 1;
                }
            }
            if same {
                return Some(c);
            }
            c += 1;
        }
        None
    }
}

/// `s` lists, by increasing second component below `upto`, the pairs
/// `(a /\ x, x)` for the `x <= b`, where `a /\ x` is the first meet.
pub open spec fn lists_restriction_below(
    m: Seq<Seq<bool>>,
    a: int,
    b: int,
    s: Seq<(usize, usize)>,
    upto: int,
) -> bool {
    &&& forall|i: int, j: int| 0 <= i < j < s.len() ==> (#[trigger] s[i]).1 < (#[trigger] s[j]).1
    &&& forall|i: int|
        0 <= i < s.len() ==> {
            &&& (#[trigger] s[i]).1 < upto
            &&& m[s[i].1 as int][b]
            &&& is_first_meet(m, a, s[i].1 as int, s[i].0 as int)
        }
    &&& forall|x: int|
        0 <= x < upto && #[trigger] m[x][b] ==> exists|i: int| 0 <= i < s.len() && (#[trigger] s[i]).1 == x
}

/// `s` lists, by increasing second component, the pairs `(a /\ x, x)` for
/// all `x <= b`.
pub open spec fn lists_restriction(m: Seq<Seq<bool>>, a: int, b: int, s: Seq<(usize, usize)>) -> bool {
    lists_restriction_below(m, a, b, s, m.len() as int)
}

/// `s` lists, by increasing first component below `upto`, the pairs
/// `(x, b \/ x)` for the `x >= a`, where `b \/ x` is the first join.
pub open spec fn lists_corestriction_below(
    m: Seq<Seq<bool>>,
    a: int,
    b: int,
    s: Seq<(usize, usize)>,
    upto: int,
) -> bool {
    &&& forall|i: int, j: int| 0 <= i < j < s.len() ==> (#[trigger] s[i]).0 < (#[trigger] s[j]).0
    &&& forall|i: int|
        0 <= i < s.len() ==> {
            &&& (#[trigger] s[i]).0 < upto
            &&& m[a][s[i].0 as int]
            &&& is_first_join(m, b, s[i].0 as int, s[i].1 as int)
        }
    &&& forall|x: int|
        0 <= x < upto && #[trigger] m[a][x] ==> exists|i: int| 0 <= i < s.len() && (#[trigger] s[i]).0 == x
}

/// `s` lists, by increasing first component, the pairs `(x, b \/ x)` for
/// all `x >= a`.
pub open spec fn lists_corestriction(m: Seq<Seq<bool>>, a: int, b: int, s: Seq<(usize, usize)>) -> bool {
    lists_corestriction_below(m, a, b, s, m.len() as int)
}

/// A poset with a second relation `preceq`, which comes from an equivalence
/// relation on the relations of the poset.
pub trait IsCongPoset: IsPoset {
    /// The relation `preceq`: `congruence_order()[a][b]` holds when
    /// `a preceq b`.
    spec fn congruence_order(&self) -> Seq<Seq<bool>>;

    /// Whether `a preceq b`.
    fn preceq(&self, a: usize, b: usize) -> (r: bool)
        requires
            self.poset_inv(),
            a < self.relation().len(),
            b < self.relation().len(),
        ensures
            r == self.congruence_order()[a as int][b as int],
    ;

    /// Whether `a preceq b` and `b preceq a`.
    fn simeq(&self, a: usize, b: usize) -> (r: bool)
        requires
            self.poset_inv(),
            a < self.relation().len(),
            b < self.relation().len(),
        ensures
            r == (self.congruence_order()[a as int][b as int]
                && self.congruence_order()[b as int][a as int]),
    {
        self.preceq(a, b) && self.preceq(b, a)
    }

    /// The elements `x` with `a simeq x`.
    fn equivalence_class_element(&self, a: usize) -> (s: HashSet<usize>)
        requires
            self.poset_inv(),
            a < self.relation().len(),
        ensures
            s@ == Set::new(
                |x: usize|
                    x < self.relation().len() && self.congruence_order()[a as int][x as int]
                        && self.congruence_order()[x as int][a as int],
            ),
    {
        let n = self.num_elements();
        let ghost p = self.congruence_order();
        let mut class: HashSet<usize> = HashSet::new();
        let mut i: usize = 0;
        while i < n
            invariant
                self.poset_inv(),
                p == self.congruence_order(),
                n == self.relation().len(),
                a < n,
                i <= n,
                class@ == Set::new(|x: usize| x < i && p[a as int][x as int] && p[x as int][a as int]),
            decreases n - i,
        {
            if self.simeq(a, i) {
                class.insert(i);
            }
            assert(class@ =~= Set::new(
                |x: usize| x < i + 1 && p[a as int][x as int] && p[x as int][a as int],
            ));
            i += 1;
        }
        class
    }
}

/// A poset in which the needed meets and joins exist, with restrictions
/// and corestrictions.
pub trait IsLattice: IsPoset {
    /// The first element whose downset is the intersection of the downsets
    /// of `a` and `b`.
    fn meet(&self, a: usize, b: usize) -> (r: usize)
        requires
            self.poset_inv(),
            a < self.relation().len(),
            b < self.relation().len(),
            has_downset_meet(self.relation(), a as int, b as int),
        ensures
            is_first_meet(self.relation(), a as int, b as int, r as int),
    {
        let found = self.maybe_meet(a, b);
        found.unwrap()
    }

    /// The first element whose upset is the intersection of the upsets of
    /// `a` and `b`.
    fn join(&self, a: usize, b: usize) -> (r: usize)
        requires
            self.poset_inv(),
            a < self.relation().len(),
            b < self.relation().len(),
            has_upset_join(self.relation(), a as int, b as int),
        ensures
            is_first_join(self.relation(), a as int, b as int, r as int),
    {
        let found = self.maybe_join(a, b);
        found.unwrap()
    }

    /// The pairs `(a /\ x, x)` for the `x <= b`, by increasing `x`.
    fn restriction(&self, a: usize, b: usize) -> (r: Vec<(usize, usize)>)
        requires
            self.poset_inv(),
            a < self.relation().len(),
            b < self.relation().len(),
            self.relation()[a as int][b as int],
            forall|x: int|
                0 <= x < self.relation().len() && #[trigger] self.relation()[x][b as int]
                    ==> has_downset_meet(self.relation(), a as int, x),
        ensures
            lists_restriction(self.relation(), a as int, b as int, r@),
    {
        let n = self.num_elements();
        let ghost m = self.relation();
        let mut pairs: Vec<(usize, usize)> = Vec::new();
        let mut x: usize = 0;
        while x < n
            invariant
                self.poset_inv(),
                m == self.relation(),
                n == m.len(),
                a < n,
                b < n,
                x <= n,
                forall|y: int| 0 <= y < n && #[trigger] m[y][b as int] ==> has_downset_meet(m, a as int, y),
                lists_restriction_below(m, a as int, b as int, pairs@, x as int),
            decreases n - x,
        {
            if self.leq(x, b) {
                let c = self.meet(a, x);
                let ghost before = pairs@;
                pairs.push((c, x));
                proof {
                    assert forall|y: int| 0 <= y < x + 1 && #[trigger] m[y][b as int] implies exists|i: int|
                        0 <= i < pairs@.len() && (#[trigger] pairs@[i]).1 == y by {
                        if y == x {
                            assert(pairs@[pairs@.len() - 1].1 == y);
                        } else {
                            assert(m[y][b as int] ==> exists|i: int| 0 <= i < before.len() && (#[trigger] before[i]).1 == y);
                            let i = choose|i: int| 0 <= i < before.len() && (#[trigger] before[i]).1 == y;
                            assert(pairs@[i] == before[i]);
                        }
                    }
                }
            }
            x += 1;
        }
        pairs
    }

    /// The pairs `(x, b \/ x)` for the `x >= a`, by increasing `x`.
    fn corestriction(&self, a: usize, b: usize) -> (r: Vec<(usize, usize)>)
        requires
            self.poset_inv(),
            a < self.relation().len(),
            b < self.relation().len(),
            self.relation()[a as int][b as int],
            forall|x: int|
                0 <= x < self.relation().len() && #[trigger] self.relation()[a as int][x]
                    ==> has_upset_join(self.relation(), b as int, x),
        ensures
            lists_corestriction(self.relation(), a as int, b as int, r@),
    {
        let n = self.num_elements();
        let ghost m = self.relation();
        let mut pairs: Vec<(usize, usize)> = Vec::new();
        let mut x: usize = 0;
        while x < n
            invariant
                self.poset_inv(),
                m == self.relation(),
                n == m.len(),
                a < n,
                b < n,
                x <= n,
                forall|y: int| 0 <= y < n && #[trigger] m[a as int][y] ==> has_upset_join(m, b as int, y),
                lists_corestriction_below(m, a as int, b as int, pairs@, x as int),
            decreases n - x,
        {
            if self.leq(a, x) {
                let c = self.join(b, x);
                let ghost before = pairs@;
                pairs.push((x, c));
                proof {
                    assert forall|y: int| 0 <= y < x + 1 && #[trigger] m[a as int][y] implies exists|i: int|
                        0 <= i < pairs@.len() && (#[trigger] pairs@[i]).0 == y by {
                        if y == x {
                            assert(pairs@[pairs@.len() - 1].0 == y);
                        } else {
                            assert(m[a as int][y] ==> exists|i: int| 0 <= i < before.len() && (#[trigger] before[i]).0 == y);
                            let i = choose|i: int| 0 <= i < before.len() && (#[trigger] before[i]).0 == y;
                            assert(pairs@[i] == before[i]);
                        }
                    }
                }
            }
            x += 1;
        }
        pairs
    }
}

/// A lattice whose relations carry a congruence.
pub trait IsCongLattice: IsLattice + IsCongPoset {

}

/// A finite poset with labelled elements, stored as its order matrix and
/// the transpose of it.
#[derive(Debug, Clone, PartialEq, Eq, Default)]
pub struct Poset<A = String> {
    /// The element labels, in index order.
    pub elements: Vec<A>,
    partial_order: Vec<Vec<bool>>,
    partial_order_transposed: Vec<Vec<bool>>,
}

/// The relations given as index pairs, as edges.
pub open spec fn pair_edges(pairs: Seq<(usize, usize)>) -> Seq<Edge> {
    pairs.map_values(|p: (usize, usize)| Edge { from: p.0, to: p.1 })
}

/// The reflexive and transitive closure of the index pairs on `n` elements.
pub open spec fn pair_closure(pairs: Seq<(usize, usize)>, n: nat) -> Seq<Seq<bool>> {
    edge_closure(pair_edges(pairs), n)
}

impl<A> IsPoset for Poset<A> {
    closed spec fn poset_inv(&self) -> bool {
        let n = self.elements@.len();
        &&& is_square(bool_rows(self.partial_order@), n)
        &&& is_square(bool_rows(self.partial_order_transposed@), n)
        &&& forall|i: int, j: int|
            0 <= i < n && 0 <= j < n ==> #[trigger] self.partial_order_transposed@[j]@[i]
                == self.partial_order@[i]@[j]
    }

    closed spec fn relation(&self) -> Seq<Seq<bool>> {
        bool_rows(self.partial_order@)
    }

    fn num_elements(&self) -> (n: usize) {
        self.elements.len()
    }

    fn leq(&self, a: usize, b: usize) -> (r: bool) {
        assert(self.partial_order@[a as int]@ == self.relation()[a as int]);
        self.partial_order[a][b]
    }

    fn upset(&self, a: usize) -> (s: HashSet<usize>) {
        let ghost m = self.relation();
        let row = &self.partial_order[a];
        assert(row@ == m[a as int]);
        let mut upset: HashSet<usize> = HashSet::new();
        let mut i: usize = 0;
        while i < row.len()
            invariant
                row@ == m[a as int],
                row@.len() == m.len(),
                i <= row@.len(),
                upset@ == Set::new(|x: usize| x < i && m[a as int][x as int]),
            decreases row@.len() - i,
        {
            if row[i] {
                upset.insert(i);
            }
            assert(upset@ =~= Set::new(|x: usize| x < i + 1 && m[a as int][x as int]));
            i += 1;
        }
        assert(upset@ =~= upset_in(m, a as int));
        upset
    }

    fn downset(&self, a: usize) -> (s: HashSet<usize>) {
        let ghost m = self.relation();
        let ghost n = self.elements@.len();
        let column = &self.partial_order_transposed[a];
        assert(column@.len() == n) by {
            assert(bool_rows(self.partial_order_transposed@)[a as int] == column@);
        }
        let mut downset: HashSet<usize> = HashSet::new();
        let mut i: usize = 0;
        while i < column.len()
            invariant
                self.poset_inv(),
                m == self.relation(),
                n == self.elements@.len(),
                a < n,
                column == &self.partial_order_transposed@[a as int],
                column@.len() == n,
                i <= n,
                downset@ == Set::new(|x: usize| x < i && m[x as int][a as int]),
            decreases n - i,
        {
            assert(column@[i as int] == m[i as int][a as int]) by {
                assert(self.partial_order_transposed@[a as int]@[i as int]
                    == self.partial_order@[i as int]@[a as int]);
                assert(m[i as int] == self.partial_order@[i as int]@);
            }
            if column[i] {
                downset.insert(i);
            }
            assert(downset@ =~= Set::new(|x: usize| x < i + 1 && m[x as int][a as int]));
            i += 1;
        }
        assert(downset@ =~= downset_in(m, a as int));
        downset
    }
}

/// An `n` by `n` matrix of `false`.
fn false_rows(n: usize) -> (r: Vec<Vec<bool>>)
    ensures
        is_square(bool_rows(r@), n as nat),
        forall|i: int, j: int| 0 <= i < n && 0 <= j < n ==> !#[trigger] r@[i]@[j],
{
    let mut rows: Vec<Vec<bool>> = Vec::new();
    let mut i: usize = 0;
    while i < n
        invariant
            i <= n,
            rows@.len() == i,
            forall|k: int| 0 <= k < i ==> (#[trigger] rows@[k])@.len() == n,
            forall|k: int, j: int| 0 <= k < i && 0 <= j < n ==> !#[trigger] rows@[k]@[j],
        decreases n - i,
    {
        let mut row: Vec<bool> = Vec::new();
        let mut j: usize = 0;
        while j < n
            invariant
                j <= n,
                row@.len() == j,
                forall|l: int| 0 <= l < j ==> !#[trigger] row@[l],
            decreases n - j,
        {
            row.push(false);
            j += 1;
        }
        rows.push(row);
        i += 1;
    }
    assert forall|k: int| 0 <= k < n implies (#[trigger] bool_rows(rows@)[k]).len() == n by {
        assert(bool_rows(rows@)[k] == rows@[k]@);
    }
    rows
}

/// Warshall's algorithm, in place: afterwards `i <= j` whenever a chain of
/// relations leads from `i` to `j`.
fn close_transitively(relation: &mut Vec<Vec<bool>>)
    requires
        is_square(bool_rows(old(relation)@), old(relation)@.len()),
    ensures
        bool_rows(final(relation)@) == closure_upto(bool_rows(old(relation)@), old(relation)@.len()),
        final(relation)@.len() == old(relation)@.len(),
{
    let ghost m0 = bool_rows(relation@);
    let n = relation.len();
    let mut middle: usize = 0;
    while middle < n
        invariant
            n == relation@.len(),
            is_square(m0, n as nat),
            middle <= n,
            bool_rows(relation@) == closure_upto(m0, middle as nat),
            is_square(bool_rows(relation@), n as nat),
        decreases n - middle,
    {
        let ghost p = bool_rows(relation@);
        let ghost q = closure_step(p, middle as int);
        assert(p[middle as int] == relation@[middle as int]@);
        let middle_row = relation[middle].clone();
        assert(middle_row@ == p[middle as int]);
        let mut lower: usize = 0;
        while lower < n
            invariant
                n == relation@.len(),
                middle < n,
                lower <= n,
                is_square(p, n as nat),
                q == closure_step(p, middle as int),
                middle_row@ == p[middle as int],
                forall|i: int| 0 <= i < lower ==> (#[trigger] relation@[i])@ == q[i],
                forall|i: int| lower <= i < n ==> (#[trigger] relation@[i])@ == p[i],
            decreases n - lower,
        {
            assert(relation@[lower as int]@ == p[lower as int]);
            if relation[lower][middle] {
                let mut row = relation[lower].clone();
                let mut upper: usize = 0;
                while upper < n
                    invariant
                        n == relation@.len(),
                        lower < n,
                        middle < n,
                        upper <= n,
                        is_square(p, n as nat),
                        q == closure_step(p, middle as int),
                        middle_row@ == p[middle as int],
                        p[lower as int][middle as int],
                        row@.len() == n,
                        forall|j: int| 0 <= j < upper ==> #[trigger] row@[j] == q[lower as int][j],
                        forall|j: int| upper <= j < n ==> #[trigger] row@[j] == p[lower as int][j],
                    decreases n - upper,
                {
                    if middle_row[upper] {
                        row.set(upper, true);
                    }
                    upper += 1;
                }
                assert(row@ =~= q[lower as int]);
                relation.set(lower, row);
            } else {
                assert(relation@[lower as int]@ =~= q[lower as int]);
            }
            lower += 1;
        }
        assert(bool_rows(relation@) =~= q);
        middle += 1;
    }
}

impl<A> Poset<A> {
    /// The element labels, in index order.
    pub closed spec fn labels(&self) -> Seq<A> {
        self.elements@
    }

    /// Constructs a poset from its order matrix: `relation[i][j]` holds
    /// when `i <= j`.  The matrix must be a partial order on the elements.
    pub fn new(elements: Vec<A>, relation: Vec<Vec<bool>>) -> (r: Self)
        requires
            is_partial_order(bool_rows(relation@), elements@.len()),
        ensures
            r.poset_inv(),
            r.labels() == elements@,
            r.relation() == bool_rows(relation@),
    {
        Poset::new_unsafe(elements, relation)
    }

    /// Stores a square matrix together with its transpose.
    fn new_unsafe(elements: Vec<A>, relation: Vec<Vec<bool>>) -> (r: Self)
        requires
            is_square(bool_rows(relation@), elements@.len()),
        ensures
            r.poset_inv(),
            r.labels() == elements@,
            r.relation() == bool_rows(relation@),
    {
        let n = elements.len();
        let ghost m = bool_rows(relation@);
        let mut transposed: Vec<Vec<bool>> = Vec::new();
        let mut i: usize = 0;
        while i < n
            invariant
                n == elements@.len(),
                m == bool_rows(relation@),
                is_square(m, n as nat),
                i <= n,
                transposed@.len() == i,
                forall|k: int| 0 <= k < i ==> (#[trigger] transposed@[k])@.len() == n,
                forall|k: int, j: int| 0 <= k < i && 0 <= j < n ==> #[trigger] transposed@[k]@[j] == m[j][k],
            decreases n - i,
        {
            let mut column: Vec<bool> = Vec::new();
            let mut j: usize = 0;
            while j < n
                invariant
                    n == elements@.len(),
                    m == bool_rows(relation@),
                    is_square(m, n as nat),
                    i < n,
                    j <= n,
                    column@.len() == j,
                    forall|l: int| 0 <= l < j ==> #[trigger] column@[l] == m[l][i as int],
                decreases n - j,
            {
                assert(relation@[j as int]@ == m[j as int]);
                column.push(relation[j][i]);
                j += 1;
            }
            transposed.push(column);
            i += 1;
        }
        let r = Poset { elements, partial_order: relation, partial_order_transposed: transposed };
        assert(is_square(bool_rows(r.partial_order_transposed@), n as nat)) by {
            assert forall|k: int| 0 <= k < n implies (#[trigger] bool_rows(r.partial_order_transposed@)[k]).len() == n by {
                assert(bool_rows(r.partial_order_transposed@)[k] == transposed@[k]@);
            }
        }
        assert forall|a: int, b: int| 0 <= a < n && 0 <= b < n implies #[trigger] r.partial_order_transposed@[b]@[a]
            == r.partial_order@[a]@[b] by {
            assert(m[a] == r.partial_order@[a]@);
        }
        r
    }

    /// The poset generated by the given relations, given as pairs of
    /// indices into `elements`: the reflexive and transitive closure of
    /// them.  Every pair must be in range, and the closure antisymmetric.
    pub fn from_edges(elements: Vec<A>, edges: &[(usize, usize)]) -> (r: Self)
        requires
            forall|k: int| 0 <= k < edges@.len() ==> (#[trigger] edges@[k]).0 < elements@.len()
                && edges@[k].1 < elements@.len(),
            is_antisymmetric(pair_closure(edges@, elements@.len()), elements@.len()),
        ensures
            r.poset_inv(),
            r.labels() == elements@,
            r.relation() == pair_closure(edges@, elements@.len()),
            is_partial_order(r.relation(), elements@.len()),
    {
        let n = elements.len();
        let ghost es = pair_edges(edges@);
        let mut relation = false_rows(n);
        assert forall|r: int| 0 <= r < n implies (#[trigger] relation@[r])@.len() == n by {
            assert(bool_rows(relation@)[r] == relation@[r]@);
        }
        let mut i: usize = 0;
        while i < n
            invariant
                n == elements@.len(),
                relation@.len() == n,
                i <= n,
                forall|r: int| 0 <= r < n ==> (#[trigger] relation@[r])@.len() == n,
                forall|r: int, c: int|
                    0 <= r < n && 0 <= c < n ==> #[trigger] relation@[r]@[c] == (r == c && r < i),
            decreases n - i,
        {
            assert(bool_rows(relation@)[i as int] == relation@[i as int]@);
            let mut row = relation[i].clone();
            row.set(i, true);
            relation.set(i, row);
            i += 1;
        }
        let mut k: usize = 0;
        while k < edges.len()
            invariant
                n == elements@.len(),
                es == pair_edges(edges@),
                relation@.len() == n,
                k <= edges@.len(),
                forall|l: int| 0 <= l < edges@.len() ==> (#[trigger] edges@[l]).0 < n && edges@[l].1 < n,
                forall|r: int| 0 <= r < n ==> (#[trigger] relation@[r])@.len() == n,
                forall|r: int, c: int|
                    0 <= r < n && 0 <= c < n ==> #[trigger] relation@[r]@[c] == (r == c || exists|l: int|
                        0 <= l < k && (#[trigger] es[l]).from == r && es[l].to == c),
            decreases edges@.len() - k,
        {
            let (from, to) = edges[k];
            let ghost before = relation@;
            let mut row = relation[from].clone();
            row.set(to, true);
            relation.set(from, row);
            proof {
                assert(es[k as int] == (Edge { from, to }));
                assert forall|r: int, c: int| 0 <= r < n && 0 <= c < n implies #[trigger] relation@[r]@[c]
                    == (r == c || exists|l: int|
                    0 <= l < k + 1 && (#[trigger] es[l]).from == r && es[l].to == c) by {
                    if r == from && c == to {
                        assert(es[k as int].from == r && es[k as int].to == c);
                    } else {
                        assert(relation@[r]@[c] == before[r]@[c]);
                        if exists|l: int| 0 <= l < k + 1 && (#[trigger] es[l]).from == r && es[l].to == c {
                            let l = choose|l: int| 0 <= l < k + 1 && (#[trigger] es[l]).from == r && es[l].to == c;
                            assert(l < k);
                        }
                    }
                }
            }
            k += 1;
        }
        proof {
            assert(es.len() == edges@.len());
            assert(bool_rows(relation@) =~= edge_matrix(es, n as nat)) by {
                assert forall|r: int| 0 <= r < n implies #[trigger] bool_rows(relation@)[r] =~= edge_matrix(es, n as nat)[r] by {
                    assert(bool_rows(relation@)[r] == relation@[r]@);
                }
            }
        }
        close_transitively(&mut relation);
        proof {
            lemma_edge_closure_least(es, n as nat);
        }
        Poset::new_unsafe(elements, relation)
    }

    /// Whether `x` is below every element.
    pub fn is_bottom(&self, x: usize) -> (r: bool)
        requires
            self.poset_inv(),
            self.relation().len() == 0 || x < self.relation().len(),
        ensures
            r == forall|a: int| 0 <= a < self.relation().len() ==> #[trigger] self.relation()[x as int][a],
    {
        let n = self.num_elements();
        let mut a: usize = 0;
        while a < n
            invariant
                self.poset_inv(),
                n == self.relation().len(),
                n == 0 || x < n,
                a <= n,
                forall|b: int| 0 <= b < a ==> #[trigger] self.relation()[x as int][b],
            decreases n - a,
        {
            if !self.leq(x, a) {
                return false;
            }
            a += 1;
        }
        true
    }

    /// Whether `x` is above every element.
    pub fn is_top(&self, x: usize) -> (r: bool)
        requires
            self.poset_inv(),
            self.relation().len() == 0 || x < self.relation().len(),
        ensures
            r == forall|a: int| 0 <= a < self.relation().len() ==> #[trigger] self.relation()[a][x as int],
    {
        let n = self.num_elements();
        let mut a: usize = 0;
        while a < n
            invariant
                self.poset_inv(),
                n == self.relation().len(),
                n == 0 || x < n,
                a <= n,
                forall|b: int| 0 <= b < a ==> #[trigger] self.relation()[b][x as int],
            decreases n - a,
        {
            if !self.leq(a, x) {
                return false;
            }
            a += 1;
        }
        true
    }
}

/// A poset with the relation `preceq` coming from an equivalence relation
/// on its relations.
///
/// The equivalence relation is given as a list of entries: a relation
/// `(a, b)` and the list of relations equivalent to it.  A lookup takes
/// the first entry with the wanted key.
#[derive(Debug, Clone, PartialEq, Eq, Default)]
pub struct CongPoset<B: IsPoset> {
    /// The poset whose relations carry the equivalence relation.
    pub underlying_poset: B,
    equivalence_relation: Vec<((usize, usize), Vec<(usize, usize)>)>,
    preceq: Vec<Vec<bool>>,
}

/// The entries of an equivalence relation as sequences.
pub open spec fn class_entries(rel: Seq<((usize, usize), Vec<(usize, usize)>)>) -> Seq<
    ((usize, usize), Seq<(usize, usize)>),
> {
    rel.map_values(|e: ((usize, usize), Vec<(usize, usize)>)| (e.0, e.1@))
}

/// `i` is the first entry whose key is `key`.
pub open spec fn is_first_entry(
    rel: Seq<((usize, usize), Seq<(usize, usize)>)>,
    key: (usize, usize),
    i: int,
) -> bool {
    &&& 0 <= i < rel.len()
    &&& rel[i].0 == key
    &&& forall|j: int| 0 <= j < i ==> (#[trigger] rel[j]).0 != key
}

/// `a preceq b`: the class of `(a, a)` holds a relation `(a', _)` with
/// `a' <= b`.
pub open spec fn congruence_preceq(
    m: Seq<Seq<bool>>,
    rel: Seq<((usize, usize), Seq<(usize, usize)>)>,
    a: int,
    b: int,
) -> bool {
    exists|i: int|
        #[trigger] is_first_entry(rel, (a as usize, a as usize), i) && exists|k: int|
            0 <= k < rel[i].1.len() && #[trigger] m[rel[i].1[k].0 as int][b]
}

/// `a preceq b` holds whenever the class of `(a, a)`, its first entry,
/// holds a relation `(a', _)` with `a' <= b`, whether or not `a <= b`.
pub proof fn lemma_preceq_above_class_members(
    m: Seq<Seq<bool>>,
    rel: Seq<((usize, usize), Seq<(usize, usize)>)>,
    a: int,
    b: int,
    i: int,
    k: int,
)
    requires
        0 <= a <= usize::MAX,
        is_first_entry(rel, (a as usize, a as usize), i),
        0 <= k < rel[i].1.len(),
        m[rel[i].1[k].0 as int][b],
    ensures
        congruence_preceq(m, rel, a, b),
{
    assert(exists|k2: int| 0 <= k2 < rel[i].1.len() && #[trigger] m[rel[i].1[k2].0 as int][b]);
}

/// `a preceq b` holds only through the class of `(a, a)`: without an entry
/// for `(a, a)`, or when no relation `(a', _)` of its class has `a' <= b`,
/// `a` does not precede `b`.
pub proof fn lemma_preceq_needs_class_member(
    m: Seq<Seq<bool>>,
    rel: Seq<((usize, usize), Seq<(usize, usize)>)>,
    a: int,
    b: int,
)
    requires
        0 <= a <= usize::MAX,
        congruence_preceq(m, rel, a, b),
    ensures
        exists|i: int, k: int|
            0 <= i < rel.len() && rel[i].0 == (a as usize, a as usize) && 0 <= k < rel[i].1.len()
                && m[rel[i].1[k].0 as int][b],
{
    let i = choose|i: int| #[trigger] is_first_entry(rel, (a as usize, a as usize), i) && exists|k: int|
        0 <= k < rel[i].1.len() && #[trigger] m[rel[i].1[k].0 as int][b];
    let k = choose|k: int| 0 <= k < rel[i].1.len() && #[trigger] m[rel[i].1[k].0 as int][b];
}

/// Identities listed in each other's classes are equivalent: when the class
/// of `(a, a)` holds `(b, b)` and the class of `(b, b)` holds `(a, a)`,
/// then `a preceq b` and `b preceq a`, in any reflexive order, comparable
/// or not.
pub proof fn lemma_equivalent_identities_are_simeq(
    m: Seq<Seq<bool>>,
    rel: Seq<((usize, usize), Seq<(usize, usize)>)>,
    a: int,
    b: int,
    i: int,
    j: int,
)
    requires
        0 <= a < m.len(),
        0 <= b < m.len(),
        m.len() <= usize::MAX,
        forall|x: int| 0 <= x < m.len() ==> #[trigger] m[x][x],
        is_first_entry(rel, (a as usize, a as usize), i),
        is_first_entry(rel, (b as usize, b as usize), j),
        rel[i].1.contains((b as usize, b as usize)),
        rel[j].1.contains((a as usize, a as usize)),
    ensures
        congruence_preceq(m, rel, a, b),
        congruence_preceq(m, rel, b, a),
{
    let k = choose|k: int| 0 <= k < rel[i].1.len() && rel[i].1[k] == (b as usize, b as usize);
    assert(m[b][b]);
    lemma_preceq_above_class_members(m, rel, a, b, i, k);
    let t = choose|t: int| 0 <= t < rel[j].1.len() && rel[j].1[t] == (a as usize, a as usize);
    assert(m[a][a]);
    lemma_preceq_above_class_members(m, rel, b, a, j, t);
}

/// `(a, b)` comes before `(c, d)` in row-major order.
pub open spec fn pair_lt(p: (usize, usize), q: (usize, usize)) -> bool {
    p.0 < q.0 || (p.0 == q.0 && p.1 < q.1)
}

/// `s` lists in row-major order the entries `((x, y), [(x, y)])` for the
/// relations `x <= y` of `m` that come before `(a, b)`.
pub open spec fn lists_discrete_classes_before(
    m: Seq<Seq<bool>>,
    s: Seq<((usize, usize), Seq<(usize, usize)>)>,
    a: int,
    b: int,
) -> bool {
    &&& forall|i: int, j: int| 0 <= i < j < s.len() ==> pair_lt((#[trigger] s[i]).0, (#[trigger] s[j]).0)
    &&& forall|i: int|
        0 <= i < s.len() ==> {
            &&& pair_lt((#[trigger] s[i]).0, (a as usize, b as usize))
            &&& s[i].0.0 < m.len()
            &&& s[i].0.1 < m.len()
            &&& m[s[i].0.0 as int][s[i].0.1 as int]
            &&& s[i].1 == seq![s[i].0]
        }
    &&& forall|x: int, y: int|
        0 <= x < m.len() && 0 <= y < m.len() && pair_lt((x as usize, y as usize), (a as usize, b as usize))
            && #[trigger] m[x][y] ==> exists|i: int| 0 <= i < s.len() && (#[trigger] s[i]).0 == (x as usize, y as usize)
}

/// `s` lists in row-major order the entries `((a, b), [(a, b)])` for all
/// relations `a <= b` of `m`.
pub open spec fn lists_discrete_classes(
    m: Seq<Seq<bool>>,
    s: Seq<((usize, usize), Seq<(usize, usize)>)>,
) -> bool {
    lists_discrete_classes_before(m, s, m.len() as int, 0)
}

/// With the discrete equivalence, in which every relation `a <= b` is alone
/// in its class, the congruence order that the classes give is the order of
/// the poset: `a preceq b` exactly when `a <= b`.  So a congruence poset
/// built from the discrete classes has the same `preceq` as the discrete
/// congruence poset of the same poset.
pub proof fn lemma_discrete_classes_give_poset_order(
    m: Seq<Seq<bool>>,
    rel: Seq<((usize, usize), Seq<(usize, usize)>)>,
)
    requires
        is_partial_order(m, m.len()),
        m.len() <= usize::MAX,
        lists_discrete_classes(m, rel),
    ensures
        forall|a: int, b: int|
            0 <= a < m.len() && 0 <= b < m.len() ==> #[trigger] congruence_preceq(m, rel, a, b) == m[a][b],
{
    assert forall|a: int, b: int| 0 <= a < m.len() && 0 <= b < m.len() implies #[trigger] congruence_preceq(
        m,
        rel,
        a,
        b,
    ) == m[a][b] by {
        let key = (a as usize, a as usize);
        assert(m[a][a]);
        assert(pair_lt(key, (m.len() as usize, 0usize)));
        let i = choose|i: int| 0 <= i < rel.len() && (#[trigger] rel[i]).0 == key;
        assert(rel[i].1 == seq![rel[i].0]);
        assert forall|j: int| 0 <= j < i implies (#[trigger] rel[j]).0 != key by {
            assert(pair_lt(rel[j].0, rel[i].0));
        }
        assert(is_first_entry(rel, key, i));
        if m[a][b] {
            assert(rel[i].1[0].0 == a);
            assert(m[rel[i].1[0].0 as int][b]);
        } else {
            assert forall|i2: int| #[trigger] is_first_entry(rel, key, i2) implies !(exists|k: int|
                0 <= k < rel[i2].1.len() && #[trigger] m[rel[i2].1[k].0 as int][b]) by {
                if i2 < i {
                } else if i < i2 {
                    assert(rel[i].0 == key);
                } else {
                    assert forall|k: int| 0 <= k < rel[i2].1.len() implies !#[trigger] m[rel[i2].1[k].0 as int][b] by {
                        assert(k == 0);
                        assert(rel[i2].1[k].0 == a);
                    }
                }
            }
        }
    }
}

impl<B: IsPoset> CongPoset<B> {
    /// The equivalence relation, as its list of entries.
    pub closed spec fn classes(&self) -> Seq<((usize, usize), Seq<(usize, usize)>)> {
        class_entries(self.equivalence_relation@)
    }

    /// The underlying poset.
    pub closed spec fn underlying(&self) -> B {
        self.underlying_poset
    }
}

impl<B: IsPoset> IsPoset for CongPoset<B> {
    closed spec fn poset_inv(&self) -> bool {
        &&& self.underlying_poset.poset_inv()
        &&& is_square(bool_rows(self.preceq@), self.underlying_poset.relation().len())
    }

    closed spec fn relation(&self) -> Seq<Seq<bool>> {
        self.underlying_poset.relation()
    }

    fn num_elements(&self) -> (n: usize) {
        self.underlying_poset.num_elements()
    }

    fn leq(&self, a: usize, b: usize) -> (r: bool) {
        self.underlying_poset.leq(a, b)
    }

    fn upset(&self, a: usize) -> (s: HashSet<usize>) {
        self.underlying_poset.upset(a)
    }

    fn downset(&self, a: usize) -> (s: HashSet<usize>) {
        self.underlying_poset.downset(a)
    }
}

impl<B: IsPoset> IsCongPoset for CongPoset<B> {
    closed spec fn congruence_order(&self) -> Seq<Seq<bool>> {
        bool_rows(self.preceq@)
    }

    fn preceq(&self, a: usize, b: usize) -> (r: bool) {
        assert(bool_rows(self.preceq@)[a as int] == self.preceq@[a as int]@);
        self.preceq[a][b]
    }
}

impl<B: IsLattice> IsLattice for CongPoset<B> {
    fn meet(&self, a: usize, b: usize) -> (r: usize) {
        self.underlying_poset.meet(a, b)
    }

    fn join(&self, a: usize, b: usize) -> (r: usize) {
        self.underlying_poset.join(a, b)
    }

    fn restriction(&self, a: usize, b: usize) -> (r: Vec<(usize, usize)>) {
        self.underlying_poset.restriction(a, b)
    }

    fn corestriction(&self, a: usize, b: usize) -> (r: Vec<(usize, usize)>) {
        self.underlying_poset.corestriction(a, b)
    }
}

impl<B: IsPoset> CongPoset<B> {
    /// The congruence in which every relation is equivalent only to
    /// itself: `preceq` is the order of the poset.
    pub fn discrete_from_poset(poset: B) -> (r: Self)
        requires
            poset.poset_inv(),
        ensures
            r.poset_inv(),
            r.underlying() == poset,
            r.relation() == poset.relation(),
            forall|a: int, b: int|
                0 <= a < poset.relation().len() && 0 <= b < poset.relation().len()
                    ==> #[trigger] r.congruence_order()[a][b] == poset.relation()[a][b],
            lists_discrete_classes(poset.relation(), r.classes()),
    {
        let n = poset.num_elements();
        let ghost m = poset.relation();
        let mut equivalence_relation: Vec<((usize, usize), Vec<(usize, usize)>)> = Vec::new();
        let mut preceq: Vec<Vec<bool>> = Vec::new();
        let mut a: usize = 0;
        while a < n
            invariant
                poset.poset_inv(),
                m == poset.relation(),
                n == m.len(),
                a <= n,
                preceq@.len() == a,
                forall|i: int| 0 <= i < a ==> (#[trigger] preceq@[i])@.len() == n,
                forall|i: int, j: int| 0 <= i < a && 0 <= j < n ==> #[trigger] preceq@[i]@[j] == m[i][j],
                lists_discrete_classes_before(m, class_entries(equivalence_relation@), a as int, 0),
            decreases n - a,
        {
            let mut row: Vec<bool> = Vec::new();
            let mut b: usize = 0;
            while b < n
                invariant
                    poset.poset_inv(),
                    m == poset.relation(),
                    n == m.len(),
                    a < n,
                    b <= n,
                    row@.len() == b,
                    forall|j: int| 0 <= j < b ==> #[trigger] row@[j] == m[a as int][j],
                    lists_discrete_classes_before(m, class_entries(equivalence_relation@), a as int, b as int),
                decreases n - b,
            {
                let related = poset.leq(a, b);
                row.push(related);
                if related {
                    let ghost before = class_entries(equivalence_relation@);
                    let mut class: Vec<(usize, usize)> = Vec::new();
                    class.push((a, b));
                    equivalence_relation.push(((a, b), class));
                    proof {
                        let s = class_entries(equivalence_relation@);
                        assert(s =~= before.push(((a, b), seq![(a, b)])));
                        assert forall|x: int, y: int|
                            0 <= x < m.len() && 0 <= y < m.len() && pair_lt((x as usize, y as usize), (a, (b + 1) as usize))
                                && #[trigger] m[x][y] implies exists|i: int| 0 <= i < s.len() && (#[trigger] s[i]).0 == (x as usize, y as usize) by {
                            if x == a && y == b {
                                assert(s[before.len() as int].0 == (x as usize, y as usize));
                            } else {
                                assert(pair_lt((x as usize, y as usize), (a, b)));
                                let i = choose|i: int| 0 <= i < before.len() && (#[trigger] before[i]).0 == (x as usize, y as usize);
                                assert(s[i] == before[i]);
                            }
                        }
                    }
                } else {
                    proof {
                        let s = class_entries(equivalence_relation@);
                        assert forall|x: int, y: int|
                            0 <= x < m.len() && 0 <= y < m.len() && pair_lt((x as usize, y as usize), (a, (b + 1) as usize))
                                && #[trigger] m[x][y] implies exists|i: int| 0 <= i < s.len() && (#[trigger] s[i]).0 == (x as usize, y as usize) by {
                            assert(pair_lt((x as usize, y as usize), (a, b)));
                        }
                    }
                }
                b += 1;
            }
            proof {
                let s = class_entries(equivalence_relation@);
                assert forall|i: int| 0 <= i < s.len() implies pair_lt((#[trigger] s[i]).0, ((a + 1) as usize, 0usize)) by {}
                assert forall|x: int, y: int|
                    0 <= x < m.len() && 0 <= y < m.len() && pair_lt((x as usize, y as usize), ((a + 1) as usize, 0usize))
                        && #[trigger] m[x][y] implies exists|i: int| 0 <= i < s.len() && (#[trigger] s[i]).0 == (x as usize, y as usize) by {
                    assert(pair_lt((x as usize, y as usize), (a, n)));
                }
            }
            preceq.push(row);
            a += 1;
        }
        let r = CongPoset { underlying_poset: poset, equivalence_relation, preceq };
        assert(is_square(bool_rows(r.preceq@), n as nat)) by {
            assert forall|i: int| 0 <= i < n implies (#[trigger] bool_rows(r.preceq@)[i]).len() == n by {
                assert(bool_rows(r.preceq@)[i] == r.preceq@[i]@);
            }
        }
        assert forall|i: int, j: int| 0 <= i < n && 0 <= j < n implies #[trigger] r.congruence_order()[i][j] == m[i][j] by {
            assert(bool_rows(r.preceq@)[i] == r.preceq@[i]@);
        }
        r
    }

    /// The congruence given by `equivalence_relation`, a list of entries
    /// `(relation, class)`: `a preceq b` when the class of `(a, a)` holds a
    /// relation `(a', _)` with `a' <= b`.  The relations in the classes of
    /// the identities `(a, a)` must start at elements of the poset.
    pub fn from_poset(
        poset: B,
        equivalence_relation: Vec<((usize, usize), Vec<(usize, usize)>)>,
    ) -> (r: Self)
        requires
            poset.poset_inv(),
            forall|i: int, k: int|
                0 <= i < equivalence_relation@.len() && (#[trigger] equivalence_relation@[i]).0.0
                    == equivalence_relation@[i].0.1 && equivalence_relation@[i].0.0 < poset.relation().len()
                    && 0 <= k < equivalence_relation@[i].1@.len()
                    ==> (#[trigger] equivalence_relation@[i].1@[k]).0 < poset.relation().len(),
        ensures
            r.poset_inv(),
            r.underlying() == poset,
            r.relation() == poset.relation(),
            r.classes() == class_entries(equivalence_relation@),
            forall|a: int, b: int|
                0 <= a < poset.relation().len() && 0 <= b < poset.relation().len()
                    ==> #[trigger] r.congruence_order()[a][b] == congruence_preceq(
                    poset.relation(),
                    class_entries(equivalence_relation@),
                    a,
                    b,
                ),
    {
        let n = poset.num_elements();
        let ghost m = poset.relation();
        let ghost rel = class_entries(equivalence_relation@);
        let mut preceq: Vec<Vec<bool>> = Vec::new();
        let mut a: usize = 0;
        while a < n
            invariant
                poset.poset_inv(),
                m == poset.relation(),
                n == m.len(),
                rel == class_entries(equivalence_relation@),
                forall|i: int, k: int|
                    0 <= i < equivalence_relation@.len() && (#[trigger] equivalence_relation@[i]).0.0
                        == equivalence_relation@[i].0.1 && equivalence_relation@[i].0.0 < n
                        && 0 <= k < equivalence_relation@[i].1@.len()
                        ==> (#[trigger] equivalence_relation@[i].1@[k]).0 < n,
                a <= n,
                preceq@.len() == a,
                forall|i: int| 0 <= i < a ==> (#[trigger] preceq@[i])@.len() == n,
                forall|i: int, j: int|
                    0 <= i < a && 0 <= j < n ==> #[trigger] preceq@[i]@[j] == congruence_preceq(m, rel, i, j),
            decreases n - a,
        {
            let mut row: Vec<bool> = Vec::new();
            let mut b: usize = 0;
            while b < n
                invariant
                    poset.poset_inv(),
                    m == poset.relation(),
                    n == m.len(),
                    rel == class_entries(equivalence_relation@),
                    forall|i: int, k: int|
                        0 <= i < equivalence_relation@.len() && (#[trigger] equivalence_relation@[i]).0.0
                            == equivalence_relation@[i].0.1 && equivalence_relation@[i].0.0 < n
                            && 0 <= k < equivalence_relation@[i].1@.len()
                            ==> (#[trigger] equivalence_relation@[i].1@[k]).0 < n,
                    a < n,
                    b <= n,
                    row@.len() == b,
                    forall|j: int| 0 <= j < b ==> #[trigger] row@[j] == congruence_preceq(m, rel, a as int, j),
                decreases n - b,
            {
                let related = class_reaches(&poset, &equivalence_relation, a, b);
                row.push(related);
                b += 1;
            }
            preceq.push(row);
            a += 1;
        }
        let r = CongPoset { underlying_poset: poset, equivalence_relation, preceq };
        assert(is_square(bool_rows(r.preceq@), n as nat)) by {
            assert forall|i: int| 0 <= i < n implies (#[trigger] bool_rows(r.preceq@)[i]).len() == n by {
                assert(bool_rows(r.preceq@)[i] == r.preceq@[i]@);
            }
        }
        assert forall|i: int, j: int| 0 <= i < n && 0 <= j < n implies #[trigger] r.congruence_order()[i][j]
            == congruence_preceq(m, rel, i, j) by {
            assert(bool_rows(r.preceq@)[i] == r.preceq@[i]@);
        }
        r
    }
}

/// Whether the class of `(a, a)` holds a relation `(a', _)` with `a' <= b`.
fn class_reaches<B: IsPoset>(
    poset: &B,
    equivalence_relation: &Vec<((usize, usize), Vec<(usize, usize)>)>,
    a: usize,
    b: usize,
) -> (r: bool)
    requires
        poset.poset_inv(),
        a < poset.relation().len(),
        b < poset.relation().len(),
        forall|i: int, k: int|
            0 <= i < equivalence_relation@.len() && (#[trigger] equivalence_relation@[i]).0.0
                == equivalence_relation@[i].0.1 && equivalence_relation@[i].0.0 < poset.relation().len()
                && 0 <= k < equivalence_relation@[i].1@.len()
                ==> (#[trigger] equivalence_relation@[i].1@[k]).0 < poset.relation().len(),
    ensures
        r == congruence_preceq(poset.relation(), class_entries(equivalence_relation@), a as int, b as int),
{
    let ghost m = poset.relation();
    let ghost rel = class_entries(equivalence_relation@);
    let mut i: usize = 0;
    let mut found = false;
    while !found && i < equivalence_relation.len()
        invariant
            rel == class_entries(equivalence_relation@),
            i <= equivalence_relation@.len(),
            forall|j: int| 0 <= j < i ==> (#[trigger] rel[j]).0 != (a, a),
            found ==> i < equivalence_relation@.len() && rel[i as int].0 == (a, a),
        decreases equivalence_relation@.len() - i + (if found { 0int } else { 1int }),
    {
        let key = equivalence_relation[i].0;
        assert(rel[i as int].0 == key);
        if key.0 == a && key.1 == a {
            found = true;
        } else {
            i += 1;
        }
    }
    if i == equivalence_relation.len() {
        assert(!congruence_preceq(m, rel, a as int, b as int)) by {
            if congruence_preceq(m, rel, a as int, b as int) {
                let j = choose|j: int| #[trigger] is_first_entry(rel, (a, a), j) && exists|k: int|
                    0 <= k < rel[j].1.len() && #[trigger] m[rel[j].1[k].0 as int][b as int];
                assert(rel[j].0 == (a, a));
            }
        }
        return false;
    }
    assert(is_first_entry(rel, (a, a), i as int));
    let class = &equivalence_relation[i].1;
    assert(class@ == rel[i as int].1);
    let mut k: usize = 0;
    while k < class.len()
        invariant
            poset.poset_inv(),
            m == poset.relation(),
            a < m.len(),
            b < m.len(),
            rel == class_entries(equivalence_relation@),
            i < equivalence_relation@.len(),
            equivalence_relation@[i as int].0 == (a, a),
            class@ == rel[i as int].1,
            class == &equivalence_relation@[i as int].1,
            is_first_entry(rel, (a, a), i as int),
            forall|k2: int| 0 <= k2 < class@.len() ==> (#[trigger] class@[k2]).0 < m.len(),
            k <= class@.len(),
            forall|l: int| 0 <= l < k ==> !#[trigger] m[class@[l].0 as int][b as int],
        decreases class@.len() - k,
    {
        if poset.leq(class[k].0, b) {
            assert(rel[i as int].1[k as int] == class@[k as int]);
            assert(m[rel[i as int].1[k as int].0 as int][b as int]);
            assert(exists|k2: int|
                0 <= k2 < rel[i as int].1.len() && #[trigger] m[rel[i as int].1[k2].0 as int][b as int]);
            assert(is_first_entry(rel, ((a as int) as usize, (a as int) as usize), i as int));
            assert(congruence_preceq(m, rel, a as int, b as int));
            return true;
        }
        k += 1;
    }
    assert(!congruence_preceq(m, rel, a as int, b as int)) by {
        if congruence_preceq(m, rel, a as int, b as int) {
            let j = choose|j: int| #[trigger] is_first_entry(rel, (a, a), j) && exists|k: int|
                0 <= k < rel[j].1.len() && #[trigger] m[rel[j].1[k].0 as int][b as int];
            if j < i {
                assert(rel[j].0 != (a, a));
            } else if j > i {
                assert(rel[i as int].0 != (a, a));
            }
        }
    }
    false
}

/// A lattice over a poset, with its meets, joins, restrictions and
/// corestrictions computed once.
#[derive(Debug, Clone, PartialEq, Eq, Default)]
pub struct Lattice<B: IsPoset> {
    /// The poset whose meets and joins are stored.
    pub underlying_poset: B,
    meets: Vec<Vec<usize>>,
    joins: Vec<Vec<usize>>,
    restrictions: Vec<Vec<Vec<(usize, usize)>>>,
    corestrictions: Vec<Vec<Vec<(usize, usize)>>>,
}

/// `t` is the table of first meets of `m`.
pub open spec fn is_meet_table(m: Seq<Seq<bool>>, t: Seq<Vec<usize>>) -> bool {
    &&& t.len() == m.len()
    &&& forall|a: int| 0 <= a < m.len() ==> (#[trigger] t[a])@.len() == m.len()
    &&& forall|a: int, b: int|
        0 <= a < m.len() && 0 <= b < m.len() ==> is_first_meet(m, a, b, #[trigger] t[a]@[b] as int)
}

/// `t` is the table of first joins of `m`.
pub open spec fn is_join_table(m: Seq<Seq<bool>>, t: Seq<Vec<usize>>) -> bool {
    &&& t.len() == m.len()
    &&& forall|a: int| 0 <= a < m.len() ==> (#[trigger] t[a])@.len() == m.len()
    &&& forall|a: int, b: int|
        0 <= a < m.len() && 0 <= b < m.len() ==> is_first_join(m, a, b, #[trigger] t[a]@[b] as int)
}

/// Every pair of elements has a meet and a join.
pub open spec fn has_all_bounds(m: Seq<Seq<bool>>) -> bool {
    forall|a: int, b: int|
        0 <= a < m.len() && 0 <= b < m.len() ==> #[trigger] has_downset_meet(m, a, b)
            && has_upset_join(m, a, b)
}

/// `t` holds, for every relation `a <= c`, the restriction list of `a` and
/// `c`.
pub open spec fn is_restriction_table(m: Seq<Seq<bool>>, t: Seq<Vec<Vec<(usize, usize)>>>) -> bool {
    &&& t.len() == m.len()
    &&& forall|a: int| 0 <= a < m.len() ==> (#[trigger] t[a])@.len() == m.len()
    &&& forall|a: int, c: int|
        0 <= a < m.len() && 0 <= c < m.len() && m[a][c] ==> lists_restriction(m, a, c, (#[trigger] t[a]@[c])@)
}

/// `t` holds, for every relation `c <= b`, the corestriction list of `c`
/// and `b`.
pub open spec fn is_corestriction_table(m: Seq<Seq<bool>>, t: Seq<Vec<Vec<(usize, usize)>>>) -> bool {
    &&& t.len() == m.len()
    &&& forall|a: int| 0 <= a < m.len() ==> (#[trigger] t[a])@.len() == m.len()
    &&& forall|c: int, b: int|
        0 <= c < m.len() && 0 <= b < m.len() && m[c][b] ==> lists_corestriction(m, c, b, (#[trigger] t[c]@[b])@)
}

impl<B: IsPoset> Lattice<B> {
    /// The underlying poset.
    pub closed spec fn underlying(&self) -> B {
        self.underlying_poset
    }
}

impl<B: IsPoset> IsPoset for Lattice<B> {
    closed spec fn poset_inv(&self) -> bool {
        let m = self.underlying_poset.relation();
        &&& self.underlying_poset.poset_inv()
        &&& is_meet_table(m, self.meets@)
        &&& is_join_table(m, self.joins@)
        &&& is_restriction_table(m, self.restrictions@)
        &&& is_corestriction_table(m, self.corestrictions@)
    }

    closed spec fn relation(&self) -> Seq<Seq<bool>> {
        self.underlying_poset.relation()
    }

    fn num_elements(&self) -> (n: usize) {
        self.underlying_poset.num_elements()
    }

    fn leq(&self, a: usize, b: usize) -> (r: bool) {
        self.underlying_poset.leq(a, b)
    }

    fn upset(&self, a: usize) -> (s: HashSet<usize>) {
        self.underlying_poset.upset(a)
    }

    fn downset(&self, a: usize) -> (s: HashSet<usize>) {
        self.underlying_poset.downset(a)
    }
}

/// A copy of a list of pairs.
fn copy_pairs(pairs: &Vec<(usize, usize)>) -> (r: Vec<(usize, usize)>)
    ensures
        r@ == pairs@,
{
    let mut r: Vec<(usize, usize)> = Vec::new();
    let mut i: usize = 0;
    while i < pairs.len()
        invariant
            i <= pairs@.len(),
            r@ == pairs@.subrange(0, i as int),
        decreases pairs@.len() - i,
    {
        r.push(pairs[i]);
        i += 1;
        assert(r@ =~= pairs@.subrange(0, i as int));
    }
    assert(r@ =~= pairs@);
    r
}

impl<B: IsPoset> IsLattice for Lattice<B> {
    fn meet(&self, a: usize, b: usize) -> (r: usize) {
        self.meets[a][b]
    }

    fn join(&self, a: usize, b: usize) -> (r: usize) {
        self.joins[a][b]
    }

    fn restriction(&self, a: usize, b: usize) -> (r: Vec<(usize, usize)>) {
        copy_pairs(&self.restrictions[a][b])
    }

    fn corestriction(&self, a: usize, b: usize) -> (r: Vec<(usize, usize)>) {
        copy_pairs(&self.corestrictions[a][b])
    }
}

/// The table of first meets of a poset in which all meets exist.
fn meet_table<B: IsPoset>(poset: &B) -> (t: Vec<Vec<usize>>)
    requires
        poset.poset_inv(),
        has_all_bounds(poset.relation()),
    ensures
        is_meet_table(poset.relation(), t@),
{
    let n = poset.num_elements();
    let ghost m = poset.relation();
    let mut t: Vec<Vec<usize>> = Vec::new();
    let mut a: usize = 0;
    while a < n
        invariant
            poset.poset_inv(),
            m == poset.relation(),
            n == m.len(),
            has_all_bounds(m),
            a <= n,
            t@.len() == a,
            forall|i: int| 0 <= i < a ==> (#[trigger] t@[i])@.len() == n,
            forall|i: int, j: int| 0 <= i < a && 0 <= j < n ==> is_first_meet(m, i, j, #[trigger] t@[i]@[j] as int),
        decreases n - a,
    {
        let mut row: Vec<usize> = Vec::new();
        let mut b: usize = 0;
        while b < n
            invariant
                poset.poset_inv(),
                m == poset.relation(),
                n == m.len(),
                has_all_bounds(m),
                a < n,
                b <= n,
                row@.len() == b,
                forall|j: int| 0 <= j < b ==> is_first_meet(m, a as int, j, #[trigger] row@[j] as int),
            decreases n - b,
        {
            assert(has_downset_meet(m, a as int, b as int));
            let c = poset.maybe_meet(a, b).unwrap();
            row.push(c);
            b += 1;
        }
        t.push(row);
        a += 1;
    }
    t
}

/// The table of first joins of a poset in which all joins exist.
fn join_table<B: IsPoset>(poset: &B) -> (t: Vec<Vec<usize>>)
    requires
        poset.poset_inv(),
        has_all_bounds(poset.relation()),
    ensures
        is_join_table(poset.relation(), t@),
{
    let n = poset.num_elements();
    let ghost m = poset.relation();
    let mut t: Vec<Vec<usize>> = Vec::new();
    let mut a: usize = 0;
    while a < n
        invariant
            poset.poset_inv(),
            m == poset.relation(),
            n == m.len(),
            has_all_bounds(m),
            a <= n,
            t@.len() == a,
            forall|i: int| 0 <= i < a ==> (#[trigger] t@[i])@.len() == n,
            forall|i: int, j: int| 0 <= i < a && 0 <= j < n ==> is_first_join(m, i, j, #[trigger] t@[i]@[j] as int),
        decreases n - a,
    {
        let mut row: Vec<usize> = Vec::new();
        let mut b: usize = 0;
        while b < n
            invariant
                poset.poset_inv(),
                m == poset.relation(),
                n == m.len(),
                has_all_bounds(m),
                a < n,
                b <= n,
                row@.len() == b,
                forall|j: int| 0 <= j < b ==> is_first_join(m, a as int, j, #[trigger] row@[j] as int),
            decreases n - b,
        {
            assert(has_downset_meet(m, a as int, b as int) && has_upset_join(m, a as int, b as int));
            let c = poset.maybe_join(a, b).unwrap();
            row.push(c);
            b += 1;
        }
        t.push(row);
        a += 1;
    }
    t
}

/// The pairs `(a /\ x, x)` for the `x <= c`, read off the meet table.
fn restriction_list<B: IsPoset>(poset: &B, meets: &Vec<Vec<usize>>, a: usize, c: usize) -> (r: Vec<(usize, usize)>)
    requires
        poset.poset_inv(),
        is_meet_table(poset.relation(), meets@),
        a < poset.relation().len(),
        c < poset.relation().len(),
    ensures
        lists_restriction(poset.relation(), a as int, c as int, r@),
{
    let n = poset.num_elements();
    let ghost m = poset.relation();
    let mut pairs: Vec<(usize, usize)> = Vec::new();
    let mut x: usize = 0;
    while x < n
        invariant
            poset.poset_inv(),
            m == poset.relation(),
            n == m.len(),
            is_meet_table(m, meets@),
            a < n,
            c < n,
            x <= n,
            lists_restriction_below(m, a as int, c as int, pairs@, x as int),
        decreases n - x,
    {
        if poset.leq(x, c) {
            assert(meets@[a as int]@.len() == n);
            let meet = meets[a][x];
            assert(is_first_meet(m, a as int, x as int, meets@[a as int]@[x as int] as int));
            let ghost before = pairs@;
            pairs.push((meet, x));
            proof {
                assert forall|y: int| 0 <= y < x + 1 && #[trigger] m[y][c as int] implies exists|i: int|
                    0 <= i < pairs@.len() && (#[trigger] pairs@[i]).1 == y by {
                    if y == x {
                        assert(pairs@[pairs@.len() - 1].1 == y);
                    } else {
                        let i = choose|i: int| 0 <= i < before.len() && (#[trigger] before[i]).1 == y;
                        assert(pairs@[i] == before[i]);
                    }
                }
            }
        }
        x += 1;
    }
    pairs
}

/// The pairs `(x, b \/ x)` for the `x >= c`, read off the join table.
fn corestriction_list<B: IsPoset>(poset: &B, joins: &Vec<Vec<usize>>, c: usize, b: usize) -> (r: Vec<(usize, usize)>)
    requires
        poset.poset_inv(),
        is_join_table(poset.relation(), joins@),
        c < poset.relation().len(),
        b < poset.relation().len(),
    ensures
        lists_corestriction(poset.relation(), c as int, b as int, r@),
{
    let n = poset.num_elements();
    let ghost m = poset.relation();
    let mut pairs: Vec<(usize, usize)> = Vec::new();
    let mut x: usize = 0;
    while x < n
        invariant
            poset.poset_inv(),
            m == poset.relation(),
            n == m.len(),
            is_join_table(m, joins@),
            c < n,
            b < n,
            x <= n,
            lists_corestriction_below(m, c as int, b as int, pairs@, x as int),
        decreases n - x,
    {
        if poset.leq(c, x) {
            assert(joins@[b as int]@.len() == n);
            let join = joins[b][x];
            assert(is_first_join(m, b as int, x as int, joins@[b as int]@[x as int] as int));
            let ghost before = pairs@;
            pairs.push((x, join));
            proof {
                assert forall|y: int| 0 <= y < x + 1 && #[trigger] m[c as int][y] implies exists|i: int|
                    0 <= i < pairs@.len() && (#[trigger] pairs@[i]).0 == y by {
                    if y == x {
                        assert(pairs@[pairs@.len() - 1].0 == y);
                    } else {
                        let i = choose|i: int| 0 <= i < before.len() && (#[trigger] before[i]).0 == y;
                        assert(pairs@[i] == before[i]);
                    }
                }
            }
        }
        x += 1;
    }
    pairs
}

impl<B: IsPoset> Lattice<B> {
    /// Computes every meet, join, restriction and corestriction of a poset
    /// in which all meets and joins exist.
    pub fn from_poset(poset: B) -> (r: Self)
        requires
            poset.poset_inv(),
            has_all_bounds(poset.relation()),
        ensures
            r.poset_inv(),
            r.underlying() == poset,
            r.relation() == poset.relation(),
    {
        let n = poset.num_elements();
        let ghost m = poset.relation();
        let meets = meet_table(&poset);
        let joins = join_table(&poset);
        let mut restrictions: Vec<Vec<Vec<(usize, usize)>>> = Vec::new();
        let mut corestrictions: Vec<Vec<Vec<(usize, usize)>>> = Vec::new();
        let mut a: usize = 0;
        while a < n
            invariant
                poset.poset_inv(),
                m == poset.relation(),
                n == m.len(),
                is_meet_table(m, meets@),
                is_join_table(m, joins@),
                a <= n,
                restrictions@.len() == a,
                corestrictions@.len() == a,
                forall|i: int| 0 <= i < a ==> (#[trigger] restrictions@[i])@.len() == n,
                forall|i: int| 0 <= i < a ==> (#[trigger] corestrictions@[i])@.len() == n,
                forall|i: int, j: int|
                    0 <= i < a && 0 <= j < n && m[i][j] ==> lists_restriction(m, i, j, (#[trigger] restrictions@[i]@[j])@),
                forall|i: int, j: int|
                    0 <= i < a && 0 <= j < n && m[i][j] ==> lists_corestriction(m, i, j, (#[trigger] corestrictions@[i]@[j])@),
            decreases n - a,
        {
            let mut restriction_row: Vec<Vec<(usize, usize)>> = Vec::new();
            let mut corestriction_row: Vec<Vec<(usize, usize)>> = Vec::new();
            let mut c: usize = 0;
            while c < n
                invariant
                    poset.poset_inv(),
                    m == poset.relation(),
                    n == m.len(),
                    is_meet_table(m, meets@),
                    is_join_table(m, joins@),
                    a < n,
                    c <= n,
                    restriction_row@.len() == c,
                    corestriction_row@.len() == c,
                    forall|j: int| 0 <= j < c && m[a as int][j] ==> lists_restriction(m, a as int, j, (#[trigger] restriction_row@[j])@),
                    forall|j: int| 0 <= j < c && m[a as int][j] ==> lists_corestriction(m, a as int, j, (#[trigger] corestriction_row@[j])@),
                decreases n - c,
            {
                if poset.leq(a, c) {
                    restriction_row.push(restriction_list(&poset, &meets, a, c));
                    corestriction_row.push(corestriction_list(&poset, &joins, a, c));
                } else {
                    restriction_row.push(Vec::new());
                    corestriction_row.push(Vec::new());
                }
                c += 1;
            }
            restrictions.push(restriction_row);
            corestrictions.push(corestriction_row);
            a += 1;
        }
        Lattice { underlying_poset: poset, meets, joins, restrictions, corestrictions }
    }
}

/// A congruence lattice: a poset that is both a lattice and carries a
/// congruence.
#[derive(Debug, Clone, PartialEq, Eq, Default)]
pub struct CongLattice<B: IsCongPoset + IsLattice>(B);

impl<B: IsCongPoset + IsLattice> IsPoset for CongLattice<B> {
    closed spec fn poset_inv(&self) -> bool {
        self.0.poset_inv()
    }

    closed spec fn relation(&self) -> Seq<Seq<bool>> {
        self.0.relation()
    }

    fn num_elements(&self) -> (n: usize) {
        self.0.num_elements()
    }

    fn leq(&self, a: usize, b: usize) -> (r: bool) {
        self.0.leq(a, b)
    }

    fn upset(&self, a: usize) -> (s: HashSet<usize>) {
        self.0.upset(a)
    }

    fn downset(&self, a: usize) -> (s: HashSet<usize>) {
        self.0.downset(a)
    }
}

impl<B: IsCongPoset + IsLattice> IsCongPoset for CongLattice<B> {
    closed spec fn congruence_order(&self) -> Seq<Seq<bool>> {
        self.0.congruence_order()
    }

    fn preceq(&self, a: usize, b: usize) -> (r: bool) {
        self.0.preceq(a, b)
    }

    fn simeq(&self, a: usize, b: usize) -> (r: bool) {
        self.0.simeq(a, b)
    }

    fn equivalence_class_element(&self, a: usize) -> (s: HashSet<usize>) {
        self.0.equivalence_class_element(a)
    }
}

impl<B: IsCongPoset + IsLattice> IsLattice for CongLattice<B> {
    fn meet(&self, a: usize, b: usize) -> (r: usize) {
        self.0.meet(a, b)
    }

    fn join(&self, a: usize, b: usize) -> (r: usize) {
        self.0.join(a, b)
    }

    fn restriction(&self, a: usize, b: usize) -> (r: Vec<(usize, usize)>) {
        self.0.restriction(a, b)
    }

    fn corestriction(&self, a: usize, b: usize) -> (r: Vec<(usize, usize)>) {
        self.0.corestriction(a, b)
    }
}

/// In a partial order, an element has as downset the intersection of the
/// downsets of `a` and `b` exactly when it is their greatest lower bound,
/// and as upset the intersection of their upsets exactly when it is their
/// least upper bound; so the first meet and join found are the meet and
/// join, and no other element qualifies.
pub proof fn lemma_first_bounds_are_lattice_bounds(m: Seq<Seq<bool>>, a: int, b: int, c: int)
    requires
        is_partial_order(m, m.len()),
        0 <= a < m.len(),
        0 <= b < m.len(),
        0 <= c < m.len(),
    ensures
        is_downset_meet(m, a, b, c) <==> is_meet(m, m.len(), a, b, c),
        is_upset_join(m, a, b, c) <==> is_join(m, m.len(), a, b, c),
        is_first_meet(m, a, b, c) <==> is_meet(m, m.len(), a, b, c),
        is_first_join(m, a, b, c) <==> is_join(m, m.len(), a, b, c),
{
    let n = m.len();
    if is_downset_meet(m, a, b, c) {
        assert(m[c][c]);
        assert(m[c][a] && m[c][b]);
    }
    if is_meet(m, n, a, b, c) {
        assert forall|x: int| 0 <= x < n implies (#[trigger] m[x][c] == (m[x][a] && m[x][b])) by {
            if m[x][c] {
                assert(m[x][a] && m[x][b]);
            }
        }
    }
    if is_upset_join(m, a, b, c) {
        assert(m[c][c]);
        assert(m[a][c] && m[b][c]);
    }
    if is_join(m, n, a, b, c) {
        assert forall|x: int| 0 <= x < n implies (#[trigger] m[c][x] == (m[a][x] && m[b][x])) by {
            if m[c][x] {
                assert(m[a][x] && m[b][x]);
            }
        }
    }
    assert forall|d: int| 0 <= d < c implies !#[trigger] is_downset_meet(m, a, b, d) <== is_meet(m, n, a, b, c) by {
        if is_meet(m, n, a, b, c) && is_downset_meet(m, a, b, d) {
            assert(m[d][d]);
            assert(is_meet(m, n, a, b, d));
            lemma_bounds_unique(m, n, a, b, c, d);
        }
    }
    assert forall|d: int| 0 <= d < c implies !#[trigger] is_upset_join(m, a, b, d) <== is_join(m, n, a, b, c) by {
        if is_join(m, n, a, b, c) && is_upset_join(m, a, b, d) {
            assert(m[d][d]);
            assert(is_join(m, n, a, b, d));
            lemma_bounds_unique(m, n, a, b, c, d);
        }
    }
}

} // verus!
