//! Ordered pairs of element ids and finite sets of them.
//!
//! An [`Edge`] `from -> to` stands for the relation `from <= to`.  An
//! [`EdgeSet`] is a finite set of edges, modelled by `Set<Edge>`.

use vstd::prelude::*;

verus! {

/// The stable index of an element in a finite poset.
pub type ElementId = usize;

/// An ordered relation `from <= to` between elements of a poset.
#[derive(Debug, Clone, Copy, PartialEq, Eq, Structural, Hash, PartialOrd, Ord)]
pub struct Edge {
    /// The lower element of the relation.
    pub from: ElementId,
    /// The upper element of the relation.
    pub to: ElementId,
}

impl Edge {
    /// Constructs the relation `from <= to`.
    pub fn new(from: ElementId, to: ElementId) -> (r: Self)
        ensures
            r == (Edge { from, to }),
    {
        Edge { from, to }
    }

    /// Returns whether this relation is an identity relation `x <= x`.
    pub fn is_identity(self) -> (r: bool)
        ensures
            r == (self.from == self.to),
    {
        self.from == self.to
    }
}

/// A finite set of ordered relations.
///
/// The edges are stored once each, in insertion order.
#[derive(Debug)]
pub struct EdgeSet {
    edges: Vec<Edge>,
}

impl View for EdgeSet {
    type V = Set<Edge>;

    closed spec fn view(&self) -> Set<Edge> {
        self.edges@.to_set()
    }
}

impl EdgeSet {
    #[verifier::type_invariant]
    spec fn stored_once(&self) -> bool {
        self.edges@.no_duplicates()
    }

    /// The empty set of edges.
    pub fn new() -> (r: Self)
        ensures
            r@ == Set::<Edge>::empty(),
    {
        let r = EdgeSet { edges: Vec::new() };
        assert(r.edges@.to_set() =~= Set::<Edge>::empty());
        r
    }

    /// Returns whether `edge` belongs to the set.
    pub fn contains(&self, edge: &Edge) -> (r: bool)
        ensures
            r == self@.contains(*edge),
    {
        let mut i: usize = 0;
        while i < self.edges.len()
            invariant
                i <= self.edges@.len(),
                forall|k: int| 0 <= k < i ==> self.edges@[k] != *edge,
            decreases self.edges@.len() - i,
        {
            if self.edges[i] == *edge {
                return true;
            }
            i += 1;
        }
        false
    }

    /// Adds `edge`; returns whether it was absent before.
    pub fn insert(&mut self, edge: Edge) -> (r: bool)
        ensures
            final(self)@ == old(self)@.insert(edge),
            r == !old(self)@.contains(edge),
    {
        proof {
            use_type_invariant(&*self);
        }
        if self.contains(&edge) {
            assert(self@.insert(edge) =~= self@);
            return false;
        }
        let ghost before = self.edges@;
        proof {
            let pushed = before.push(edge);
            assert forall|i: int, j: int|
                0 <= i < pushed.len() && 0 <= j < pushed.len() && i != j implies pushed[i]
                != pushed[j] by {
                if i < before.len() && j < before.len() {
                } else if i == before.len() {
                    assert(before.contains(before[j]));
                } else {
                    assert(before.contains(before[i]));
                }
            }
            lemma_push_to_set(before, edge);
        }
        let mut edges: Vec<Edge> = Vec::new();
        std::mem::swap(&mut edges, &mut self.edges);
        edges.push(edge);
        self.edges = edges;
        true
    }

    /// The set holding each edge of `edges`.
    pub fn from_vec(edges: Vec<Edge>) -> (r: Self)
        ensures
            r@ == edges@.to_set(),
    {
        let mut result = EdgeSet::new();
        let mut i: usize = 0;
        while i < edges.len()
            invariant
                i <= edges@.len(),
                result@ == edges@.subrange(0, i as int).to_set(),
            decreases edges@.len() - i,
        {
            result.insert(edges[i]);
            proof {
                assert(edges@.subrange(0, i + 1) == edges@.subrange(0, i as int).push(edges@[i as int]));
                lemma_push_to_set(edges@.subrange(0, i as int), edges@[i as int]);
            }
            i += 1;
        }
        assert(edges@.subrange(0, edges@.len() as int) =~= edges@);
        result
    }

    /// The number of edges.
    pub fn len(&self) -> (r: usize)
        ensures
            r == self@.len(),
    {
        proof {
            use_type_invariant(self);
            self.edges@.unique_seq_to_set();
        }
        self.edges.len()
    }

    /// Returns whether the set is empty.
    pub fn is_empty(&self) -> (r: bool)
        ensures
            r == (self@.len() == 0),
    {
        self.len() == 0
    }

    /// The edges of the set, each once, in insertion order.
    pub fn as_slice(&self) -> (r: &[Edge])
        ensures
            r@.to_set() == self@,
            r@.no_duplicates(),
    {
        proof {
            use_type_invariant(self);
        }
        self.edges.as_slice()
    }

    /// The edges of the set, each once, in insertion order.
    pub fn to_vec(&self) -> (r: Vec<Edge>)
        ensures
            r@.to_set() == self@,
            r@.no_duplicates(),
    {
        proof {
            use_type_invariant(self);
        }
        self.edges.clone()
    }

    /// Returns whether every edge of `self` belongs to `other`.
    pub fn is_subset(&self, other: &EdgeSet) -> (r: bool)
        ensures
            r == self@.subset_of(other@),
    {
        let mut i: usize = 0;
        while i < self.edges.len()
            invariant
                i <= self.edges@.len(),
                forall|k: int| 0 <= k < i ==> other@.contains(#[trigger] self.edges@[k]),
            decreases self.edges@.len() - i,
        {
            if !other.contains(&self.edges[i]) {
                assert(self@.contains(self.edges@[i as int]));
                return false;
            }
            i += 1;
        }
        assert forall|e: Edge| self@.contains(e) implies other@.contains(e) by {
            let k = choose|k: int| 0 <= k < self.edges@.len() && self.edges@[k] == e;
        }
        true
    }
}

/// Adding one element at the end of a sequence adds it to its set.
pub proof fn lemma_push_to_set<T>(s: Seq<T>, x: T)
    ensures
        s.push(x).to_set() == s.to_set().insert(x),
{
    assert forall|e: T| s.push(x).to_set().contains(e) implies s.to_set().insert(x).contains(e) by {
        let k = choose|k: int| 0 <= k < s.push(x).len() && s.push(x)[k] == e;
        if k < s.len() {
            assert(s[k] == e);
            assert(s.contains(e));
        }
    }
    assert forall|e: T| s.to_set().insert(x).contains(e) implies s.push(x).to_set().contains(e) by {
        if e == x {
            assert(s.push(x)[s.len() as int] == e);
        } else {
            let k = choose|k: int| 0 <= k < s.len() && s[k] == e;
            assert(s.push(x)[k] == e);
        }
    }
    assert(s.push(x).to_set() =~= s.to_set().insert(x));
}

impl Clone for EdgeSet {
    fn clone(&self) -> (r: Self)
        ensures
            r@ == self@,
    {
        proof {
            use_type_invariant(self);
        }
        EdgeSet { edges: self.edges.clone() }
    }
}

impl PartialEq for EdgeSet {
    fn eq(&self, other: &Self) -> (r: bool) {
        proof {
            use_type_invariant(self);
            use_type_invariant(other);
            self.edges@.unique_seq_to_set();
            other.edges@.unique_seq_to_set();
        }
        if self.edges.len() != other.edges.len() {
            return false;
        }
        let r = self.is_subset(other);
        proof {
            if r {
                vstd::set_lib::lemma_subset_equality(self@, other@);
            }
        }
        r
    }
}

impl Eq for EdgeSet {
}

impl vstd::std_specs::cmp::PartialEqSpecImpl for EdgeSet {
    open spec fn obeys_eq_spec() -> bool {
        true
    }

    open spec fn eq_spec(&self, other: &Self) -> bool {
        self@ == other@
    }
}

/// A vector holding the edges of a slice, in order.
pub fn copy_edges(s: &[Edge]) -> (r: Vec<Edge>)
    ensures
        r@ == s@,
{
    let mut r: Vec<Edge> = Vec::new();
    let mut i: usize = 0;
    while i < s.len()
        invariant
            i <= s@.len(),
            r@ == s@.subrange(0, i as int),
        decreases s@.len() - i,
    {
        r.push(s[i]);
        i += 1;
    }
    assert(r@ =~= s@);
    r
}

} // verus!
