//! Order-preserving maps and lattice homomorphisms.
//!
//! A map is represented by its values on element ids: the entry `map[i]` is
//! the image of the element `i`.  Constructors validate the relevant
//! mathematical axioms before producing a [`PosetMap`] or a [`LatticeMap`].

use crate::edges::{Edge, ElementId};
use crate::lattice::Lattice;
use crate::order::{edge_lt, is_meet, is_partial_order, row_major};
use crate::poset::Poset;
use std::sync::Arc;
use vstd::prelude::*;

verus! {

/// `map` sends the `n` elements of an order `dom` into the `m` elements of an
/// order `cod` and preserves `<=`.
pub open spec fn is_monotone_map(dom: Seq<Seq<bool>>, n: nat, cod: Seq<Seq<bool>>, m: nat, map: Seq<usize>) -> bool {
    &&& map.len() == n
    &&& forall|i: int| 0 <= i < n ==> #[trigger] map[i] < m
    &&& forall|i: int, j: int| 0 <= i < n && 0 <= j < n && #[trigger] dom[i][j] ==> cod[map[i] as int][map[j] as int]
}

/// `e` is a relation `from < to` of the order `dom` on `n` elements.
pub open spec fn is_proper_relation(dom: Seq<Seq<bool>>, n: nat, e: Edge) -> bool {
    e.from < n && e.to < n && e.from != e.to && dom[e.from as int][e.to as int]
}

/// `map` sends the relation `e` to a relation of `cod`.
pub open spec fn preserves(cod: Seq<Seq<bool>>, map: Seq<usize>, e: Edge) -> bool {
    cod[map[e.from as int] as int][map[e.to as int] as int]
}

/// Errors that can occur while constructing a monotone map of posets.
#[derive(Debug, Clone, Copy, PartialEq, Eq, Structural)]
pub enum PosetMapError {
    /// The image vector does not have one entry for each element of the domain.
    WrongLength {
        /// The required length, equal to the domain size.
        expected: usize,
        /// The supplied length.
        actual: usize,
    },
    /// An image is not an element of the codomain.
    ImageOutOfBounds {
        /// The domain element whose image is invalid.
        element: ElementId,
        /// The invalid codomain id.
        image: ElementId,
        /// The number of elements in the codomain.
        codomain_len: usize,
    },
    /// The map fails to preserve the order relation.
    NotMonotone {
        /// The lower element in a relation `lower <= upper` of the domain.
        lower: ElementId,
        /// The upper element in a relation `lower <= upper` of the domain.
        upper: ElementId,
        /// The image of `lower`.
        lower_image: ElementId,
        /// The image of `upper`.
        upper_image: ElementId,
    },
}

/// `e` is the error reported for `map`: the length is checked first, then
/// each image in id order, then each proper relation of the domain in
/// row-major order.
pub open spec fn map_error(dom: Seq<Seq<bool>>, n: nat, cod: Seq<Seq<bool>>, m: nat, map: Seq<usize>, e: PosetMapError) -> bool {
    match e {
        PosetMapError::WrongLength { expected, actual } => map.len() != n && expected == n && actual == map.len(),
        PosetMapError::ImageOutOfBounds { element, image, codomain_len } => {
            &&& map.len() == n
            &&& element < n
            &&& image == map[element as int]
            &&& image >= m
            &&& codomain_len == m
            &&& forall|k: int| 0 <= k < element ==> #[trigger] map[k] < m
        },
        PosetMapError::NotMonotone { lower, upper, lower_image, upper_image } => {
            &&& map.len() == n
            &&& forall|k: int| 0 <= k < n ==> #[trigger] map[k] < m
            &&& is_proper_relation(dom, n, Edge { from: lower, to: upper })
            &&& lower_image == map[lower as int]
            &&& upper_image == map[upper as int]
            &&& !cod[lower_image as int][upper_image as int]
            &&& forall|f: Edge|
                #[trigger] is_proper_relation(dom, n, f) && edge_lt(f, Edge { from: lower, to: upper }) ==> preserves(cod, map, f)
        },
    }
}

/// Checks that `map` is a monotone map from `domain` to `codomain`; the
/// first failure is reported.
pub fn validate_poset_map<A, B>(domain: &Poset<A>, codomain: &Poset<B>, map: &[ElementId]) -> (r: Result<(), PosetMapError>)
    requires
        domain.wf(),
        codomain.wf(),
    ensures
        r is Ok <==> is_monotone_map(domain.order(), domain.card(), codomain.order(), codomain.card(), map@),
        r matches Err(e) ==> map_error(domain.order(), domain.card(), codomain.order(), codomain.card(), map@, e),
{
    let ghost dom = domain.order();
    let ghost cod = codomain.order();
    let ghost n = domain.card();
    let ghost m = codomain.card();
    if map.len() != domain.size() {
        return Err(PosetMapError::WrongLength { expected: domain.size(), actual: map.len() });
    }
    let codomain_len = codomain.size();
    let mut element: usize = 0;
    while element < map.len()
        invariant
            n == domain.card(),
            m == codomain.card(),
            map@.len() == n,
            codomain_len == m,
            element <= map@.len(),
            forall|k: int| 0 <= k < element ==> #[trigger] map@[k] < m,
        decreases map@.len() - element,
    {
        let image = map[element];
        if image >= codomain_len {
            return Err(PosetMapError::ImageOutOfBounds { element, image, codomain_len });
        }
        element += 1;
    }
    let relations = domain.proper_relations_iter();
    let mut k: usize = 0;
    while k < relations.len()
        invariant
            domain.wf(),
            codomain.wf(),
            dom == domain.order(),
            cod == codomain.order(),
            n == domain.card(),
            m == codomain.card(),
            map@.len() == n,
            forall|q: int| 0 <= q < n ==> #[trigger] map@[q] < m,
            row_major(relations@),
            forall|q: int| 0 <= q < relations@.len() ==> is_proper_relation(dom, n, #[trigger] relations@[q]),
            forall|f: Edge| #[trigger] is_proper_relation(dom, n, f) ==> relations@.contains(f),
            k <= relations@.len(),
            forall|q: int| 0 <= q < k ==> preserves(cod, map@, #[trigger] relations@[q]),
        decreases relations@.len() - k,
    {
        let edge = relations[k];
        let lower_image = map[edge.from];
        let upper_image = map[edge.to];
        if !codomain.leq(lower_image, upper_image) {
            proof {
                assert forall|f: Edge| #[trigger] is_proper_relation(dom, n, f) && edge_lt(f, edge) implies preserves(cod, map@, f) by {
                    let q = choose|q: int| 0 <= q < relations@.len() && relations@[q] == f;
                    if q >= k {
                        if q > k {
                            assert(edge_lt(relations@[k as int], relations@[q]));
                        }
                    }
                }
            }
            return Err(PosetMapError::NotMonotone { lower: edge.from, upper: edge.to, lower_image, upper_image });
        }
        k += 1;
    }
    proof {
        assert forall|i: int, j: int| 0 <= i < n && 0 <= j < n && #[trigger] dom[i][j] implies cod[map@[i] as int][map@[j] as int] by {
            if i != j {
                let f = Edge { from: i as usize, to: j as usize };
                assert(is_proper_relation(dom, n, f));
                let q = choose|q: int| 0 <= q < relations@.len() && relations@[q] == f;
                assert(preserves(cod, map@, relations@[q]));
            }
        }
    }
    Ok(())
}

/// A monotone map between finite posets.
///
/// The domain and codomain are reference-counted so maps can be returned
/// together with constructions such as products and coproducts.
#[derive(Debug)]
pub struct PosetMap<A, B> {
    domain: Arc<Poset<A>>,
    codomain: Arc<Poset<B>>,
    map: Vec<ElementId>,
}

impl<A, B> PosetMap<A, B> {
    /// The domain poset.
    pub closed spec fn domain_of(&self) -> Poset<A> {
        *self.domain
    }

    /// The codomain poset.
    pub closed spec fn codomain_of(&self) -> Poset<B> {
        *self.codomain
    }

    /// The image of each domain element.
    pub closed spec fn images_of(&self) -> Seq<usize> {
        self.map@
    }

    /// A well-formed map: monotone between well-formed posets.
    pub open spec fn wf(&self) -> bool {
        &&& self.domain_of().wf()
        &&& self.codomain_of().wf()
        &&& is_monotone_map(
            self.domain_of().order(),
            self.domain_of().card(),
            self.codomain_of().order(),
            self.codomain_of().card(),
            self.images_of(),
        )
    }

    /// Constructs a monotone map from its image vector.
    ///
    /// The vector must have length equal to the domain size, each image must
    /// be an element id in the codomain, and `x <= y` in the domain must imply
    /// `f(x) <= f(y)` in the codomain.
    pub fn new(domain: Arc<Poset<A>>, codomain: Arc<Poset<B>>, map: Vec<ElementId>) -> (r: Result<Self, PosetMapError>)
        requires
            domain.wf(),
            codomain.wf(),
        ensures
            match r {
                Ok(f) => f.wf() && f.domain_of() == *domain && f.codomain_of() == *codomain && f.images_of() == map@,
                Err(e) => map_error(domain.order(), domain.card(), codomain.order(), codomain.card(), map@, e),
            },
            r is Ok <==> is_monotone_map(domain.order(), domain.card(), codomain.order(), codomain.card(), map@),
    {
        match validate_poset_map(&*domain, &*codomain, map.as_slice()) {
            Ok(()) => Ok(PosetMap { domain, codomain, map }),
            Err(e) => Err(e),
        }
    }

    /// Constructs a monotone map between the underlying posets of two
    /// lattices.
    pub fn between_lattices(domain: &Arc<Lattice<A>>, codomain: &Arc<Lattice<B>>, map: Vec<ElementId>) -> (r: Result<Self, PosetMapError>)
        where A: Clone, B: Clone,
        requires
            domain.wf(),
            codomain.wf(),
        ensures
            match r {
                Ok(f) => {
                    &&& f.wf()
                    &&& f.domain_of().order() == domain.order()
                    &&& f.codomain_of().order() == codomain.order()
                    &&& f.domain_of().card() == domain.card()
                    &&& f.codomain_of().card() == codomain.card()
                    &&& f.images_of() == map@
                },
                Err(e) => map_error(domain.order(), domain.card(), codomain.order(), codomain.card(), map@, e),
            },
            r is Ok <==> is_monotone_map(domain.order(), domain.card(), codomain.order(), codomain.card(), map@),
    {
        let d = Arc::new(domain.as_poset().clone());
        let c = Arc::new(codomain.as_poset().clone());
        Self::new(d, c, map)
    }

    /// Returns the domain poset.
    pub fn domain(&self) -> (r: &Arc<Poset<A>>)
        ensures
            **r == self.domain_of(),
    {
        &self.domain
    }

    /// Returns the codomain poset.
    pub fn codomain(&self) -> (r: &Arc<Poset<B>>)
        ensures
            **r == self.codomain_of(),
    {
        &self.codomain
    }

    /// Returns the image vector: the entry at index `i` is the image of
    /// element `i` of the domain.
    pub fn map(&self) -> (r: &[ElementId])
        ensures
            r@ == self.images_of(),
    {
        self.map.as_slice()
    }

    /// Applies the map to a domain element; `None` when the element id is
    /// outside the domain.
    pub fn apply(&self, element: ElementId) -> (r: Option<ElementId>)
        ensures
            match r {
                Some(image) => element < self.images_of().len() && image == self.images_of()[element as int],
                None => element >= self.images_of().len(),
            },
    {
        if element < self.map.len() {
            Some(self.map[element])
        } else {
            None
        }
    }

    /// Pairs an image vector already known to be monotone with its posets.
    pub(crate) fn from_validated(domain: Arc<Poset<A>>, codomain: Arc<Poset<B>>, map: Vec<ElementId>) -> (r: Self)
        requires
            domain.wf(),
            codomain.wf(),
            is_monotone_map(domain.order(), domain.card(), codomain.order(), codomain.card(), map@),
        ensures
            r.wf(),
            r.domain_of() == *domain,
            r.codomain_of() == *codomain,
            r.images_of() == map@,
    {
        PosetMap { domain, codomain, map }
    }
}

/// Errors that can occur while constructing a lattice homomorphism.
#[derive(Debug, Clone, Copy, PartialEq, Eq, Structural)]
pub enum LatticeMapError {
    /// The underlying function is not a monotone map of posets.
    Poset(PosetMapError),
    /// The map does not preserve a binary meet.
    DoesNotPreserveMeet {
        /// The first element in the failing meet.
        left: ElementId,
        /// The second element in the failing meet.
        right: ElementId,
    },
    /// The map does not preserve a binary join.
    DoesNotPreserveJoin {
        /// The first element in the failing join.
        left: ElementId,
        /// The second element in the failing join.
        right: ElementId,
    },
    /// The bottom element of the domain is not sent to the bottom element of
    /// the codomain.
    DoesNotPreserveBottom {
        /// The codomain bottom.
        expected: ElementId,
        /// The actual image of the domain bottom.
        actual: ElementId,
    },
    /// The top element of the domain is not sent to the top element of the
    /// codomain.
    DoesNotPreserveTop {
        /// The codomain top.
        expected: ElementId,
        /// The actual image of the domain top.
        actual: ElementId,
    },
}

/// `map` preserves the meet and the join of `i` and `j`.
pub open spec fn preserves_pair<A, B>(dom: Lattice<A>, cod: Lattice<B>, map: Seq<usize>, i: int, j: int) -> bool {
    &&& map[dom.meet_of(i, j)] == cod.meet_of(map[i] as int, map[j] as int)
    &&& map[dom.join_of(i, j)] == cod.join_of(map[i] as int, map[j] as int)
}

/// `(i, j)` comes before `(k, l)` in row-major order.
pub open spec fn pair_before(i: int, j: int, k: int, l: int) -> bool {
    i < k || (i == k && j < l)
}

/// `map` is a lattice homomorphism: monotone, and preserving bottom, top and
/// every binary meet and join.
pub open spec fn is_lattice_map<A, B>(dom: Lattice<A>, cod: Lattice<B>, map: Seq<usize>) -> bool {
    &&& is_monotone_map(dom.order(), dom.card(), cod.order(), cod.card(), map)
    &&& map[dom.bottom_of()] == cod.bottom_of()
    &&& map[dom.top_of()] == cod.top_of()
    &&& forall|i: int, j: int| 0 <= i < dom.card() && 0 <= j < dom.card() ==> #[trigger] preserves_pair(dom, cod, map, i, j)
}

/// `e` is the error reported for `map`: monotonicity first, then bottom,
/// then top, then the pairs in row-major order, meet before join.
pub open spec fn lattice_map_error<A, B>(dom: Lattice<A>, cod: Lattice<B>, map: Seq<usize>, e: LatticeMapError) -> bool {
    match e {
        LatticeMapError::Poset(pe) => map_error(dom.order(), dom.card(), cod.order(), cod.card(), map, pe),
        LatticeMapError::DoesNotPreserveBottom { expected, actual } => {
            &&& is_monotone_map(dom.order(), dom.card(), cod.order(), cod.card(), map)
            &&& expected == cod.bottom_of()
            &&& actual == map[dom.bottom_of()]
            &&& actual != expected
        },
        LatticeMapError::DoesNotPreserveTop { expected, actual } => {
            &&& is_monotone_map(dom.order(), dom.card(), cod.order(), cod.card(), map)
            &&& map[dom.bottom_of()] == cod.bottom_of()
            &&& expected == cod.top_of()
            &&& actual == map[dom.top_of()]
            &&& actual != expected
        },
        LatticeMapError::DoesNotPreserveMeet { left, right } => {
            &&& is_monotone_map(dom.order(), dom.card(), cod.order(), cod.card(), map)
            &&& map[dom.bottom_of()] == cod.bottom_of()
            &&& map[dom.top_of()] == cod.top_of()
            &&& left < dom.card()
            &&& right < dom.card()
            &&& map[dom.meet_of(left as int, right as int)] != cod.meet_of(map[left as int] as int, map[right as int] as int)
            &&& forall|i: int, j: int|
                0 <= i < dom.card() && 0 <= j < dom.card() && pair_before(i, j, left as int, right as int) ==> #[trigger] preserves_pair(dom, cod, map, i, j)
        },
        LatticeMapError::DoesNotPreserveJoin { left, right } => {
            &&& is_monotone_map(dom.order(), dom.card(), cod.order(), cod.card(), map)
            &&& map[dom.bottom_of()] == cod.bottom_of()
            &&& map[dom.top_of()] == cod.top_of()
            &&& left < dom.card()
            &&& right < dom.card()
            &&& map[dom.meet_of(left as int, right as int)] == cod.meet_of(map[left as int] as int, map[right as int] as int)
            &&& map[dom.join_of(left as int, right as int)] != cod.join_of(map[left as int] as int, map[right as int] as int)
            &&& forall|i: int, j: int|
                0 <= i < dom.card() && 0 <= j < dom.card() && pair_before(i, j, left as int, right as int) ==> #[trigger] preserves_pair(dom, cod, map, i, j)
        },
    }
}

/// A lattice homomorphism between finite lattices.
///
/// This is a function preserving bottom, top, binary meets, and binary joins.
/// In finite lattices such a function is automatically monotone, but the
/// constructor also checks monotonicity for clearer diagnostics.
#[derive(Debug)]
pub struct LatticeMap<A, B> {
    domain: Arc<Lattice<A>>,
    codomain: Arc<Lattice<B>>,
    map: Vec<ElementId>,
}

impl<A, B> LatticeMap<A, B> {
    /// The domain lattice.
    pub closed spec fn domain_of(&self) -> Lattice<A> {
        *self.domain
    }

    /// The codomain lattice.
    pub closed spec fn codomain_of(&self) -> Lattice<B> {
        *self.codomain
    }

    /// The image of each domain element.
    pub closed spec fn images_of(&self) -> Seq<usize> {
        self.map@
    }

    /// A well-formed lattice homomorphism between well-formed lattices.
    pub open spec fn wf(&self) -> bool {
        &&& self.domain_of().wf()
        &&& self.codomain_of().wf()
        &&& is_lattice_map(self.domain_of(), self.codomain_of(), self.images_of())
    }

    /// Constructs a lattice homomorphism from its image vector.
    ///
    /// The vector must define a monotone map of the underlying posets and
    /// must preserve bottom, top, all binary meets, and all binary joins; the
    /// first failure is reported.
    pub fn new(domain: Arc<Lattice<A>>, codomain: Arc<Lattice<B>>, map: Vec<ElementId>) -> (r: Result<Self, LatticeMapError>)
        requires
            domain.wf(),
            codomain.wf(),
        ensures
            match r {
                Ok(f) => f.wf() && f.domain_of() == *domain && f.codomain_of() == *codomain && f.images_of() == map@,
                Err(e) => lattice_map_error(*domain, *codomain, map@, e),
            },
            r is Ok <==> is_lattice_map(*domain, *codomain, map@),
    {
        if let Err(e) = validate_poset_map(domain.as_poset(), codomain.as_poset(), map.as_slice()) {
            return Err(LatticeMapError::Poset(e));
        }
        let mapped_bottom = map[domain.bottom()];
        if mapped_bottom != codomain.bottom() {
            return Err(LatticeMapError::DoesNotPreserveBottom { expected: codomain.bottom(), actual: mapped_bottom });
        }
        let mapped_top = map[domain.top()];
        if mapped_top != codomain.top() {
            return Err(LatticeMapError::DoesNotPreserveTop { expected: codomain.top(), actual: mapped_top });
        }
        let size = domain.size();
        let mut i: usize = 0;
        while i < size
            invariant
                (*domain).wf(),
                (*codomain).wf(),
                size == (*domain).card(),
                is_monotone_map((*domain).order(), (*domain).card(), (*codomain).order(), (*codomain).card(), map@),
                map@[(*domain).bottom_of()] == (*codomain).bottom_of(),
                map@[(*domain).top_of()] == (*codomain).top_of(),
                i <= size,
                forall|a: int, b: int| 0 <= a < i && 0 <= b < size ==> #[trigger] preserves_pair((*domain), (*codomain), map@, a, b),
            decreases size - i,
        {
            let mut j: usize = 0;
            while j < size
                invariant
                    (*domain).wf(),
                    (*codomain).wf(),
                    size == (*domain).card(),
                    is_monotone_map((*domain).order(), (*domain).card(), (*codomain).order(), (*codomain).card(), map@),
                    map@[(*domain).bottom_of()] == (*codomain).bottom_of(),
                    map@[(*domain).top_of()] == (*codomain).top_of(),
                    i < size,
                    j <= size,
                    forall|a: int, b: int| 0 <= a < i && 0 <= b < size ==> #[trigger] preserves_pair((*domain), (*codomain), map@, a, b),
                    forall|b: int| 0 <= b < j ==> #[trigger] preserves_pair((*domain), (*codomain), map@, i as int, b),
                decreases size - j,
            {
                let meet_image = map[domain.meet_id(i, j)];
                let image_meet = codomain.meet_id(map[i], map[j]);
                if meet_image != image_meet {
                    assert(!preserves_pair(*domain, *codomain, map@, i as int, j as int));
                    return Err(LatticeMapError::DoesNotPreserveMeet { left: i, right: j });
                }
                let join_image = map[domain.join_id(i, j)];
                let image_join = codomain.join_id(map[i], map[j]);
                if join_image != image_join {
                    assert(!preserves_pair(*domain, *codomain, map@, i as int, j as int));
                    return Err(LatticeMapError::DoesNotPreserveJoin { left: i, right: j });
                }
                j += 1;
            }
            i += 1;
        }
        Ok(LatticeMap { domain, codomain, map })
    }

    /// Returns the domain lattice.
    pub fn domain(&self) -> (r: &Arc<Lattice<A>>)
        ensures
            **r == self.domain_of(),
    {
        &self.domain
    }

    /// Returns the codomain lattice.
    pub fn codomain(&self) -> (r: &Arc<Lattice<B>>)
        ensures
            **r == self.codomain_of(),
    {
        &self.codomain
    }

    /// Returns the image vector: the entry at index `i` is the image of
    /// element `i` of the domain.
    pub fn map(&self) -> (r: &[ElementId])
        ensures
            r@ == self.images_of(),
    {
        self.map.as_slice()
    }

    /// Applies the homomorphism to a domain element; `None` when the element
    /// id is outside the domain.
    pub fn apply(&self, element: ElementId) -> (r: Option<ElementId>)
        ensures
            match r {
                Some(image) => element < self.images_of().len() && image == self.images_of()[element as int],
                None => element >= self.images_of().len(),
            },
    {
        if element < self.map.len() {
            Some(self.map[element])
        } else {
            None
        }
    }

    /// Forgets the lattice structure and returns the underlying monotone map.
    pub fn as_poset_map(&self) -> (r: PosetMap<A, B>)
        where A: Clone, B: Clone,
        requires
            self.wf(),
        ensures
            r.wf(),
            r.domain_of().order() == self.domain_of().order(),
            r.codomain_of().order() == self.codomain_of().order(),
            r.domain_of().card() == self.domain_of().card(),
            r.codomain_of().card() == self.codomain_of().card(),
            r.images_of() == self.images_of(),
    {
        PosetMap::from_validated(
            Arc::new(self.domain.as_poset().clone()),
            Arc::new(self.codomain.as_poset().clone()),
            self.map.clone(),
        )
    }
}

/// A monotone map between the underlying posets of two lattices, as the
/// induced transfer-system maps consume it.
pub trait MonotoneMap<A, B> {
    /// The domain poset.
    spec fn source_poset(&self) -> Poset<A>;

    /// The codomain poset.
    spec fn target_poset(&self) -> Poset<B>;

    /// The image of each domain element.
    spec fn image_ids(&self) -> Seq<usize>;

    /// The map is monotone between well-formed posets.
    spec fn monotone(&self) -> bool;

    /// Known to send every meet of the domain to the meet of the images.
    spec fn meet_preserving(&self) -> bool;

    /// What a monotone map guarantees.
    proof fn lemma_monotone(&self)
        requires
            self.monotone(),
        ensures
            self.source_poset().wf(),
            self.target_poset().wf(),
            is_monotone_map(
                self.source_poset().order(),
                self.source_poset().card(),
                self.target_poset().order(),
                self.target_poset().card(),
                self.image_ids(),
            ),
    ;

    /// What a meet-preserving map guarantees: the image of a meet is the
    /// meet of the images.
    proof fn lemma_meet_preserving(&self, i: int, j: int, k: int)
        requires
            self.monotone(),
            0 <= i < self.source_poset().card(),
            0 <= j < self.source_poset().card(),
            is_meet(self.source_poset().order(), self.source_poset().card(), i, j, k),
        ensures
            self.meet_preserving() ==> is_meet(
                self.target_poset().order(),
                self.target_poset().card(),
                self.image_ids()[i] as int,
                self.image_ids()[j] as int,
                self.image_ids()[k] as int,
            ),
    ;

    /// The image of each domain element.
    fn images(&self) -> (r: &[ElementId])
        ensures
            r@ == self.image_ids(),
    ;

    /// The domain poset.
    fn domain_poset(&self) -> (r: &Poset<A>)
        ensures
            *r == self.source_poset(),
    ;

    /// The codomain poset.
    fn codomain_poset(&self) -> (r: &Poset<B>)
        ensures
            *r == self.target_poset(),
    ;

    /// Whether the map is known to preserve meets.
    fn is_known_meet_preserving(&self) -> (r: bool)
        ensures
            r == self.meet_preserving(),
    ;
}

impl<A, B> MonotoneMap<A, B> for PosetMap<A, B> {
    open spec fn source_poset(&self) -> Poset<A> {
        self.domain_of()
    }

    open spec fn target_poset(&self) -> Poset<B> {
        self.codomain_of()
    }

    open spec fn image_ids(&self) -> Seq<usize> {
        self.images_of()
    }

    open spec fn monotone(&self) -> bool {
        self.wf()
    }

    open spec fn meet_preserving(&self) -> bool {
        false
    }

    proof fn lemma_monotone(&self) {
    }

    proof fn lemma_meet_preserving(&self, i: int, j: int, k: int) {
    }

    fn images(&self) -> (r: &[ElementId]) {
        self.map.as_slice()
    }

    fn domain_poset(&self) -> (r: &Poset<A>) {
        &*self.domain
    }

    fn codomain_poset(&self) -> (r: &Poset<B>) {
        &*self.codomain
    }

    fn is_known_meet_preserving(&self) -> (r: bool) {
        false
    }
}

impl<A, B> MonotoneMap<A, B> for LatticeMap<A, B> {
    open spec fn source_poset(&self) -> Poset<A> {
        self.domain_of().poset_of()
    }

    open spec fn target_poset(&self) -> Poset<B> {
        self.codomain_of().poset_of()
    }

    open spec fn image_ids(&self) -> Seq<usize> {
        self.images_of()
    }

    open spec fn monotone(&self) -> bool {
        self.wf()
    }

    open spec fn meet_preserving(&self) -> bool {
        true
    }

    proof fn lemma_monotone(&self) {
    }

    proof fn lemma_meet_preserving(&self, i: int, j: int, k: int) {
        let d = self.domain_of();
        let c = self.codomain_of();
        let map = self.images_of();
        assert(is_meet(d.order(), d.card(), i, j, d.meet_of(i, j)));
        crate::order::lemma_bounds_unique(d.order(), d.card(), i, j, k, d.meet_of(i, j));
        assert(preserves_pair(d, c, map, i, j));
    }

    fn images(&self) -> (r: &[ElementId]) {
        self.map.as_slice()
    }

    fn domain_poset(&self) -> (r: &Poset<A>) {
        self.domain.as_poset()
    }

    fn codomain_poset(&self) -> (r: &Poset<B>) {
        self.codomain.as_poset()
    }

    fn is_known_meet_preserving(&self) -> (r: bool) {
        true
    }
}

} // verus!
