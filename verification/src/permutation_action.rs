//! Finite permutation actions given by the images of generators: subgroup
//! labels, the errors of group-theoretic input, and the check that a list
//! of images is a permutation.

use crate::tikz::layered::{
    increasing_layers, layer_count_of, layers_partition, lemma_add_vertex, lemma_distinct_below,
    lemma_layer_count_bounds, push_into, seqs_of,
};
use vstd::prelude::*;

verus! {

/// A label for a subgroup in a subgroup-lattice enumeration organised into
/// conjugacy classes: a zero-based class index and a zero-based element
/// index within that class.
#[derive(Debug, Clone, Copy, PartialEq, Eq, Hash, PartialOrd, Ord, Structural)]
pub struct GapSubgroup {
    conjugacy_class: usize,
    class_element: usize,
}

impl GapSubgroup {
    /// The zero-based class index.
    pub closed spec fn class_view(&self) -> int {
        self.conjugacy_class as int
    }

    /// The zero-based index inside the class.
    pub closed spec fn element_view(&self) -> int {
        self.class_element as int
    }

    /// Constructs a zero-based subgroup-lattice label.
    pub fn new(conjugacy_class: usize, class_element: usize) -> (r: Self)
        ensures
            r.class_view() == conjugacy_class,
            r.element_view() == class_element,
    {
        GapSubgroup { conjugacy_class, class_element }
    }

    /// Returns the zero-based conjugacy class index.
    pub fn conjugacy_class(&self) -> (r: usize)
        ensures
            r == self.class_view(),
    {
        self.conjugacy_class
    }

    /// Returns the zero-based index inside the conjugacy class.
    pub fn class_element(&self) -> (r: usize)
        ensures
            r == self.element_view(),
    {
        self.class_element
    }

    /// Returns the one-based conjugacy class index.
    pub fn gap_conjugacy_class(&self) -> (r: usize)
        requires
            self.class_view() < usize::MAX,
        ensures
            r == self.class_view() + 1,
    {
        self.conjugacy_class + 1
    }

    /// Returns the one-based class-element index.
    pub fn gap_class_element(&self) -> (r: usize)
        requires
            self.element_view() < usize::MAX,
        ensures
            r == self.element_view() + 1,
    {
        self.class_element + 1
    }
}

/// Why group-theoretic input was rejected.
#[derive(Debug, Clone, PartialEq, Eq)]
pub enum GroupTheoryError {
    /// The group system reported an error.
    Gap(String),
    /// The group is not finite.
    GroupIsNotFinite,
    /// The map is not a group homomorphism.
    NotAGroupHomomorphism,
    /// The number of generator images differs from the number of generators.
    GeneratorCountMismatch { expected: usize, actual: usize },
    /// A generator's image list has the wrong length.
    WrongPermutationLength { generator: usize, expected: usize, actual: usize },
    /// A generator sends an element outside the permuted set.
    PermutationImageOutOfBounds { generator: usize, element: usize, image: usize, len: usize },
    /// A generator sends two elements to the same image.
    DuplicatePermutationImage { generator: usize, first_element: usize, second_element: usize, image: usize },
    /// No homomorphism has the given images.
    HomomorphismByImagesFailed,
    /// The conjugate of a subgroup by a generator is not in the enumeration.
    SubgroupConjugateNotFound { generator: usize, subgroup: GapSubgroup },
}

/// Element `e` of `image` is the first place where `image` fails to be a
/// permutation of `0..len`: it is out of range or repeats an earlier image.
pub open spec fn bad_at(image: Seq<usize>, len: int, e: int) -> bool {
    image[e] >= len || exists|f: int| 0 <= f < e && image[f] == image[e]
}

/// `image` lists a permutation of `0..len`.
pub open spec fn is_permutation(image: Seq<usize>, len: int) -> bool {
    &&& image.len() == len
    &&& forall|e: int| 0 <= e < len ==> !#[trigger] bad_at(image, len, e)
}

/// `e` reports the first place where `image` fails to list a permutation
/// of `0..len`, for the generator numbered `generator`.
pub open spec fn permutation_error(generator: usize, len: usize, image: Seq<usize>, e: GroupTheoryError) -> bool {
    match e {
        GroupTheoryError::WrongPermutationLength { generator: g, expected, actual } => {
            &&& image.len() != len
            &&& g == generator
            &&& expected == len
            &&& actual == image.len()
        },
        GroupTheoryError::PermutationImageOutOfBounds { generator: g, element, image: target, len: l } => {
            &&& image.len() == len
            &&& g == generator
            &&& l == len
            &&& element < len
            &&& forall|e: int| 0 <= e < element ==> !#[trigger] bad_at(image, len as int, e)
            &&& target == image[element as int]
            &&& target >= len
        },
        GroupTheoryError::DuplicatePermutationImage { generator: g, first_element, second_element, image: target } => {
            &&& image.len() == len
            &&& g == generator
            &&& second_element < len
            &&& forall|e: int| 0 <= e < second_element ==> !#[trigger] bad_at(image, len as int, e)
            &&& first_element < second_element
            &&& target == image[second_element as int]
            &&& target < len
            &&& image[first_element as int] == target
        },
        _ => false,
    }
}

/// Checks that `image` lists a permutation of `0..len`; the error names the
/// generator, and the first element at which the list fails.
pub fn validate_permutation(generator: usize, len: usize, image: &[usize]) -> (r: Result<(), GroupTheoryError>)
    ensures
        r is Ok <==> is_permutation(image@, len as int),
        match r {
            Ok(()) => true,
            Err(e) => permutation_error(generator, len, image@, e),
        },
{
    if image.len() != len {
        return Err(GroupTheoryError::WrongPermutationLength { generator, expected: len, actual: image.len() });
    }
    let mut seen: Vec<Option<usize>> = Vec::new();
    let mut k: usize = 0;
    while k < len
        invariant
            k <= len,
            seen@.len() == k,
            forall|t: int| 0 <= t < k ==> #[trigger] seen@[t] is None,
        decreases len - k,
    {
        seen.push(None);
        k += 1;
    }
    let mut element: usize = 0;
    while element < len
        invariant
            image@.len() == len,
            seen@.len() == len,
            element <= len,
            forall|e: int| 0 <= e < element ==> !#[trigger] bad_at(image@, len as int, e),
            forall|t: int|
                0 <= t < len ==> match #[trigger] seen@[t] {
                    Some(f) => f < element && image@[f as int] == t,
                    None => forall|f: int| 0 <= f < element ==> image@[f] != t,
                },
        decreases len - element,
    {
        let target = image[element];
        if target >= len {
            assert(bad_at(image@, len as int, element as int));
            return Err(GroupTheoryError::PermutationImageOutOfBounds { generator, element, image: target, len });
        }
        match seen[target] {
            Some(first_element) => {
                proof {
                    assert(bad_at(image@, len as int, element as int));
                }
                return Err(
                    GroupTheoryError::DuplicatePermutationImage {
                        generator,
                        first_element,
                        second_element: element,
                        image: target,
                    },
                );
            },
            None => {},
        }
        seen.set(target, Some(element));
        element += 1;
    }
    Ok(())
}

/// Every generator lists an image in `0..n` for each of the `n` points.
pub open spec fn generators_within(generators: Seq<Seq<usize>>, n: int) -> bool {
    forall|g: int| 0 <= g < generators.len() ==> (#[trigger] generators[g]).len() == n && forall|p: int|
        0 <= p < n ==> #[trigger] generators[g][p] < n
}

/// Some generator sends `p` to `q`.
pub open spec fn step(generators: Seq<Seq<usize>>, p: int, q: int) -> bool {
    exists|g: int| 0 <= g < generators.len() && #[trigger] generators[g][p] == q
}

/// A walk along generator images.
pub open spec fn is_walk(generators: Seq<Seq<usize>>, w: Seq<usize>) -> bool {
    &&& w.len() >= 1
    &&& forall|i: int| 0 <= i < w.len() - 1 ==> #[trigger] step(generators, w[i] as int, w[i + 1] as int)
}

/// `q` is reached from `p` by applying generators.
#[verifier::opaque]
pub open spec fn reachable(generators: Seq<Seq<usize>>, p: int, q: int) -> bool {
    exists|w: Seq<usize>| #[trigger] is_walk(generators, w) && w[0] == p && w.last() == q
}

/// No earlier point carries the label of `s`.
pub open spec fn leads(labels: Seq<usize>, s: int) -> bool {
    forall|q: int| 0 <= q < s ==> #[trigger] labels[q] != labels[s]
}

/// The number of points below `end` that lead their label.
pub open spec fn leaders_below(labels: Seq<usize>, end: int) -> int
    decreases end,
{
    if end <= 0 {
        0
    } else {
        leaders_below(labels, end - 1) + if leads(labels, end - 1) {
            1int
        } else {
            0
        }
    }
}

/// Labels that agree below `end` have the same leaders there.
proof fn lemma_leaders_prefix(a: Seq<usize>, b: Seq<usize>, end: int)
    requires
        0 <= end <= a.len(),
        end <= b.len(),
        forall|q: int| 0 <= q < end ==> a[q] == b[q],
    ensures
        leaders_below(a, end) == leaders_below(b, end),
    decreases end,
{
    if end > 0 {
        lemma_leaders_prefix(a, b, end - 1);
        assert(leads(a, end - 1) == leads(b, end - 1));
    }
}

/// Point `p` is reached from a point no later than it that leads its label.
pub open spec fn reached_from_first(generators: Seq<Seq<usize>>, labels: Seq<usize>, p: int) -> bool {
    exists|s: int| 0 <= s <= p && #[trigger] labels[s] == labels[p] && leads(labels, s) && reachable(generators, s, p)
}

/// The labelling of points by orbit: every point is reached from the first
/// point of its label, no first point reaches a point of a later label, and
/// labels are numbered in order of their first points.  (For generators
/// that are permutations the classes are exactly the orbits.)
pub open spec fn orbit_labelling(generators: Seq<Seq<usize>>, n: int, labels: Seq<usize>) -> bool {
    &&& labels.len() == n
    &&& forall|s: int, q: int|
        0 <= s < n && 0 <= q < n && #[trigger] leads(labels, s) && #[trigger] reachable(generators, s, q) ==> labels[q]
            <= labels[s]
    &&& forall|p: int| 0 <= p < n ==> #[trigger] reached_from_first(generators, labels, p)
    &&& forall|s: int| 0 <= s < n && #[trigger] leads(labels, s) ==> labels[s] == leaders_below(labels, s)
}

/// A one-point walk.
pub(crate) proof fn lemma_walk_start(generators: Seq<Seq<usize>>, p: usize)
    ensures
        is_walk(generators, seq![p]),
        reachable(generators, p as int, p as int),
{
    reveal(reachable);
    assert(is_walk(generators, seq![p]));
}

/// Extending a walk by one generator image.
pub(crate) proof fn lemma_walk_extend(generators: Seq<Seq<usize>>, s: int, p: int, g: int)
    requires
        reachable(generators, s, p),
        0 <= g < generators.len(),
        0 <= p < generators[g].len(),
    ensures
        reachable(generators, s, generators[g][p] as int),
{
    reveal(reachable);
    let w = choose|w: Seq<usize>| #[trigger] is_walk(generators, w) && w[0] == s && w.last() == p;
    let q = generators[g][p];
    let w2 = w.push(q);
    assert forall|i: int| 0 <= i < w2.len() - 1 implies #[trigger] step(generators, w2[i] as int, w2[i + 1] as int) by {
        if i < w.len() - 1 {
            assert(step(generators, w[i] as int, w[i + 1] as int));
        } else {
            assert(generators[g][w2[i] as int] == w2[i + 1]);
        }
    }
    assert(is_walk(generators, w2));
}

/// The marker of a point not yet labelled.
pub open spec fn unlabeled() -> usize {
    usize::MAX
}

/// What holds between seeds: every point below `seed` is labelled, every
/// label `k` below `next` has its first point `seeds[k]`, from which all its
/// points are reached, labelled points send their images to labelled
/// points, no first point reaches a later label, and first points are
/// numbered in order.
#[verifier::opaque]
pub open spec fn seeded(
    generators: Seq<Seq<usize>>,
    n: int,
    labels: Seq<usize>,
    seeds: Seq<int>,
    next: int,
    seed: int,
) -> bool {
    &&& labels.len() == n
    &&& 0 <= next <= seed <= n
    &&& seeds.len() == next
    &&& forall|q: int| 0 <= q < seed ==> #[trigger] labels[q] != unlabeled()
    &&& forall|q: int| 0 <= q < n && #[trigger] labels[q] != unlabeled() ==> labels[q] < next
    &&& forall|p: int, g: int|
        0 <= p < n && 0 <= g < generators.len() && labels[p] != unlabeled() ==> #[trigger] labels[generators[g][p] as int]
            != unlabeled()
    &&& forall|k: int|
        0 <= k < next ==> 0 <= #[trigger] seeds[k] < seed && labels[seeds[k]] == k && leads(labels, seeds[k])
    &&& forall|p: int|
        0 <= p < n && #[trigger] labels[p] != unlabeled() ==> seeds[labels[p] as int] <= p && reachable(
            generators,
            seeds[labels[p] as int],
            p,
        )
    &&& forall|s: int, q: int|
        0 <= s < seed && 0 <= q < n && #[trigger] leads(labels, s) && #[trigger] reachable(generators, s, q) ==> labels[q]
            != unlabeled() && labels[q] <= labels[s]
    &&& forall|s: int| 0 <= s < seed && #[trigger] leads(labels, s) ==> labels[s] == leaders_below(labels, s)
    &&& leaders_below(labels, seed) == next
}

/// What holds during the search from `seed`: the points labelled `next` are
/// the queue (`slots` gives each one's place in it), each reached from
/// `seed`, and the first `head` of them have their images labelled.
#[verifier::opaque]
pub open spec fn searching(
    generators: Seq<Seq<usize>>,
    n: int,
    before: Seq<usize>,
    labels: Seq<usize>,
    next: int,
    seed: int,
    queue: Seq<usize>,
    slots: Seq<int>,
    head: int,
) -> bool {
    &&& labels.len() == n
    &&& slots.len() == n
    &&& 0 <= seed < n
    &&& labels[seed] == next
    &&& next < unlabeled()
    &&& forall|q: int| 0 <= q < n && before[q] != unlabeled() ==> #[trigger] labels[q] == before[q]
    &&& forall|q: int| 0 <= q < n && before[q] == unlabeled() ==> #[trigger] labels[q] == unlabeled() || labels[q] == next
    &&& 0 <= head <= queue.len()
    &&& forall|i: int| 0 <= i < queue.len() ==> (#[trigger] queue[i]) < n && labels[queue[i] as int] == next
    &&& forall|i: int, j: int| 0 <= i < j < queue.len() ==> #[trigger] queue[i] != #[trigger] queue[j]
    &&& forall|q: int|
        0 <= q < n && #[trigger] labels[q] == next ==> 0 <= slots[q] < queue.len() && queue[slots[q]] == q
    &&& forall|i: int, g: int|
        0 <= i < head && 0 <= g < generators.len() ==> #[trigger] labels[generators[g][queue[i] as int] as int]
            != unlabeled()
    &&& forall|q: int| 0 <= q < n && #[trigger] labels[q] == next ==> reachable(generators, seed, q)
}

/// Before any seed nothing is labelled.
proof fn lemma_seeded_start(generators: Seq<Seq<usize>>, n: int, labels: Seq<usize>)
    requires
        labels.len() == n,
        forall|q: int| 0 <= q < n ==> #[trigger] labels[q] == unlabeled(),
    ensures
        seeded(generators, n, labels, Seq::empty(), 0, 0),
{
    reveal(seeded);
}

/// A seed that is already labelled leads nothing new.
#[verifier::rlimit(40)]
proof fn lemma_seeded_skip(
    generators: Seq<Seq<usize>>,
    n: int,
    labels: Seq<usize>,
    seeds: Seq<int>,
    next: int,
    seed: int,
)
    requires
        seeded(generators, n, labels, seeds, next, seed),
        seed < n,
        labels[seed] != unlabeled(),
    ensures
        seeded(generators, n, labels, seeds, next, seed + 1),
{
    reveal(seeded);
    let k = labels[seed] as int;
    assert(0 <= seeds[k] < seed);
    assert(!leads(labels, seed));
}

/// Labelling an unlabelled seed starts a search from it.
proof fn lemma_search_start(
    generators: Seq<Seq<usize>>,
    n: int,
    before: Seq<usize>,
    seeds: Seq<int>,
    next: int,
    seed: int,
)
    requires
        seeded(generators, n, before, seeds, next, seed),
        seed < n,
        n <= usize::MAX,
        before[seed] == unlabeled(),
    ensures
        searching(
            generators,
            n,
            before,
            before.update(seed, next as usize),
            next,
            seed,
            seq![seed as usize],
            Seq::new(n as nat, |q: int| 0),
            0,
        ),
        next <= seed,
{
    reveal(seeded);
    reveal(searching);
    assert(next <= seed < n <= usize::MAX);
    let labels = before.update(seed, next as usize);
    lemma_walk_start(generators, seed as usize);
    assert forall|q: int| 0 <= q < n && #[trigger] labels[q] == next implies q == seed by {
        if q != seed {
            assert(labels[q] == before[q]);
            if before[q] != unlabeled() {
                assert(before[q] < next);
            }
        }
    }
}

/// Labelling a newly reached image and queueing it keeps the search
/// invariant.
proof fn lemma_search_push(
    generators: Seq<Seq<usize>>,
    n: int,
    before: Seq<usize>,
    labels: Seq<usize>,
    next: int,
    seed: int,
    queue: Seq<usize>,
    slots: Seq<int>,
    head: int,
    point: int,
    g: int,
)
    requires
        generators_within(generators, n),
        searching(generators, n, before, labels, next, seed, queue, slots, head),
        head < queue.len(),
        point == queue[head],
        0 <= g < generators.len(),
        labels[generators[g][point] as int] == unlabeled(),
    ensures
        searching(
            generators,
            n,
            before,
            labels.update(generators[g][point] as int, next as usize),
            next,
            seed,
            queue.push(generators[g][point]),
            slots.update(generators[g][point] as int, queue.len() as int),
            head,
        ),
{
    reveal(searching);
    let image = generators[g][point];
    let new_labels = labels.update(image as int, next as usize);
    let new_queue = queue.push(image);
    let new_slots = slots.update(image as int, queue.len() as int);
    assert(point < n);
    assert(labels[point] == next);
    assert(reachable(generators, seed, point));
    lemma_walk_extend(generators, seed, point, g);
    assert forall|q: int| 0 <= q < n && #[trigger] new_labels[q] == next implies 0 <= new_slots[q] < new_queue.len()
        && new_queue[new_slots[q]] == q by {
        if q != image {
            assert(labels[q] == next);
        }
    }
    assert forall|i: int, j: int| 0 <= i < j < new_queue.len() implies #[trigger] new_queue[i] != #[trigger] new_queue[j] by {
        if j == queue.len() {
            assert(labels[queue[i] as int] == next);
        } else {
            assert(queue[i] != queue[j]);
        }
    }
    assert forall|q: int| 0 <= q < n && #[trigger] new_labels[q] == next implies reachable(generators, seed, q) by {
        if q != image {
            assert(labels[q] == next);
        }
    }
    assert forall|i: int| 0 <= i < new_queue.len() implies (#[trigger] new_queue[i]) < n && new_labels[new_queue[i] as int]
        == next by {
        if i < queue.len() {
            assert(queue[i] < n);
        }
    }
    assert forall|i: int, h: int|
        0 <= i < head && 0 <= h < generators.len() implies #[trigger] new_labels[generators[h][new_queue[i] as int] as int]
        != unlabeled() by {
        assert(new_queue[i] == queue[i]);
        assert(labels[generators[h][queue[i] as int] as int] != unlabeled());
    }
}

/// Once every image of the point at `head` is labelled, that point is done.
proof fn lemma_search_advance(
    generators: Seq<Seq<usize>>,
    n: int,
    before: Seq<usize>,
    labels: Seq<usize>,
    next: int,
    seed: int,
    queue: Seq<usize>,
    slots: Seq<int>,
    head: int,
)
    requires
        searching(generators, n, before, labels, next, seed, queue, slots, head),
        head < queue.len(),
        forall|h: int|
            0 <= h < generators.len() ==> #[trigger] labels[generators[h][queue[head] as int] as int] != unlabeled(),
    ensures
        searching(generators, n, before, labels, next, seed, queue, slots, head + 1),
{
    reveal(searching);
}

/// The search facts that the generator loop needs.
proof fn lemma_search_facts(
    generators: Seq<Seq<usize>>,
    n: int,
    before: Seq<usize>,
    labels: Seq<usize>,
    next: int,
    seed: int,
    queue: Seq<usize>,
    slots: Seq<int>,
    head: int,
)
    requires
        searching(generators, n, before, labels, next, seed, queue, slots, head),
    ensures
        labels.len() == n,
        queue.len() <= n,
        head <= queue.len(),
        next < unlabeled(),
        forall|i: int| 0 <= i < queue.len() ==> (#[trigger] queue[i]) < n,
{
    reveal(searching);
    assert forall|i: int, j: int| 0 <= i < j < queue.len() implies queue[i] != queue[j] by {
        assert(queue[i] != queue[j]);
    }
    assert forall|i: int| 0 <= i < queue.len() implies #[trigger] queue[i] < n by {
        assert(queue[i] < n);
    }
    lemma_distinct_below(queue, n);
}

/// A finished search closes the orbit of `seed` under the next label.
#[verifier::rlimit(100)]
proof fn lemma_search_done(
    generators: Seq<Seq<usize>>,
    n: int,
    before: Seq<usize>,
    seeds: Seq<int>,
    labels: Seq<usize>,
    next: int,
    seed: int,
    queue: Seq<usize>,
    slots: Seq<int>,
)
    requires
        generators_within(generators, n),
        seeded(generators, n, before, seeds, next, seed),
        before[seed] == unlabeled(),
        searching(generators, n, before, labels, next, seed, queue, slots, queue.len() as int),
    ensures
        seeded(generators, n, labels, seeds.push(seed), next + 1, seed + 1),
{
    reveal(seeded);
    reveal(searching);
    let new_seeds = seeds.push(seed);
    lemma_leaders_prefix(before, labels, seed);
    assert forall|q: int| 0 <= q < seed implies #[trigger] labels[q] != labels[seed] by {
        assert(before[q] != unlabeled());
        assert(before[q] < next);
    }
    assert(leads(labels, seed));
    assert(leaders_below(labels, seed + 1) == next + 1);
    assert forall|q: int| 0 <= q < seed + 1 implies #[trigger] labels[q] != unlabeled() by {
        if q < seed {
            assert(before[q] != unlabeled());
        }
    }
    assert forall|q: int| 0 <= q < n && #[trigger] labels[q] != unlabeled() implies labels[q] < next + 1 by {
        if before[q] != unlabeled() {
            assert(before[q] < next);
        }
    }
    assert forall|p: int, h: int|
        0 <= p < n && 0 <= h < generators.len() && labels[p] != unlabeled() implies #[trigger] labels[generators[h][p] as int]
        != unlabeled() by {
        if labels[p] == next {
            let i = slots[p];
            assert(labels[generators[h][queue[i] as int] as int] != unlabeled());
        } else {
            assert(before[p] != unlabeled());
            assert(before[generators[h][p] as int] != unlabeled());
        }
    }
    assert forall|s: int| 0 <= s < seed && #[trigger] leads(before, s) implies leads(labels, s) by {
        assert forall|w: int| 0 <= w < s implies #[trigger] labels[w] != labels[s] by {
            assert(before[w] != unlabeled());
            assert(before[s] != unlabeled());
            assert(before[w] != before[s]);
        }
    }
    assert forall|s: int| 0 <= s < seed && #[trigger] leads(labels, s) implies leads(before, s) by {
        assert forall|w: int| 0 <= w < s implies #[trigger] before[w] != before[s] by {
            assert(before[w] != unlabeled());
            assert(before[s] != unlabeled());
            assert(labels[w] != labels[s]);
        }
    }
    assert forall|k: int| 0 <= k < next + 1 implies 0 <= #[trigger] new_seeds[k] < seed + 1 && labels[new_seeds[k]]
        == k && leads(labels, new_seeds[k]) by {
        if k < next {
            assert(seeds[k] == new_seeds[k]);
            assert(leads(before, seeds[k]));
            assert(before[seeds[k]] != unlabeled());
        }
    }
    assert forall|p: int| 0 <= p < n && #[trigger] labels[p] != unlabeled() implies new_seeds[labels[p] as int] <= p
        && reachable(generators, new_seeds[labels[p] as int], p) by {
        if labels[p] == next {
            if p < seed {
                assert(before[p] != unlabeled());
                assert(before[p] < next);
            }
        } else {
            assert(before[p] != unlabeled());
            assert(before[p] < next);
        }
    }
    assert forall|s: int, q: int|
        0 <= s < seed + 1 && 0 <= q < n && #[trigger] leads(labels, s) && #[trigger] reachable(generators, s, q) implies labels[q]
        != unlabeled() && labels[q] <= labels[s] by {
        if s == seed {
            lemma_closed_reach(generators, n, labels, s, q);
        } else {
            assert(leads(before, s));
            assert(before[q] != unlabeled());
        }
    }
    assert forall|s: int| 0 <= s < seed + 1 && #[trigger] leads(labels, s) implies labels[s] == leaders_below(labels, s) by {
        lemma_leaders_prefix(before, labels, s);
        if s < seed {
            assert(leads(before, s));
        }
    }
}

/// With every point seeded, each point is reached from the first point of
/// its label.
#[verifier::rlimit(60)]
proof fn lemma_seeded_witness(
    generators: Seq<Seq<usize>>,
    n: int,
    labels: Seq<usize>,
    seeds: Seq<int>,
    next: int,
    p: int,
)
    requires
        seeded(generators, n, labels, seeds, next, n),
        0 <= p < n,
    ensures
        ({
            let s = seeds[labels[p] as int];
            0 <= s <= p && labels[s] == labels[p] && leads(labels, s) && reachable(generators, s, p)
        }),
{
    reveal(seeded);
    assert(labels[p] != unlabeled());
}

/// With every point seeded, the remaining facts of the orbit labelling.
#[verifier::rlimit(60)]
proof fn lemma_seeded_rest(generators: Seq<Seq<usize>>, n: int, labels: Seq<usize>, seeds: Seq<int>, next: int)
    requires
        seeded(generators, n, labels, seeds, next, n),
    ensures
        labels.len() == n,
        forall|s: int, q: int|
            0 <= s < n && 0 <= q < n && #[trigger] leads(labels, s) && #[trigger] reachable(generators, s, q) ==> labels[q]
                <= labels[s],
        forall|s: int| 0 <= s < n && #[trigger] leads(labels, s) ==> labels[s] == leaders_below(labels, s),
{
    reveal(seeded);
}

/// With every point seeded, the labels are the orbit labelling.
proof fn lemma_seeded_done(generators: Seq<Seq<usize>>, n: int, labels: Seq<usize>, seeds: Seq<int>, next: int)
    requires
        seeded(generators, n, labels, seeds, next, n),
    ensures
        orbit_labelling(generators, n, labels),
{
    lemma_seeded_rest(generators, n, labels, seeds, next);
    assert forall|p: int| 0 <= p < n implies #[trigger] reached_from_first(generators, labels, p) by {
        lemma_seeded_witness(generators, n, labels, seeds, next, p);
        let s = seeds[labels[p] as int];
        assert(labels[s] == labels[p]);
    }
}

/// Every point reached from a labelled point is labelled, when labelled
/// points send all their images to labelled points.
proof fn lemma_closed_reach(generators: Seq<Seq<usize>>, n: int, labels: Seq<usize>, s: int, q: int)
    requires
        generators_within(generators, n),
        labels.len() == n,
        forall|p: int, g: int|
            0 <= p < n && 0 <= g < generators.len() && labels[p] != unlabeled() ==> #[trigger] labels[generators[g][p] as int]
                != unlabeled(),
        0 <= s < n,
        labels[s] != unlabeled(),
        reachable(generators, s, q),
    ensures
        labels[q] != unlabeled(),
{
    reveal(reachable);
    let w = choose|w: Seq<usize>| #[trigger] is_walk(generators, w) && w[0] == s && w.last() == q;
    lemma_walk_labeled(generators, n, labels, w, w.len() - 1);
}

/// Along a walk from a labelled point, every point is labelled.
proof fn lemma_walk_labeled(generators: Seq<Seq<usize>>, n: int, labels: Seq<usize>, w: Seq<usize>, i: int)
    requires
        generators_within(generators, n),
        labels.len() == n,
        forall|p: int, g: int|
            0 <= p < n && 0 <= g < generators.len() && labels[p] != unlabeled() ==> #[trigger] labels[generators[g][p] as int]
                != unlabeled(),
        is_walk(generators, w),
        0 <= i < w.len(),
        w[0] < n,
        labels[w[0] as int] != unlabeled(),
    ensures
        w[i] < n,
        labels[w[i] as int] != unlabeled(),
    decreases i,
{
    if i > 0 {
        let j = i - 1;
        lemma_walk_labeled(generators, n, labels, w, j);
        assert(step(generators, w[j] as int, w[j + 1] as int));
        let g = choose|g: int| 0 <= g < generators.len() && #[trigger] generators[g][w[j] as int] == w[j + 1];
        assert(generators[g][w[j] as int] < n);
    }
}

/// Labels each point with the index of its orbit under the generators,
/// numbering orbits in order of their least points.
pub fn point_orbit_ids(point_count: usize, generator_permutations: &Vec<Vec<usize>>) -> (r: Vec<usize>)
    requires
        generators_within(generator_permutations@.map_values(|v: Vec<usize>| v@), point_count as int),
    ensures
        orbit_labelling(generator_permutations@.map_values(|v: Vec<usize>| v@), point_count as int, r@),
{
    let ghost gens = generator_permutations@.map_values(|v: Vec<usize>| v@);
    let n = point_count;
    let mut labels: Vec<usize> = Vec::new();
    let mut k: usize = 0;
    while k < n
        invariant
            k <= n,
            labels@.len() == k,
            forall|q: int| 0 <= q < k ==> #[trigger] labels@[q] == unlabeled(),
        decreases n - k,
    {
        labels.push(usize::MAX);
        k += 1;
    }
    proof {
        lemma_seeded_start(gens, n as int, labels@);
    }
    let ghost mut seeds: Seq<int> = Seq::empty();
    let mut next: usize = 0;
    let mut seed: usize = 0;
    while seed < n
        invariant
            gens == generator_permutations@.map_values(|v: Vec<usize>| v@),
            generators_within(gens, n as int),
            labels@.len() == n,
            next <= seed <= n,
            seeded(gens, n as int, labels@, seeds, next as int, seed as int),
        decreases n - seed,
    {
        if labels[seed] != usize::MAX {
            proof {
                lemma_seeded_skip(gens, n as int, labels@, seeds, next as int, seed as int);
            }
            seed += 1;
        } else {
            let ghost before = labels@;
            proof {
                lemma_search_start(gens, n as int, before, seeds, next as int, seed as int);
                assert(next <= seed);
            }
            labels.set(seed, next);
            let mut queue: Vec<usize> = Vec::new();
            queue.push(seed);
            assert(queue@ =~= seq![seed]);
            let ghost mut slots: Seq<int> = Seq::new(n as nat, |q: int| 0);
            let mut head: usize = 0;
            while head < queue.len()
                invariant
                    gens == generator_permutations@.map_values(|v: Vec<usize>| v@),
                    generators_within(gens, n as int),
                    seeded(gens, n as int, before, seeds, next as int, seed as int),
                    before[seed as int] == unlabeled(),
                    labels@.len() == n,
                    head <= queue@.len(),
                    searching(gens, n as int, before, labels@, next as int, seed as int, queue@, slots, head as int),
                decreases n - head,
            {
                proof {
                    lemma_search_facts(gens, n as int, before, labels@, next as int, seed as int, queue@, slots, head as int);
                }
                let point = queue[head];
                let mut g: usize = 0;
                while g < generator_permutations.len()
                    invariant
                        gens == generator_permutations@.map_values(|v: Vec<usize>| v@),
                        generators_within(gens, n as int),
                        labels@.len() == n,
                        head < queue@.len(),
                        point == queue@[head as int],
                        point < n,
                        g <= gens.len(),
                        searching(gens, n as int, before, labels@, next as int, seed as int, queue@, slots, head as int),
                        forall|h: int| 0 <= h < g ==> #[trigger] labels@[gens[h][point as int] as int] != unlabeled(),
                    decreases gens.len() - g,
                {
                    assert(generator_permutations@[g as int]@ == gens[g as int]);
                    let image = generator_permutations[g][point];
                    proof {
                        lemma_search_facts(gens, n as int, before, labels@, next as int, seed as int, queue@, slots, head as int);
                    }
                    if labels[image] == usize::MAX {
                        proof {
                            lemma_search_push(
                                gens,
                                n as int,
                                before,
                                labels@,
                                next as int,
                                seed as int,
                                queue@,
                                slots,
                                head as int,
                                point as int,
                                g as int,
                            );
                            slots = slots.update(image as int, queue@.len() as int);
                        }
                        labels.set(image, next);
                        queue.push(image);
                    }
                    g += 1;
                }
                proof {
                    lemma_search_advance(gens, n as int, before, labels@, next as int, seed as int, queue@, slots, head as int);
                }
                head += 1;
            }
            proof {
                lemma_search_done(gens, n as int, before, seeds, labels@, next as int, seed as int, queue@, slots);
                seeds = seeds.push(seed as int);
            }
            next += 1;
            seed += 1;
        }
    }
    proof {
        lemma_seeded_done(gens, n as int, labels@, seeds, next as int);
    }
    labels
}

/// The points of each orbit in increasing order, orbit by orbit: every
/// point is listed once, in the list of its label, and there is one list
/// per label up to the largest.
pub fn orbit_points(point_to_orbit: &[usize]) -> (r: Vec<Vec<usize>>)
    requires
        forall|p: int| 0 <= p < point_to_orbit@.len() ==> #[trigger] point_to_orbit@[p] < point_to_orbit@.len(),
    ensures
        r@.len() == layer_count_of(point_to_orbit@),
        layers_partition(seqs_of(r@), point_to_orbit@),
        increasing_layers(seqs_of(r@)),
{
    let n = point_to_orbit.len();
    let mut orbit_count: usize = 0;
    let mut i: usize = 0;
    while i < n
        invariant
            n == point_to_orbit@.len(),
            i <= n,
            forall|p: int| 0 <= p < n ==> #[trigger] point_to_orbit@[p] < n,
            orbit_count == layer_count_of(point_to_orbit@.take(i as int)),
            orbit_count <= n,
        decreases n - i,
    {
        assert(point_to_orbit@.take(i + 1).drop_last() =~= point_to_orbit@.take(i as int));
        if point_to_orbit[i] + 1 > orbit_count {
            orbit_count = point_to_orbit[i] + 1;
        }
        i += 1;
    }
    assert(point_to_orbit@.take(n as int) =~= point_to_orbit@);
    proof {
        lemma_layer_count_bounds(point_to_orbit@);
    }
    let mut orbits: Vec<Vec<usize>> = Vec::new();
    let mut k: usize = 0;
    while k < orbit_count
        invariant
            k <= orbit_count,
            orbits@.len() == k,
            forall|j: int| 0 <= j < k ==> (#[trigger] orbits@[j])@.len() == 0,
        decreases orbit_count - k,
    {
        orbits.push(Vec::new());
        k += 1;
    }
    let ghost labels = point_to_orbit@;
    assert(layers_partition(seqs_of(orbits@), labels.take(0)));
    assert(increasing_layers(seqs_of(orbits@)));
    let mut point: usize = 0;
    while point < n
        invariant
            n == labels.len(),
            labels == point_to_orbit@,
            point <= n,
            orbits@.len() == orbit_count,
            orbit_count == layer_count_of(labels),
            forall|p: int| 0 <= p < n ==> #[trigger] labels[p] < orbit_count,
            layers_partition(seqs_of(orbits@), labels.take(point as int)),
            increasing_layers(seqs_of(orbits@)),
        decreases n - point,
    {
        let orbit = point_to_orbit[point];
        proof {
            lemma_add_vertex(seqs_of(orbits@), labels.take(point as int), orbit);
            assert(labels.take(point as int).push(orbit) =~= labels.take(point + 1));
        }
        push_into(&mut orbits, orbit, point);
        point += 1;
    }
    assert(labels.take(n as int) =~= labels);
    orbits
}

/// A permutation of `0..len` reaches every element.
pub proof fn lemma_permutation_onto(image: Seq<usize>, len: int, p: int)
    requires
        is_permutation(image, len),
        0 <= p < len,
    ensures
        exists|q: int| 0 <= q < len && #[trigger] image[q] == p,
{
    let t = image.map_values(|v: usize| v as int);
    assert(t.no_duplicates()) by {
        assert forall|a: int, b: int| 0 <= a < t.len() && 0 <= b < t.len() && a != b implies t[a] != t[b] by {
            if a < b {
                assert(!bad_at(image, len, b));
            } else {
                assert(!bad_at(image, len, a));
            }
        }
    }
    t.unique_seq_to_set();
    vstd::set_lib::lemma_int_range(0, len);
    let range = vstd::set_lib::set_int_range(0, len);
    assert(t.to_set().subset_of(range)) by {
        assert forall|v: int| t.to_set().contains(v) implies range.contains(v) by {
            let q = choose|q: int| 0 <= q < t.len() && t[q] == v;
            assert(!bad_at(image, len, q));
        }
    }
    vstd::set_lib::lemma_len_subset(t.to_set(), range);
    vstd::set_lib::lemma_subset_equality(t.to_set(), range);
    assert(range.contains(p));
    assert(t.to_set().contains(p));
    let q = choose|q: int| 0 <= q < t.len() && t[q] == p;
    assert(image[q] == p);
}

} // verus!
