//! Integer building blocks of poset layouts: centered slots within a layer,
//! the ranked id-order grid, and a Fenwick tree for counting crossings.

use crate::edges::Edge;
use crate::tikz::geometry::{
    crossing_total, edges_within, fewer_defects, node_total, overlap_total, point_bounded, points_bounded,
    straight_geometry_defects, GridPoint, StraightGeometryDefects,
};
use vstd::prelude::*;

verus! {

/// The algorithm used to assign coordinates to elements of a finite poset.
#[derive(Debug, Clone, Copy, PartialEq, Eq, Structural)]
pub enum PosetLayoutAlgorithm {
    /// Place elements at their earliest possible height and order by element id.
    ///
    /// The height of `x` is the length of a longest chain from a minimal
    /// element to `x`. This deterministic layout performs no crossing
    /// optimization.
    Ranked,
    /// Center feasible heights and heuristically reduce edge crossings.
    ///
    /// Elements of a non-graded poset may have vertical slack between their
    /// earliest and latest feasible heights. The algorithm centers each one in
    /// that interval, inserts temporary vertices where cover edges span
    /// multiple layers, and repeatedly reorders layers to improve straight-line
    /// geometry. Temporary vertices are used only for optimization and are not
    /// rendered.
    CrossingReduced,
}

impl Default for PosetLayoutAlgorithm {
    fn default() -> (r: Self)
        ensures
            r == PosetLayoutAlgorithm::CrossingReduced,
    {
        PosetLayoutAlgorithm::CrossingReduced
    }
}

/// Twice the offset of slot `position` from the center of a layer of
/// `layer_width` slots: consecutive slots are two apart and the layer is
/// symmetric about zero.
pub open spec fn centered_slot(position: int, layer_width: int) -> int {
    2 * position - if layer_width == 0 { 0 } else { layer_width - 1 }
}

/// Twice the centered offset of a slot within its layer.
pub fn doubled_centered_slot(position: usize, layer_width: usize) -> (r: i64)
    requires
        2 * position <= i64::MAX,
        layer_width <= i64::MAX + 1,
    ensures
        r == centered_slot(position as int, layer_width as int),
{
    let half: i64 = position as i64;
    let offset: i64 = layer_width.saturating_sub(1) as i64;
    2 * half - offset
}

/// The number of entries of `s[..end]` equal to `v`.
pub open spec fn count_before(s: Seq<usize>, v: usize, end: int) -> nat
    decreases end,
{
    if end <= 0 || s.len() == 0 {
        0
    } else if end > s.len() {
        count_before(s, v, s.len() as int)
    } else {
        count_before(s, v, end - 1) + if s[end - 1] == v { 1nat } else { 0nat }
    }
}

proof fn lemma_count_before_bounds(s: Seq<usize>, v: usize, end: int)
    requires
        0 <= end <= s.len(),
    ensures
        count_before(s, v, end) <= end,
    decreases end,
{
    if end > 0 {
        lemma_count_before_bounds(s, v, end - 1);
    }
}

proof fn lemma_count_before_monotone(s: Seq<usize>, v: usize, a: int, b: int)
    requires
        0 <= a <= b <= s.len(),
    ensures
        count_before(s, v, a) <= count_before(s, v, b),
        a < b && s[a] == v ==> count_before(s, v, a) < count_before(s, v, b),
    decreases b - a,
{
    if a < b {
        lemma_count_before_monotone(s, v, a, b - 1);
        if a < b - 1 {
            lemma_count_before_monotone(s, v, a, a + 1);
        }
    }
}

/// The id-order grid point of element `id`: its rank gives the height and
/// the elements of equal rank are spread left to right by id.
pub open spec fn id_order_point(ranks: Seq<usize>, id: int) -> GridPoint {
    GridPoint {
        x: centered_slot(
            count_before(ranks, ranks[id], id) as int,
            count_before(ranks, ranks[id], ranks.len() as int) as int,
        ) as i64,
        y: (2 * ranks[id]) as i64,
    }
}

/// Places each element at twice its rank, spreading each rank's elements
/// left to right in id order around a common center.
pub fn id_order_grid_points(ranks: &[usize]) -> (r: Vec<GridPoint>)
    requires
        2 * ranks@.len() <= i64::MAX,
        forall|i: int| 0 <= i < ranks@.len() ==> 2 * #[trigger] ranks@[i] <= i64::MAX && ranks@[i] < usize::MAX,
    ensures
        r@.len() == ranks@.len(),
        forall|i: int| 0 <= i < ranks@.len() ==> #[trigger] r@[i] == id_order_point(ranks@, i),
{
    let n = ranks.len();
    let mut layer_count: usize = 0;
    let mut k: usize = 0;
    while k < n
        invariant
            n == ranks@.len(),
            k <= n,
            forall|i: int| 0 <= i < n ==> 2 * #[trigger] ranks@[i] <= i64::MAX && ranks@[i] < usize::MAX,
            forall|i: int| 0 <= i < k ==> #[trigger] ranks@[i] < layer_count,
            layer_count <= i64::MAX,
        decreases n - k,
    {
        assert(2 * ranks@[k as int] <= i64::MAX);
        if ranks[k] >= layer_count {
            layer_count = ranks[k] + 1;
        }
        k += 1;
    }
    let mut sizes: Vec<usize> = Vec::new();
    let mut r: usize = 0;
    while r < layer_count
        invariant
            r <= layer_count,
            sizes@.len() == r,
            forall|q: int| 0 <= q < r ==> #[trigger] sizes@[q] == 0,
        decreases layer_count - r,
    {
        sizes.push(0);
        r += 1;
    }
    let mut k: usize = 0;
    while k < n
        invariant
            n == ranks@.len(),
            k <= n,
            sizes@.len() == layer_count,
            forall|i: int| 0 <= i < n ==> #[trigger] ranks@[i] < layer_count,
            forall|q: int| 0 <= q < layer_count ==> #[trigger] sizes@[q] == count_before(ranks@, q as usize, k as int),
        decreases n - k,
    {
        let rank = ranks[k];
        proof {
            lemma_count_before_bounds(ranks@, rank, k as int);
        }
        let size = sizes[rank];
        sizes.set(rank, size + 1);
        k += 1;
    }
    let mut seen: Vec<usize> = Vec::new();
    let mut r: usize = 0;
    while r < layer_count
        invariant
            r <= layer_count,
            seen@.len() == r,
            forall|q: int| 0 <= q < r ==> #[trigger] seen@[q] == 0,
        decreases layer_count - r,
    {
        seen.push(0);
        r += 1;
    }
    let mut points: Vec<GridPoint> = Vec::new();
    let mut k: usize = 0;
    while k < n
        invariant
            n == ranks@.len(),
            2 * n <= i64::MAX,
            k <= n,
            sizes@.len() == layer_count,
            seen@.len() == layer_count,
            forall|i: int| 0 <= i < n ==> #[trigger] ranks@[i] < layer_count,
            forall|i: int| 0 <= i < n ==> 2 * #[trigger] ranks@[i] <= i64::MAX,
            forall|q: int| 0 <= q < layer_count ==> #[trigger] sizes@[q] == count_before(ranks@, q as usize, n as int),
            forall|q: int| 0 <= q < layer_count ==> #[trigger] seen@[q] == count_before(ranks@, q as usize, k as int),
            points@.len() == k,
            forall|i: int| 0 <= i < k ==> #[trigger] points@[i] == id_order_point(ranks@, i),
        decreases n - k,
    {
        let rank = ranks[k];
        let position = seen[rank];
        proof {
            lemma_count_before_bounds(ranks@, rank, k as int);
            lemma_count_before_bounds(ranks@, rank, n as int);
            lemma_count_before_monotone(ranks@, rank, k as int, n as int);
        }
        let x = doubled_centered_slot(position, sizes[rank]);
        points.push(GridPoint { x, y: 2 * (rank as i64) });
        seen.set(rank, position + 1);
        k += 1;
    }
    points
}

/// The lowest set bit of `i`.
pub open spec fn low_bit(i: usize) -> usize {
    i & !((i - 1) as usize)
}

/// The Fenwick node `j` stores the sum of the values at positions
/// `j - low_bit(j) .. j`, and so counts position `q`.
pub open spec fn node_covers(j: usize, q: usize) -> bool {
    j - low_bit(j) <= q < j
}

proof fn lemma_low_bit(i: usize)
    requires
        i > 0,
    ensures
        0 < low_bit(i) <= i,
        i & ((i - 1) as usize) == i - low_bit(i),
{
    assert(0 < low_bit(i) <= i) by (bit_vector)
        requires
            i > 0,
    ;
    assert(i & ((i - 1) as usize) == i - low_bit(i)) by (bit_vector)
        requires
            i > 0,
    ;
}

/// Walking up from a node that counts `q`, the next node, `i + low_bit(i)`,
/// counts `q` too and no node in between does.
proof fn lemma_cover_path(i: usize, j: usize, q: usize)
    requires
        i > 0,
        j > 0,
        node_covers(i, q),
        node_covers(j, q),
        i < j,
    ensures
        i + low_bit(i) <= j,
{
    assert(i + low_bit(i) <= j) by (bit_vector)
        requires
            i > 0,
            j > 0,
            j - low_bit(j) <= q < j,
            i - low_bit(i) <= q < i,
            i < j,
    ;
}

proof fn lemma_cover_next(i: usize, q: usize)
    requires
        i > 0,
        node_covers(i, q),
        i + low_bit(i) <= usize::MAX,
    ensures
        node_covers((i + low_bit(i)) as usize, q),
        i + low_bit(i) > i,
{
    let next = (i + low_bit(i)) as usize;
    assert(next - low_bit(next) <= i - low_bit(i) && next > i) by (bit_vector)
        requires
            i > 0,
            next == i + low_bit(i),
    ;
}

/// The sum of `values[lo..hi]`.
pub open spec fn sum_range(values: Seq<nat>, lo: int, hi: int) -> int
    decreases hi - lo,
{
    if hi <= lo {
        0
    } else {
        sum_range(values, lo, hi - 1) + values[hi - 1]
    }
}

pub(crate) proof fn lemma_sum_split(values: Seq<nat>, lo: int, mid: int, hi: int)
    requires
        lo <= mid <= hi,
    ensures
        sum_range(values, lo, hi) == sum_range(values, lo, mid) + sum_range(values, mid, hi),
    decreases hi - mid,
{
    if mid < hi {
        lemma_sum_split(values, lo, mid, hi - 1);
    }
}

pub(crate) proof fn lemma_sum_nonnegative(values: Seq<nat>, lo: int, hi: int)
    ensures
        sum_range(values, lo, hi) >= 0,
    decreases hi - lo,
{
    if lo < hi {
        lemma_sum_nonnegative(values, lo, hi - 1);
    }
}

pub(crate) proof fn lemma_sum_update(values: Seq<nat>, q: int, x: nat, lo: int, hi: int)
    requires
        0 <= q < values.len(),
        0 <= lo,
        hi <= values.len(),
    ensures
        sum_range(values.update(q, values[q] + x), lo, hi) == sum_range(values, lo, hi) + if lo <= q < hi {
            x as int
        } else {
            0
        },
    decreases hi - lo,
{
    if lo < hi {
        lemma_sum_update(values, q, x, lo, hi - 1);
    }
}

/// The counts after the additions `adds`, in order: each `(index, value)`
/// raises the count at `index` by `value`, and one past the last count
/// changes nothing.
pub open spec fn added_counts(values: Seq<nat>, adds: Seq<(int, nat)>) -> Seq<nat>
    decreases adds.len(),
{
    if adds.len() == 0 {
        values
    } else {
        let v = added_counts(values, adds.drop_last());
        let (index, value) = adds.last();
        if 0 <= index < v.len() {
            v.update(index, v[index] + value)
        } else {
            v
        }
    }
}

/// The total of the values added at indices below `end`.
pub open spec fn added_below(adds: Seq<(int, nat)>, end: int) -> int
    decreases adds.len(),
{
    if adds.len() == 0 {
        0
    } else {
        added_below(adds.drop_last(), end) + if 0 <= adds.last().0 < end {
            adds.last().1 as int
        } else {
            0
        }
    }
}

/// After a run of additions, the prefix sum up to `end` is the one before
/// plus every value that was added at an index below `end`; values added
/// at or past `end` leave it unchanged.
pub proof fn lemma_prefix_sum_after_adds(values: Seq<nat>, adds: Seq<(int, nat)>, end: int)
    requires
        0 <= end <= values.len(),
    ensures
        added_counts(values, adds).len() == values.len(),
        sum_range(added_counts(values, adds), 0, end) == sum_range(values, 0, end) + added_below(adds, end),
    decreases adds.len(),
{
    if adds.len() > 0 {
        lemma_prefix_sum_after_adds(values, adds.drop_last(), end);
        let v = added_counts(values, adds.drop_last());
        let (index, value) = adds.last();
        if 0 <= index < v.len() {
            lemma_sum_update(v, index, value, 0, end);
        }
    }
}

pub(crate) proof fn lemma_sum_zero(values: Seq<nat>, lo: int, hi: int)
    requires
        0 <= lo,
        hi <= values.len(),
        forall|k: int| lo <= k < hi ==> #[trigger] values[k] == 0,
    ensures
        sum_range(values, lo, hi) == 0,
    decreases hi - lo,
{
    if lo < hi {
        lemma_sum_zero(values, lo, hi - 1);
    }
}

/// A Fenwick tree of counts: prefix sums and point updates in logarithmic
/// time.
pub struct FenwickTree {
    entries: Vec<u64>,
    values: Ghost<Seq<nat>>,
}

impl View for FenwickTree {
    type V = Seq<nat>;

    closed spec fn view(&self) -> Seq<nat> {
        self.values@
    }
}

impl FenwickTree {
    /// The sum of all counts.
    pub open spec fn total(&self) -> int {
        sum_range(self@, 0, self@.len() as int)
    }

    /// Every node stores the sum of its range and the total fits in a `u64`.
    pub closed spec fn wf(&self) -> bool {
        &&& self.entries@.len() == self@.len() + 1
        &&& self.entries@.len() <= usize::MAX / 2
        &&& self.total() <= u64::MAX
        &&& forall|j: int| 0 < j < self.entries@.len() ==> #[trigger] self.entries@[j] == sum_range(self@, j - low_bit(j as usize), j)
    }

    /// A tree of `size` zero counts.
    pub fn new(size: usize) -> (r: Self)
        requires
            size < usize::MAX / 2,
        ensures
            r.wf(),
            r@ == Seq::new(size as nat, |k: int| 0nat),
    {
        let ghost values = Seq::new(size as nat, |k: int| 0nat);
        let mut entries: Vec<u64> = Vec::new();
        let mut k: usize = 0;
        while k <= size
            invariant
                k <= size + 1,
                size < usize::MAX / 2,
                entries@.len() == k,
                forall|j: int| 0 <= j < k ==> #[trigger] entries@[j] == 0,
            decreases size + 1 - k,
        {
            entries.push(0);
            k += 1;
        }
        let r = FenwickTree { entries, values: Ghost(values) };
        proof {
            assert forall|j: int| 0 < j < r.entries@.len() implies #[trigger] r.entries@[j] == sum_range(r@, j - low_bit(j as usize), j) by {
                lemma_low_bit(j as usize);
                lemma_sum_zero(values, j - low_bit(j as usize), j);
            }
            lemma_sum_zero(values, 0, size as int);
        }
        r
    }

    /// Adds `value` to the count at `index`; an index past the last count
    /// leaves the tree as it is.
    pub fn add(&mut self, index: usize, value: u64)
        requires
            old(self).wf(),
            index < usize::MAX,
            index < old(self)@.len() ==> old(self).total() + value <= u64::MAX,
        ensures
            final(self).wf(),
            index < old(self)@.len() ==> final(self)@ == old(self)@.update(
                index as int,
                (old(self)@[index as int] + value) as nat,
            ),
            index >= old(self)@.len() ==> *final(self) == *old(self),
    {
        if index >= self.entries.len() - 1 {
            return;
        }
        let ghost before = self@;
        let ghost after = before.update(index as int, (before[index as int] + value) as nat);
        let ghost old_entries = self.entries@;
        let len = self.entries.len();
        let mut i = index + 1;
        proof {
            lemma_low_bit(i);
        }
        while i < len
            invariant
                len == self.entries@.len(),
                len == before.len() + 1,
                len <= usize::MAX / 2,
                old_entries.len() == len,
                index < before.len(),
                self@ == before,
                sum_range(before, 0, before.len() as int) + value <= u64::MAX,
                0 < i,
                node_covers(i, index),
                forall|j: int| 0 < j < len ==> old_entries[j] == sum_range(before, j - low_bit(j as usize), j),
                forall|j: int| 0 < j < len ==> #[trigger] self.entries@[j] == old_entries[j] + if j < i && node_covers(j as usize, index) {
                    value as int
                } else {
                    0
                },
            decreases usize::MAX - i,
        {
            proof {
                lemma_low_bit(i);
                lemma_sum_split(before, 0, i - low_bit(i), i as int);
                lemma_sum_split(before, 0, i as int, before.len() as int);
                lemma_sum_nonnegative(before, 0, i - low_bit(i));
                lemma_sum_nonnegative(before, i as int, before.len() as int);
            }
            assert(i & !((i - 1) as usize) == low_bit(i));
            let entry = self.entries[i];
            self.entries.set(i, entry + value);
            let next = i + (i & !(i - 1));
            proof {
                lemma_cover_next(i, index);
                assert forall|j: int| 0 < j < len && i < j < next implies !#[trigger] node_covers(j as usize, index) by {
                    if node_covers(j as usize, index) {
                        lemma_cover_path(i, j as usize, index);
                    }
                }
            }
            i = next;
        }
        proof {
            self.values = Ghost(after);
            assert forall|j: int| 0 < j < self.entries@.len() implies #[trigger] self.entries@[j] == sum_range(self@, j - low_bit(j as usize), j) by {
                lemma_low_bit(j as usize);
                lemma_sum_update(before, index as int, value as nat, j - low_bit(j as usize), j);
                if node_covers(j as usize, index) && j >= i {
                    lemma_cover_path(i, j as usize, index);
                }
            }
            lemma_sum_update(before, index as int, value as nat, 0, before.len() as int);
        }
    }

    /// Returns the sum of the counts at indices strictly below `end`.
    pub fn prefix_sum(&self, end: usize) -> (r: u64)
        requires
            self.wf(),
            end <= self@.len(),
        ensures
            r == sum_range(self@, 0, end as int),
    {
        let mut index = end;
        let mut sum: u64 = 0;
        while index > 0
            invariant
                self.wf(),
                index <= end <= self@.len(),
                sum + sum_range(self@, 0, index as int) == sum_range(self@, 0, end as int),
            decreases index,
        {
            proof {
                lemma_low_bit(index);
                lemma_sum_split(self@, 0, index - low_bit(index), index as int);
                lemma_sum_split(self@, 0, end as int, self@.len() as int);
                lemma_sum_split(self@, 0, index as int, end as int);
                lemma_sum_nonnegative(self@, 0, index - low_bit(index));
                lemma_sum_nonnegative(self@, end as int, self@.len() as int);
                lemma_sum_nonnegative(self@, index as int, end as int);
            }
            sum = sum + self.entries[index];
            index = index & (index - 1);
        }
        sum
    }
}

/// The id-order grid points of all elements.
pub open spec fn id_order_points(ranks: Seq<usize>) -> Seq<GridPoint> {
    Seq::new(ranks.len(), |i: int| id_order_point(ranks, i))
}

/// The defects of the straight covers in the id-order layout.
pub open spec fn id_order_defects(covers: Seq<Edge>, ranks: Seq<usize>) -> StraightGeometryDefects {
    let points = id_order_points(ranks);
    StraightGeometryDefects {
        proper_crossings: crossing_total(covers, points) as u64,
        node_intersections: node_total(covers, points) as u64,
        collinear_overlaps: overlap_total(covers, points) as u64,
    }
}

/// Whether the ranked id-order layout draws the covers with fewer defects
/// than the `improved` ones of an optimised layout.
pub fn ranked_layout_is_better(covers: &[Edge], earliest: &[usize], improved: &StraightGeometryDefects) -> (r: bool)
    requires
        edges_within(covers@, earliest@.len() as int),
        covers@.len() <= u32::MAX,
        earliest@.len() <= 0x4000_0000,
        forall|i: int| 0 <= i < earliest@.len() ==> #[trigger] earliest@[i] < 0x4000_0000,
    ensures
        r == fewer_defects(id_order_defects(covers@, earliest@), *improved),
{
    let points = id_order_grid_points(earliest);
    proof {
        let ranks = earliest@;
        assert forall|i: int| 0 <= i < points@.len() implies point_bounded(#[trigger] points@[i]) by {
            lemma_count_before_bounds(ranks, ranks[i], i);
            lemma_count_before_bounds(ranks, ranks[i], ranks.len() as int);
        }
        assert(points@ =~= id_order_points(ranks));
    }
    let baseline = straight_geometry_defects(covers, &points);
    baseline.is_fewer_than(improved)
}

} // verus!
