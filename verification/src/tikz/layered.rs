//! The proper layered graph on which crossing reduction works: every cover
//! edge is subdivided at each intervening level by a temporary vertex, so
//! that every edge joins adjacent layers.

use crate::edges::Edge;
use crate::permutation_action::{is_permutation, lemma_permutation_onto, validate_permutation, bad_at};
use crate::tikz::counting::distinct_entries;
use crate::tikz::geometry::{
    crossing_total, edges_within, lemma_contribution_isolates_moves, lemma_contribution_within_total,
    lemma_totals_fit, node_total, overlap_total, point_bounded, points_bounded, straight_geometry_contribution,
    straight_geometry_defects, GridPoint, StraightGeometryDefects,
};
use crate::tikz::layout::{
    centered_slot, doubled_centered_slot, lemma_sum_nonnegative, lemma_sum_split, lemma_sum_update,
    lemma_sum_zero, sum_range, FenwickTree,
};
use vstd::prelude::*;

verus! {

/// The largest number of vertices, and of layers, a layered graph may have.
pub open spec fn layered_limit() -> int {
    0x4000_0000
}

/// Vertex `v` sits at position `p` of its layer.
pub open spec fn placed_at(layers: Seq<Seq<usize>>, levels: Seq<usize>, v: int, p: int) -> bool {
    0 <= p < layers[levels[v] as int].len() && layers[levels[v] as int][p] == v
}

/// The position at which vertex `v` sits in its layer.
pub open spec fn position_in(layers: Seq<Seq<usize>>, levels: Seq<usize>, v: int) -> int {
    choose|p: int| placed_at(layers, levels, v, p)
}

/// The layers list every vertex exactly once, in the layer of its level.
pub open spec fn layers_partition(layers: Seq<Seq<usize>>, levels: Seq<usize>) -> bool {
    &&& forall|v: int| 0 <= v < levels.len() ==> (#[trigger] levels[v]) < layers.len()
    &&& forall|l: int, p: int|
        0 <= l < layers.len() && 0 <= p < layers[l].len() ==> (#[trigger] layers[l][p]) < levels.len()
            && levels[layers[l][p] as int] == l
    &&& forall|l: int, p: int, q: int|
        0 <= l < layers.len() && 0 <= p < q < layers[l].len() ==> #[trigger] layers[l][p] != #[trigger] layers[l][q]
    &&& forall|v: int| 0 <= v < levels.len() ==> #[trigger] is_placed(layers, levels, v)
}

/// Vertex `v` sits somewhere in its layer.
pub open spec fn is_placed(layers: Seq<Seq<usize>>, levels: Seq<usize>, v: int) -> bool {
    exists|p: int| #[trigger] placed_at(layers, levels, v, p)
}

/// Every listed neighbour is a vertex one level above (`step == 1`) or one
/// level below (`step == -1`).
pub open spec fn adjacency_steps(lists: Seq<Seq<usize>>, levels: Seq<usize>, step: int) -> bool {
    forall|a: int, t: int|
        0 <= a < lists.len() && 0 <= t < lists[a].len() ==> (#[trigger] lists[a][t]) < levels.len()
            && levels[lists[a][t] as int] == levels[a] + step
}

/// The most upper neighbours a vertex may list.
pub open spec fn neighbour_limit() -> int {
    0x2_0000_0000
}

/// Every list is at most `bound` long.
pub open spec fn lists_bounded(lists: Seq<Seq<usize>>, bound: int) -> bool {
    forall|a: int| 0 <= a < lists.len() ==> (#[trigger] lists[a]).len() <= bound
}

/// Adding an empty list keeps the lists bounded.
proof fn lemma_bounded_push_empty(lists: Seq<Seq<usize>>, bound: int)
    requires
        lists_bounded(lists, bound),
        bound >= 0,
    ensures
        lists_bounded(lists.push(Seq::empty()), bound),
{
    assert forall|a: int| 0 <= a < lists.len() + 1 implies (#[trigger] lists.push(Seq::empty())[a]).len() <= bound by {
        if a < lists.len() {
            assert(lists.push(Seq::empty())[a] == lists[a]);
        }
    }
}

/// The views of a list of vectors.
pub open spec fn seqs_of(v: Seq<Vec<usize>>) -> Seq<Seq<usize>> {
    Seq::new(v.len(), |i: int| v[i]@)
}

/// The number of temporary vertices that subdividing `covers` needs: one
/// per level strictly between the ends of each cover.
pub open spec fn subdivision_count(levels: Seq<usize>, covers: Seq<Edge>) -> int
    decreases covers.len(),
{
    if covers.len() == 0 {
        0
    } else {
        let c = covers.last();
        subdivision_count(levels, covers.drop_last()) + (levels[c.to as int] - levels[c.from as int] - 1)
    }
}

/// The number of layers that `levels` need: one more than the highest.
pub open spec fn layer_count_of(levels: Seq<usize>) -> int
    decreases levels.len(),
{
    if levels.len() == 0 {
        0
    } else {
        let rest = layer_count_of(levels.drop_last());
        if levels.last() + 1 > rest {
            levels.last() + 1
        } else {
            rest
        }
    }
}

pub(crate) proof fn lemma_layer_count_bounds(levels: Seq<usize>)
    ensures
        forall|v: int| 0 <= v < levels.len() ==> #[trigger] levels[v] < layer_count_of(levels),
        layer_count_of(levels) == 0 || exists|v: int| 0 <= v < levels.len() && layer_count_of(levels) == #[trigger] levels[v] + 1,
    decreases levels.len(),
{
    if levels.len() > 0 {
        let front = levels.drop_last();
        lemma_layer_count_bounds(front);
        assert forall|v: int| 0 <= v < levels.len() implies #[trigger] levels[v] < layer_count_of(levels) by {
            if v < front.len() {
                assert(front[v] == levels[v]);
            }
        }
        if layer_count_of(levels) != levels.last() + 1 {
            let w = choose|w: int| 0 <= w < front.len() && layer_count_of(front) == #[trigger] front[w] + 1;
            assert(levels[w] == front[w]);
        }
    }
}

/// A proper layered graph made by subdividing every cover edge at each
/// intervening level.  Vertices below `real_count` are the poset's elements;
/// the rest are temporary vertices used only by crossing reduction.
pub struct LayeredCoverGraph {
    real_count: usize,
    real_edges: Vec<Edge>,
    levels: Vec<usize>,
    layers: Vec<Vec<usize>>,
    incoming: Vec<Vec<usize>>,
    outgoing: Vec<Vec<usize>>,
}

impl LayeredCoverGraph {
    /// The number of real vertices.
    pub closed spec fn real_count_view(&self) -> int {
        self.real_count as int
    }

    /// The cover edges between real vertices.
    pub closed spec fn real_edges_view(&self) -> Seq<Edge> {
        self.real_edges@
    }

    /// The level of every vertex.
    pub closed spec fn levels_view(&self) -> Seq<usize> {
        self.levels@
    }

    /// The vertices of every layer, left to right.
    pub closed spec fn layers_view(&self) -> Seq<Seq<usize>> {
        seqs_of(self.layers@)
    }

    /// The lower neighbours of every vertex.
    pub closed spec fn incoming_view(&self) -> Seq<Seq<usize>> {
        seqs_of(self.incoming@)
    }

    /// The upper neighbours of every vertex.
    pub closed spec fn outgoing_view(&self) -> Seq<Seq<usize>> {
        seqs_of(self.outgoing@)
    }

    /// The layers partition the vertices by level, every edge joins adjacent
    /// layers, and the sizes keep all grid arithmetic in range.
    pub open spec fn wf(&self) -> bool {
        let n = self.levels_view().len();
        &&& self.incoming_view().len() == n
        &&& self.outgoing_view().len() == n
        &&& self.real_count_view() <= n
        &&& n <= layered_limit()
        &&& self.layers_view().len() <= layered_limit()
        &&& self.real_edges_view().len() <= u32::MAX
        &&& edges_within(self.real_edges_view(), self.real_count_view())
        &&& layers_partition(self.layers_view(), self.levels_view())
        &&& adjacency_steps(self.outgoing_view(), self.levels_view(), 1)
        &&& adjacency_steps(self.incoming_view(), self.levels_view(), -1)
        &&& lists_bounded(self.outgoing_view(), neighbour_limit())
    }

    /// The position of vertex `v` within its layer.
    pub open spec fn position_of(&self, v: int) -> int {
        position_in(self.layers_view(), self.levels_view(), v)
    }

    /// The grid point of real vertex `id`: twice its centered slot across,
    /// its level up.
    pub open spec fn real_point(&self, id: int) -> GridPoint {
        let l = self.levels_view()[id] as int;
        GridPoint { x: centered_slot(self.position_of(id), self.layers_view()[l].len() as int) as i64, y: l as i64 }
    }

    /// The grid points of all real vertices.
    pub open spec fn real_points(&self) -> Seq<GridPoint> {
        Seq::new(self.real_count_view() as nat, |id: int| self.real_point(id))
    }

    /// The exact defects of the straight real edges at the current order:
    /// crossings, node intersections, overlaps.
    pub open spec fn real_defects(&self) -> (int, int, int) {
        (
            crossing_total(self.real_edges_view(), self.real_points()),
            node_total(self.real_edges_view(), self.real_points()),
            overlap_total(self.real_edges_view(), self.real_points()),
        )
    }
}

/// Appends `value` to the list at `at`.
pub(crate) fn push_into(lists: &mut Vec<Vec<usize>>, at: usize, value: usize)
    requires
        at < old(lists)@.len(),
    ensures
        final(lists)@.len() == old(lists)@.len(),
        seqs_of(final(lists)@) == seqs_of(old(lists)@).update(at as int, old(lists)@[at as int]@.push(value)),
{
    let mut list = lists[at].clone();
    assert(list@ == lists@[at as int]@);
    list.push(value);
    lists.set(at, list);
    assert(seqs_of(lists@) =~= seqs_of(old(lists)@).update(at as int, old(lists)@[at as int]@.push(value)));
    assert(lists@.len() == seqs_of(lists@).len());
}

/// Every layer lists its vertices in increasing order.
pub open spec fn increasing_layers(layers: Seq<Seq<usize>>) -> bool {
    forall|l: int, p: int, q: int|
        0 <= l < layers.len() && 0 <= p < q < layers[l].len() ==> #[trigger] layers[l][p] < #[trigger] layers[l][q]
}

/// Adding a new vertex at level `l` to the end of its layer keeps the layers
/// a partition and in increasing order.
pub(crate) proof fn lemma_add_vertex(layers: Seq<Seq<usize>>, levels: Seq<usize>, l: usize)
    requires
        layers_partition(layers, levels),
        increasing_layers(layers),
        l < layers.len(),
        levels.len() < usize::MAX,
    ensures
        layers_partition(
            layers.update(l as int, layers[l as int].push(levels.len() as usize)),
            levels.push(l),
        ),
        increasing_layers(layers.update(l as int, layers[l as int].push(levels.len() as usize))),
{
    let v = levels.len() as usize;
    let new_layers = layers.update(l as int, layers[l as int].push(v));
    let new_levels = levels.push(l);
    assert forall|w: int| 0 <= w < new_levels.len() implies #[trigger] is_placed(new_layers, new_levels, w) by {
        if w < levels.len() {
            assert(is_placed(layers, levels, w));
            let p = choose|p: int| #[trigger] placed_at(layers, levels, w, p);
            assert(placed_at(new_layers, new_levels, w, p));
        } else {
            assert(placed_at(new_layers, new_levels, w, layers[l as int].len() as int));
        }
    }
    assert forall|k: int, p: int|
        0 <= k < new_layers.len() && 0 <= p < new_layers[k].len() implies (#[trigger] new_layers[k][p])
        < new_levels.len() && new_levels[new_layers[k][p] as int] == k by {
        if k == l && p == layers[l as int].len() {
        } else {
            assert(new_layers[k][p] == layers[k][p]);
        }
    }
    assert forall|k: int, p: int, q: int|
        0 <= k < new_layers.len() && 0 <= p < q < new_layers[k].len() implies #[trigger] new_layers[k][p]
        < #[trigger] new_layers[k][q] by {
        if k == l && q == layers[l as int].len() {
            assert(new_layers[k][p] == layers[k][p]);
            assert(layers[k][p] < levels.len());
        } else {
            assert(new_layers[k][p] == layers[k][p]);
            assert(new_layers[k][q] == layers[k][q]);
        }
    }
}

/// Adding a vertex keeps every neighbour list pointing to vertices one
/// step away.
proof fn lemma_add_vertex_steps(lists: Seq<Seq<usize>>, levels: Seq<usize>, l: usize, step: int)
    requires
        adjacency_steps(lists, levels, step),
        lists.len() == levels.len(),
    ensures
        adjacency_steps(lists.push(Seq::empty()), levels.push(l), step),
{
    let new_lists = lists.push(Seq::<usize>::empty());
    let new_levels = levels.push(l);
    assert forall|a: int, t: int| 0 <= a < new_lists.len() && 0 <= t < new_lists[a].len() implies (#[trigger] new_lists[a][t])
        < new_levels.len() && new_levels[new_lists[a][t] as int] == new_levels[a] + step by {
        assert(a < lists.len());
        assert(new_lists[a][t] == lists[a][t]);
    }
}

/// Appending a neighbour one step away keeps the lists valid.
proof fn lemma_add_neighbour(lists: Seq<Seq<usize>>, levels: Seq<usize>, a: int, w: usize, step: int)
    requires
        adjacency_steps(lists, levels, step),
        0 <= a < lists.len(),
        w < levels.len(),
        levels[w as int] == levels[a] + step,
    ensures
        adjacency_steps(lists.update(a, lists[a].push(w)), levels, step),
{
    let new_lists = lists.update(a, lists[a].push(w));
    assert forall|b: int, t: int| 0 <= b < new_lists.len() && 0 <= t < new_lists[b].len() implies (#[trigger] new_lists[b][t])
        < levels.len() && levels[new_lists[b][t] as int] == levels[b] + step by {
        if b == a && t == lists[a].len() {
        } else {
            assert(new_lists[b][t] == lists[b][t]);
        }
    }
}

/// Records the edge from `from` to `to`, which lies one level higher.
fn add_edge(outgoing: &mut Vec<Vec<usize>>, incoming: &mut Vec<Vec<usize>>, levels: &Vec<usize>, from: usize, to: usize)
    requires
        old(outgoing)@.len() == levels@.len(),
        old(incoming)@.len() == levels@.len(),
        from < levels@.len(),
        to < levels@.len(),
        levels@[from as int] + 1 == levels@[to as int],
        adjacency_steps(seqs_of(old(outgoing)@), levels@, 1),
        adjacency_steps(seqs_of(old(incoming)@), levels@, -1),
    ensures
        final(outgoing)@.len() == levels@.len(),
        final(incoming)@.len() == levels@.len(),
        adjacency_steps(seqs_of(final(outgoing)@), levels@, 1),
        adjacency_steps(seqs_of(final(incoming)@), levels@, -1),
        seqs_of(final(outgoing)@) == seqs_of(old(outgoing)@).update(from as int, old(outgoing)@[from as int]@.push(to)),
        forall|b: int| 0 <= b < levels@.len() ==> (#[trigger] seqs_of(final(outgoing)@)[b]).len() <= seqs_of(old(outgoing)@)[b].len() + 1,
        seqs_of(final(incoming)@) == seqs_of(old(incoming)@).update(to as int, old(incoming)@[to as int]@.push(from)),
{
    proof {
        lemma_add_neighbour(seqs_of(outgoing@), levels@, from as int, to, 1);
        lemma_add_neighbour(seqs_of(incoming@), levels@, to as int, from, -1);
    }
    push_into(outgoing, from, to);
    push_into(incoming, to, from);
}

/// The lists under construction: levels, layers and neighbour lists that
/// agree, with `layer_count` layers.
pub open spec fn building(
    levels: Seq<usize>,
    layers: Seq<Vec<usize>>,
    incoming: Seq<Vec<usize>>,
    outgoing: Seq<Vec<usize>>,
    layer_count: int,
) -> bool {
    &&& incoming.len() == levels.len()
    &&& outgoing.len() == levels.len()
    &&& layers.len() == layer_count
    &&& layers_partition(seqs_of(layers), levels)
    &&& increasing_layers(seqs_of(layers))
    &&& adjacency_steps(seqs_of(outgoing), levels, 1)
    &&& adjacency_steps(seqs_of(incoming), levels, -1)
}

impl LayeredCoverGraph {
    /// Subdivides each cover, from a lower to a higher level, at every level
    /// strictly between its ends.
    pub fn new(real_levels: &[usize], covers: &[Edge]) -> (r: Self)
        requires
            edges_within(covers@, real_levels@.len() as int),
            forall|c: int|
                0 <= c < covers@.len() ==> real_levels@[(#[trigger] covers@[c]).from as int]
                    < real_levels@[covers@[c].to as int],
            real_levels@.len() + subdivision_count(real_levels@, covers@) <= layered_limit(),
            forall|v: int| 0 <= v < real_levels@.len() ==> #[trigger] real_levels@[v] < layered_limit(),
            covers@.len() <= u32::MAX,
        ensures
            r.wf(),
            r.real_count_view() == real_levels@.len(),
            r.real_edges_view() == covers@,
            r.levels_view().len() == real_levels@.len() + subdivision_count(real_levels@, covers@),
            r.levels_view().take(real_levels@.len() as int) == real_levels@,
            r.layers_view().len() == layer_count_of(real_levels@),
            increasing_layers(r.layers_view()),
    {
        let n = real_levels.len();
        let mut layer_count: usize = 0;
        let mut i: usize = 0;
        while i < n
            invariant
                n == real_levels@.len(),
                i <= n,
                layer_count == layer_count_of(real_levels@.take(i as int)),
                layer_count <= layered_limit(),
                forall|v: int| 0 <= v < real_levels@.len() ==> #[trigger] real_levels@[v] < layered_limit(),
            decreases n - i,
        {
            assert(real_levels@.take(i + 1).drop_last() =~= real_levels@.take(i as int));
            if real_levels[i] + 1 > layer_count {
                layer_count = real_levels[i] + 1;
            }
            i += 1;
        }
        assert(real_levels@.take(n as int) =~= real_levels@);
        proof {
            lemma_layer_count_bounds(real_levels@);
        }
        let mut layers: Vec<Vec<usize>> = Vec::new();
        let mut l: usize = 0;
        while l < layer_count
            invariant
                l <= layer_count,
                layers@.len() == l,
                forall|k: int| 0 <= k < l ==> (#[trigger] layers@[k])@.len() == 0,
            decreases layer_count - l,
        {
            layers.push(Vec::new());
            l += 1;
        }
        let mut levels: Vec<usize> = Vec::new();
        let mut incoming: Vec<Vec<usize>> = Vec::new();
        let mut outgoing: Vec<Vec<usize>> = Vec::new();
        assert(layers_partition(seqs_of(layers@), levels@));
        assert(increasing_layers(seqs_of(layers@)));
        let mut id: usize = 0;
        while id < n
            invariant
                n == real_levels@.len(),
                id <= n,
                layer_count == layer_count_of(real_levels@),
                forall|v: int| 0 <= v < n ==> #[trigger] real_levels@[v] < layer_count,
                levels@ == real_levels@.take(id as int),
                building(levels@, layers@, incoming@, outgoing@, layer_count as int),
                lists_bounded(seqs_of(outgoing@), 0),
            decreases n - id,
        {
            let level = real_levels[id];
            proof {
                lemma_add_vertex(seqs_of(layers@), levels@, level);
                lemma_add_vertex_steps(seqs_of(outgoing@), levels@, level, 1);
                lemma_add_vertex_steps(seqs_of(incoming@), levels@, level, -1);
            }
            push_into(&mut layers, level, id);
            let ghost before_in = incoming@;
            let ghost before_out = outgoing@;
            levels.push(level);
            incoming.push(Vec::new());
            outgoing.push(Vec::new());
            proof {
                assert(seqs_of(incoming@) =~= seqs_of(before_in).push(Seq::empty()));
                assert(seqs_of(outgoing@) =~= seqs_of(before_out).push(Seq::empty()));
                lemma_bounded_push_empty(seqs_of(before_out), 0);
                assert(levels@ =~= real_levels@.take(id + 1));
            }
            id += 1;
        }
        assert(levels@ =~= real_levels@);
        let ghost mut edge_count: int = 0;
        let mut c: usize = 0;
        while c < covers.len()
            invariant
                n == real_levels@.len(),
                n <= levels@.len(),
                c <= covers@.len(),
                layer_count == layer_count_of(real_levels@),
                forall|v: int| 0 <= v < n ==> #[trigger] real_levels@[v] < layer_count,
                edges_within(covers@, n as int),
                forall|k: int|
                    0 <= k < covers@.len() ==> real_levels@[(#[trigger] covers@[k]).from as int]
                        < real_levels@[covers@[k].to as int],
                real_levels@.len() + subdivision_count(real_levels@, covers@) <= layered_limit(),
                levels@.take(n as int) == real_levels@,
                levels@.len() == n + subdivision_count(real_levels@, covers@.take(c as int)),
                building(levels@, layers@, incoming@, outgoing@, layer_count as int),
                covers@.len() <= u32::MAX,
                0 <= edge_count <= levels@.len() - n + c,
                lists_bounded(seqs_of(outgoing@), edge_count),
            decreases covers@.len() - c,
        {
            proof {
                lemma_subdivision_prefix(real_levels@, covers@, c as int + 1);
                assert(covers@.take(c + 1).drop_last() =~= covers@.take(c as int));
            }
            let edge = covers[c];
            assert(levels@[edge.from as int] == real_levels@[edge.from as int]);
            assert(levels@[edge.to as int] == real_levels@[edge.to as int]);
            let from_level = levels[edge.from];
            let to_level = levels[edge.to];
            let mut previous = edge.from;
            let mut level = from_level + 1;
            while level < to_level
                invariant
                    n == real_levels@.len(),
                    n <= levels@.len(),
                    c < covers@.len(),
                    edge == covers@[c as int],
                    from_level == real_levels@[edge.from as int],
                    to_level == real_levels@[edge.to as int],
                    from_level < level <= to_level,
                    to_level < layer_count,
                    layer_count == layer_count_of(real_levels@),
                    forall|v: int| 0 <= v < n ==> #[trigger] real_levels@[v] < layer_count,
                    edges_within(covers@, n as int),
                    levels@.take(n as int) == real_levels@,
                    levels@.len() == n + subdivision_count(real_levels@, covers@.take(c as int)) + (level
                        - from_level - 1),
                    real_levels@.len() + subdivision_count(real_levels@, covers@.take(c + 1)) <= layered_limit(),
                    subdivision_count(real_levels@, covers@.take(c + 1)) == subdivision_count(
                        real_levels@,
                        covers@.take(c as int),
                    ) + (to_level - from_level - 1),
                    previous < levels@.len(),
                    levels@[previous as int] + 1 == level,
                    building(levels@, layers@, incoming@, outgoing@, layer_count as int),
                    covers@.len() <= u32::MAX,
                    0 <= edge_count <= levels@.len() - n + c,
                    lists_bounded(seqs_of(outgoing@), edge_count),
                decreases to_level - level,
            {
                let dummy = levels.len();
                proof {
                    lemma_add_vertex(seqs_of(layers@), levels@, level);
                    lemma_add_vertex_steps(seqs_of(outgoing@), levels@, level, 1);
                    lemma_add_vertex_steps(seqs_of(incoming@), levels@, level, -1);
                }
                push_into(&mut layers, level, dummy);
                let ghost before_in = incoming@;
                let ghost before_out = outgoing@;
                let ghost before_levels = levels@;
                levels.push(level);
                incoming.push(Vec::new());
                outgoing.push(Vec::new());
                proof {
                    assert(seqs_of(incoming@) =~= seqs_of(before_in).push(Seq::empty()));
                    assert(seqs_of(outgoing@) =~= seqs_of(before_out).push(Seq::empty()));
                    lemma_bounded_push_empty(seqs_of(before_out), edge_count);
                    assert(levels@.take(n as int) =~= before_levels.take(n as int));
                }
                proof {
                    assert(lists_bounded(seqs_of(outgoing@), edge_count));
                }
                add_edge(&mut outgoing, &mut incoming, &levels, previous, dummy);
                proof {
                    edge_count = edge_count + 1;
                }
                previous = dummy;
                level += 1;
            }
            assert(levels@[edge.to as int] == real_levels@[edge.to as int]);
            add_edge(&mut outgoing, &mut incoming, &levels, previous, edge.to);
            proof {
                edge_count = edge_count + 1;
            }
            c += 1;
        }
        assert(covers@.take(covers@.len() as int) =~= covers@);
        LayeredCoverGraph {
            real_count: n,
            real_edges: crate::edges::copy_edges(covers),
            levels,
            layers,
            incoming,
            outgoing,
        }
    }
}

/// The subdivision count of a prefix grows by each cover's gap.
proof fn lemma_subdivision_prefix(levels: Seq<usize>, covers: Seq<Edge>, k: int)
    requires
        0 < k <= covers.len(),
        forall|c: int| 0 <= c < covers.len() ==> levels[(#[trigger] covers[c]).from as int] < levels[covers[c].to as int],
    ensures
        subdivision_count(levels, covers.take(k)) == subdivision_count(levels, covers.take(k - 1)) + (levels[covers[k
            - 1].to as int] - levels[covers[k - 1].from as int] - 1),
        subdivision_count(levels, covers.take(k - 1)) <= subdivision_count(levels, covers.take(k)),
        subdivision_count(levels, covers.take(k)) <= subdivision_count(levels, covers),
    decreases covers.len() - k,
{
    assert(covers.take(k).drop_last() =~= covers.take(k - 1));
    if k < covers.len() {
        lemma_subdivision_prefix(levels, covers, k + 1);
    } else {
        assert(covers.take(k) =~= covers);
    }
}

/// A vertex sits at one position only.
proof fn lemma_position_unique(layers: Seq<Seq<usize>>, levels: Seq<usize>, v: int, p: int)
    requires
        layers_partition(layers, levels),
        0 <= v < levels.len(),
        placed_at(layers, levels, v, p),
    ensures
        position_in(layers, levels, v) == p,
{
    let q = position_in(layers, levels, v);
    let l = levels[v] as int;
    if q < p {
        assert(layers[l][q] != layers[l][p]);
    } else if p < q {
        assert(layers[l][p] != layers[l][q]);
    }
}

impl LayeredCoverGraph {
    /// Every vertex has a position inside its layer, and it is the one the
    /// layer shows.
    proof fn lemma_positions(&self)
        requires
            self.wf(),
        ensures
            forall|v: int|
                0 <= v < self.levels_view().len() ==> #[trigger] placed_at(
                    self.layers_view(),
                    self.levels_view(),
                    v,
                    self.position_of(v),
                ),
    {
        assert forall|v: int| 0 <= v < self.levels_view().len() implies #[trigger] placed_at(
            self.layers_view(),
            self.levels_view(),
            v,
            self.position_of(v),
        ) by {
            assert(is_placed(self.layers_view(), self.levels_view(), v));
        }
    }

    /// The grid points of the real vertices are bounded.
    proof fn lemma_real_points_bounded(&self)
        requires
            self.wf(),
        ensures
            points_bounded(self.real_points()),
            self.real_points().len() == self.real_count_view(),
    {
        self.lemma_positions();
        assert forall|id: int| 0 <= id < self.real_points().len() implies point_bounded(#[trigger] self.real_points()[id]) by {
            let l = self.levels_view()[id] as int;
            assert(placed_at(self.layers_view(), self.levels_view(), id, self.position_of(id)));
            assert(self.layers_view()[l].len() <= self.levels_view().len()) by {
                lemma_layer_within(self.layers_view(), self.levels_view(), l);
            }
        }
    }

    /// The position of every vertex within its layer.
    pub fn vertex_positions(&self) -> (r: Vec<usize>)
        requires
            self.wf(),
        ensures
            r@.len() == self.levels_view().len(),
            forall|v: int| 0 <= v < self.levels_view().len() ==> #[trigger] r@[v] == self.position_of(v),
    {
        let ghost layers = self.layers_view();
        let ghost levels = self.levels_view();
        let count = self.levels.len();
        let mut positions: Vec<usize> = Vec::new();
        let mut v: usize = 0;
        while v < count
            invariant
                v <= count,
                positions@.len() == v,
            decreases count - v,
        {
            positions.push(0);
            v += 1;
        }
        let mut l: usize = 0;
        while l < self.layers.len()
            invariant
                self.wf(),
                layers == self.layers_view(),
                levels == self.levels_view(),
                count == levels.len(),
                l <= layers.len(),
                positions@.len() == count,
                forall|k: int, p: int| 0 <= k < l && 0 <= p < layers[k].len() ==> #[trigger] positions@[layers[k][p] as int] == p,
            decreases layers.len() - l,
        {
            let mut p: usize = 0;
            let width = self.layers[l].len();
            assert(width == layers[l as int].len());
            while p < width
                invariant
                    self.wf(),
                    layers == self.layers_view(),
                    levels == self.levels_view(),
                    count == levels.len(),
                    l < layers.len(),
                    width == layers[l as int].len(),
                    p <= width,
                    positions@.len() == count,
                    forall|k: int, q: int| 0 <= k < l && 0 <= q < layers[k].len() ==> #[trigger] positions@[layers[k][q] as int] == q,
                    forall|q: int| 0 <= q < p ==> #[trigger] positions@[layers[l as int][q] as int] == q,
                decreases width - p,
            {
                let vertex = self.layers[l][p];
                assert(vertex == layers[l as int][p as int]);
                positions.set(vertex, p);
                proof {
                    assert forall|k: int, q: int| 0 <= k < l && 0 <= q < layers[k].len() implies #[trigger] positions@[layers[k][q] as int] == q by {
                        assert(levels[layers[k][q] as int] == k);
                    }
                    assert forall|q: int| 0 <= q < p + 1 implies #[trigger] positions@[layers[l as int][q] as int] == q by {
                        if q < p {
                            assert(layers[l as int][q] != layers[l as int][p as int]);
                        }
                    }
                }
                p += 1;
            }
            l += 1;
        }
        proof {
            assert forall|w: int| 0 <= w < count implies #[trigger] positions@[w] == self.position_of(w) by {
                assert(is_placed(layers, levels, w));
                let q = choose|q: int| #[trigger] placed_at(layers, levels, w, q);
                lemma_position_unique(layers, levels, w, q);
                assert(positions@[layers[levels[w] as int][q] as int] == q);
            }
        }
        positions
    }

    /// The grid points of the real vertices at the given positions.
    pub fn real_grid_points_with_positions(&self, positions: &[usize]) -> (r: Vec<GridPoint>)
        requires
            self.wf(),
            positions@.len() == self.levels_view().len(),
            forall|v: int| 0 <= v < self.levels_view().len() ==> #[trigger] positions@[v] == self.position_of(v),
        ensures
            r@ == self.real_points(),
    {
        proof {
            self.lemma_positions();
        }
        let mut points: Vec<GridPoint> = Vec::new();
        let mut id: usize = 0;
        while id < self.real_count
            invariant
                self.wf(),
                id <= self.real_count,
                positions@.len() == self.levels_view().len(),
                forall|v: int| 0 <= v < self.levels_view().len() ==> #[trigger] positions@[v] == self.position_of(v),
                forall|v: int|
                    0 <= v < self.levels_view().len() ==> #[trigger] placed_at(
                        self.layers_view(),
                        self.levels_view(),
                        v,
                        self.position_of(v),
                    ),
                points@ == self.real_points().take(id as int),
            decreases self.real_count - id,
        {
            let level = self.levels[id];
            assert(placed_at(self.layers_view(), self.levels_view(), id as int, self.position_of(id as int)));
            proof {
                lemma_layer_within(self.layers_view(), self.levels_view(), level as int);
            }
            let width = self.layers[level].len();
            assert(width == self.layers_view()[level as int].len());
            let point = GridPoint { x: doubled_centered_slot(positions[id], width), y: level as i64 };
            points.push(point);
            proof {
                assert(points@ =~= self.real_points().take(id + 1));
            }
            id += 1;
        }
        assert(points@ =~= self.real_points());
        points
    }

    /// The defects of the straight real edges at the current order.
    pub fn straight_geometry_defects(&self) -> (r: StraightGeometryDefects)
        requires
            self.wf(),
        ensures
            (r.proper_crossings as int, r.node_intersections as int, r.collinear_overlaps as int) == self.real_defects(),
    {
        let positions = self.vertex_positions();
        let points = self.real_grid_points_with_positions(&positions);
        proof {
            self.lemma_real_points_bounded();
        }
        straight_geometry_defects(&self.real_edges, &points)
    }
}

/// A layer holds at most as many vertices as there are.
proof fn lemma_layer_within(layers: Seq<Seq<usize>>, levels: Seq<usize>, l: int)
    requires
        layers_partition(layers, levels),
        0 <= l < layers.len(),
    ensures
        layers[l].len() <= levels.len(),
{
    let layer = layers[l];
    assert forall|p: int, q: int| 0 <= p < q < layer.len() implies layer[p] != layer[q] by {
        assert(layers[l][p] != layers[l][q]);
    }
    assert forall|p: int| 0 <= p < layer.len() implies #[trigger] layer[p] < levels.len() by {
        assert(layers[l][p] < levels.len());
    }
    lemma_distinct_below(layer, levels.len() as int);
}

/// A sequence of distinct numbers below `bound` is no longer than `bound`.
pub proof fn lemma_distinct_below(s: Seq<usize>, bound: int)
    requires
        bound >= 0,
        forall|p: int, q: int| 0 <= p < q < s.len() ==> s[p] != s[q],
        forall|p: int| 0 <= p < s.len() ==> #[trigger] s[p] < bound,
    ensures
        s.len() <= bound,
{
    let t = s.map_values(|v: usize| v as int);
    assert(t.no_duplicates()) by {
        assert forall|p: int, q: int| 0 <= p < t.len() && 0 <= q < t.len() && p != q implies t[p] != t[q] by {
            if p < q {
                assert(s[p] != s[q]);
            } else {
                assert(s[q] != s[p]);
            }
        }
    }
    t.unique_seq_to_set();
    {
        vstd::set_lib::lemma_int_range(0, bound);
        assert(t.to_set().subset_of(vstd::set_lib::set_int_range(0, bound))) by {
            assert forall|v: int| t.to_set().contains(v) implies vstd::set_lib::set_int_range(0, bound).contains(v) by {
                let p = choose|p: int| 0 <= p < t.len() && t[p] == v;
                assert(s[p] < bound);
            }
        }
        vstd::set_lib::lemma_len_subset(t.to_set(), vstd::set_lib::set_int_range(0, bound));
    }
}

/// The layers with the vertices at `position` and `position + 1` of layer
/// `level` exchanged.
pub open spec fn swapped(layers: Seq<Seq<usize>>, level: int, position: int) -> Seq<Seq<usize>> {
    let layer = layers[level];
    layers.update(level, layer.update(position, layer[position + 1]).update(position + 1, layer[position]))
}

/// The position of `v` after exchanging the vertices at `position` and
/// `position + 1` of layer `level`.
pub open spec fn position_after_swap(
    layers: Seq<Seq<usize>>,
    levels: Seq<usize>,
    level: int,
    position: int,
    v: int,
) -> int {
    if v == layers[level][position] {
        position_in(layers, levels, v) + 1
    } else if v == layers[level][position + 1] {
        position_in(layers, levels, v) - 1
    } else {
        position_in(layers, levels, v)
    }
}

/// Exchanging two neighbours in a layer keeps the layers a partition.
proof fn lemma_swap_partition(layers: Seq<Seq<usize>>, levels: Seq<usize>, level: int, position: int)
    requires
        layers_partition(layers, levels),
        0 <= level < layers.len(),
        0 <= position && position + 1 < layers[level].len(),
    ensures
        layers_partition(swapped(layers, level, position), levels),
        swapped(swapped(layers, level, position), level, position) == layers,
        forall|v: int|
            0 <= v < levels.len() ==> #[trigger] placed_at(
                swapped(layers, level, position),
                levels,
                v,
                position_after_swap(layers, levels, level, position, v),
            ),
{
    let new_layers = swapped(layers, level, position);
    let left = layers[level][position];
    let right = layers[level][position + 1];
    let old_at = |k: int, q: int|
        if k == level && q == position {
            position + 1
        } else if k == level && q == position + 1 {
            position
        } else {
            q
        };
    assert forall|k: int, q: int| 0 <= k < new_layers.len() && 0 <= q < new_layers[k].len() implies new_layers[k][q]
        == layers[k][old_at(k, q)] by {}
    assert forall|k: int, q: int|
        0 <= k < new_layers.len() && 0 <= q < new_layers[k].len() implies (#[trigger] new_layers[k][q])
        < levels.len() && levels[new_layers[k][q] as int] == k by {
        assert(new_layers[k][q] == layers[k][old_at(k, q)]);
    }
    assert forall|k: int, q: int, r: int|
        0 <= k < new_layers.len() && 0 <= q < r < new_layers[k].len() implies #[trigger] new_layers[k][q]
        != #[trigger] new_layers[k][r] by {
        let (a, b) = (old_at(k, q), old_at(k, r));
        assert(new_layers[k][q] == layers[k][a]);
        assert(new_layers[k][r] == layers[k][b]);
        if a < b {
            assert(layers[k][a] != layers[k][b]);
        } else {
            assert(layers[k][b] != layers[k][a]);
        }
    }
    assert forall|v: int| 0 <= v < levels.len() implies #[trigger] placed_at(
        new_layers,
        levels,
        v,
        position_after_swap(layers, levels, level, position, v),
    ) by {
        assert(is_placed(layers, levels, v));
        let q = position_in(layers, levels, v);
        assert(placed_at(layers, levels, v, q));
        if v == left {
            lemma_position_unique(layers, levels, v, position);
        } else if v == right {
            lemma_position_unique(layers, levels, v, position + 1);
        } else {
            if levels[v] == level {
                assert(q != position) by {
                    if q == position {
                        assert(layers[level][q] == left);
                    }
                }
                assert(q != position + 1) by {
                    if q == position + 1 {
                        assert(layers[level][q] == right);
                    }
                }
            }
        }
    }
    assert forall|v: int| 0 <= v < levels.len() implies #[trigger] is_placed(new_layers, levels, v) by {
        assert(placed_at(new_layers, levels, v, position_after_swap(layers, levels, level, position, v)));
    }
    assert(swapped(new_layers, level, position) =~= layers) by {
        assert(swapped(new_layers, level, position)[level] =~= layers[level]);
    }
}

/// `a` is lexicographically at most `b`.
pub open spec fn lex_at_most(a: (int, int, int), b: (int, int, int)) -> bool {
    a.0 < b.0 || (a.0 == b.0 && (a.1 < b.1 || (a.1 == b.1 && a.2 <= b.2)))
}

/// The counts of a defect record.
pub open spec fn defect_counts(d: StraightGeometryDefects) -> (int, int, int) {
    (d.proper_crossings as int, d.node_intersections as int, d.collinear_overlaps as int)
}

/// `a` is lexicographically smaller than `b`.
pub open spec fn lex_less(a: (int, int, int), b: (int, int, int)) -> bool {
    a.0 < b.0 || (a.0 == b.0 && (a.1 < b.1 || (a.1 == b.1 && a.2 < b.2)))
}

impl LayeredCoverGraph {
    /// The real grid points after exchanging the vertices at `position` and
    /// `position + 1` of layer `level`: the left one moves one slot right,
    /// the right one one slot left.
    pub open spec fn points_after_swap(&self, level: int, position: int) -> Seq<GridPoint> {
        let left = self.layers_view()[level][position] as int;
        let right = self.layers_view()[level][position + 1] as int;
        Seq::new(
            self.real_count_view() as nat,
            |id: int|
                if id == left {
                    GridPoint { x: (self.real_points()[id].x + 2) as i64, y: self.real_points()[id].y }
                } else if id == right {
                    GridPoint { x: (self.real_points()[id].x - 2) as i64, y: self.real_points()[id].y }
                } else {
                    self.real_points()[id]
                },
        )
    }

    /// The exact defects of the straight real edges after that exchange.
    pub open spec fn swap_defects(&self, level: int, position: int) -> (int, int, int) {
        let points = self.points_after_swap(level, position);
        (
            crossing_total(self.real_edges_view(), points),
            node_total(self.real_edges_view(), points),
            overlap_total(self.real_edges_view(), points),
        )
    }

    /// Exchanging the adjacent vertices at `position` and `position + 1` of
    /// layer `level`, at least one of them real, lowers the defects.
    pub open spec fn improving_swap(&self, level: int, position: int) -> bool {
        &&& 0 <= level < self.layers_view().len()
        &&& 0 <= position
        &&& position + 1 < self.layers_view()[level].len()
        &&& (self.layers_view()[level][position] < self.real_count_view() || self.layers_view()[level][position + 1]
            < self.real_count_view())
        &&& lex_less(self.swap_defects(level, position), self.real_defects())
    }

    /// No adjacent exchange involving a real vertex lowers the defects.
    pub open spec fn locally_optimal(&self) -> bool {
        forall|level: int, position: int| !#[trigger] self.improving_swap(level, position)
    }

    /// The number of rounds of exchanges tried: one per real vertex, and at
    /// least one.
    pub open spec fn switch_budget(&self) -> int {
        if self.real_count_view() > 1 {
            self.real_count_view()
        } else {
            1
        }
    }
}

/// `b` is `a` after one exchange of adjacent vertices that lowers the
/// defects.
pub open spec fn improves_to(a: LayeredCoverGraph, b: LayeredCoverGraph) -> bool {
    &&& b.same_graph(&a)
    &&& exists|level: int, position: int|
        #[trigger] a.improving_swap(level, position) && b.layers_view() == swapped(a.layers_view(), level, position)
}

/// Every graph of `chain` after the first is the one before it after one
/// exchange of adjacent vertices that lowers the defects.
pub open spec fn is_improving_run(chain: Seq<LayeredCoverGraph>) -> bool {
    forall|i: int| 0 <= i < chain.len() - 1 ==> #[trigger] improves_to(chain[i], chain[i + 1])
}

impl LayeredCoverGraph {
    /// The graph differs from `other` at most in the order of its layers.
    pub open spec fn same_graph(&self, other: &Self) -> bool {
        &&& self.real_count_view() == other.real_count_view()
        &&& self.real_edges_view() == other.real_edges_view()
        &&& self.levels_view() == other.levels_view()
        &&& self.incoming_view() == other.incoming_view()
        &&& self.outgoing_view() == other.outgoing_view()
        &&& self.layers_view().len() == other.layers_view().len()
    }

    /// Exchanges the vertices at `position` and `position + 1` of layer
    /// `level`.
    fn swap_adjacent(&mut self, level: usize, position: usize)
        requires
            old(self).wf(),
            level < old(self).layers_view().len(),
            position + 1 < old(self).layers_view()[level as int].len(),
        ensures
            final(self).wf(),
            final(self).same_graph(old(self)),
            final(self).layers_view() == swapped(old(self).layers_view(), level as int, position as int),
    {
        proof {
            lemma_swap_partition(self.layers_view(), self.levels_view(), level as int, position as int);
        }
        let ghost before = self.layers_view();
        let mut layer = self.layers[level].clone();
        assert(layer@ == before[level as int]);
        let left = layer[position];
        let right = layer[position + 1];
        layer.set(position, right);
        layer.set(position + 1, left);
        self.layers.set(level, layer);
        assert(self.layers_view() =~= swapped(before, level as int, position as int));
    }

    /// Two graphs that agree on the graph and the layers have the same
    /// defects and the same improving exchanges.
    proof fn lemma_same_layers_same_swaps(a: &Self, b: &Self)
        requires
            b.same_graph(a),
            b.layers_view() == a.layers_view(),
        ensures
            a.real_points() == b.real_points(),
            a.real_defects() == b.real_defects(),
            forall|l: int, q: int| #[trigger] a.improving_swap(l, q) == b.improving_swap(l, q),
    {
        assert(a.real_points() =~= b.real_points());
        assert forall|l: int, q: int| #[trigger] a.improving_swap(l, q) == b.improving_swap(l, q) by {
            assert(a.points_after_swap(l, q) =~= b.points_after_swap(l, q));
        }
    }

    /// What exchanging the vertices at `position` and `position + 1` of layer
    /// `level` does to the positions and to the grid points: the left one
    /// moves two units right, the right one two units left.
    proof fn lemma_swap_effect(before: &Self, after: &Self, level: int, position: int)
        requires
            before.wf(),
            after.wf(),
            after.same_graph(before),
            0 <= level < before.layers_view().len(),
            0 <= position && position + 1 < before.layers_view()[level].len(),
            after.layers_view() == swapped(before.layers_view(), level, position),
        ensures
            ({
                let left = before.layers_view()[level][position] as int;
                let right = before.layers_view()[level][position + 1] as int;
                &&& after.real_points().len() == before.real_points().len()
                &&& forall|id: int|
                    0 <= id < before.real_count_view() ==> #[trigger] after.real_points()[id] == if id == left {
                        GridPoint { x: (before.real_points()[id].x + 2) as i64, y: before.real_points()[id].y }
                    } else if id == right {
                        GridPoint { x: (before.real_points()[id].x - 2) as i64, y: before.real_points()[id].y }
                    } else {
                        before.real_points()[id]
                    }
            }),
    {
        let layers = before.layers_view();
        let levels = before.levels_view();
        lemma_swap_partition(layers, levels, level, position);
        before.lemma_positions();
        let left = layers[level][position] as int;
        let right = layers[level][position + 1] as int;
        assert forall|id: int| 0 <= id < before.real_count_view() implies #[trigger] after.real_points()[id] == if id
            == left {
            GridPoint { x: (before.real_points()[id].x + 2) as i64, y: before.real_points()[id].y }
        } else if id == right {
            GridPoint { x: (before.real_points()[id].x - 2) as i64, y: before.real_points()[id].y }
        } else {
            before.real_points()[id]
        } by {
            let q = position_after_swap(layers, levels, level, position, id);
            assert(placed_at(after.layers_view(), levels, id, q));
            lemma_position_unique(after.layers_view(), levels, id, q);
            let l = levels[id] as int;
            assert(after.layers_view()[l].len() == layers[l].len());
            assert(placed_at(layers, levels, id, before.position_of(id)));
            lemma_layer_within(layers, levels, l);
        }
    }

    /// Tries each exchange of neighbours in a layer that involves a real
    /// vertex, keeping it when it lowers the exact defects of the straight
    /// real edges; stops at a round without improvement, after as many
    /// rounds as real vertices, or when no defect is left.  Returns the
    /// defects of the final order, which are never more than at the start.
    /// The final order has no defect, or no improving exchange is left, or
    /// the budget of rounds was used up: every round kept an improving
    /// exchange, so the final order is reached from the start by a run of
    /// more improving exchanges than there are rounds.
    #[verifier::rlimit(100)]
    pub fn greedy_switch_adjacent(&mut self) -> (r: StraightGeometryDefects)
        requires
            old(self).wf(),
        ensures
            final(self).wf(),
            final(self).same_graph(old(self)),
            defect_counts(r) == final(self).real_defects(),
            lex_at_most(defect_counts(r), old(self).real_defects()),
            defect_counts(r) == (0int, 0int, 0int) || final(self).locally_optimal() || exists|
                chain: Seq<LayeredCoverGraph>,
            |
                chain.len() >= old(self).switch_budget() + 1 && chain[0] == *old(self)
                    && chain.last().layers_view() == final(self).layers_view() && final(self).same_graph(
                    &chain.last(),
                ) && #[trigger] is_improving_run(chain),
    {
        let ghost start = old(self).real_defects();
        let ghost mut chain: Seq<LayeredCoverGraph> = seq![*self];
        let positions = self.vertex_positions();
        let mut points = self.real_grid_points_with_positions(&positions);
        proof {
            self.lemma_real_points_bounded();
        }
        let mut current = straight_geometry_defects(&self.real_edges, &points);
        if current.is_clean() {
            return current;
        }
        let rc = self.real_count;
        let rounds: usize = if rc > 1 { rc } else { 1 };
        let mut round: usize = 0;
        let mut improving = true;
        while round < rounds && improving
            invariant
                rounds == old(self).switch_budget(),
                chain.len() >= 1,
                chain[0] == *old(self),
                chain.last().layers_view() == self.layers_view(),
                self.same_graph(&chain.last()),
                is_improving_run(chain),
                improving ==> chain.len() >= round + 1,
                !improving ==> self.locally_optimal(),
                round > 0 && improving ==> lex_less(defect_counts(current), start),
                self.wf(),
                self.same_graph(old(self)),
                rc == self.real_count_view(),
                points@ == self.real_points(),
                defect_counts(current) == self.real_defects(),
                lex_at_most(defect_counts(current), start),
                start == old(self).real_defects(),
            decreases rounds - round,
        {
            let mut improved = false;
            let mut level: usize = 0;
            while level < self.layers.len()
                invariant
                    chain.len() >= round + 1,
                    improved ==> chain.len() >= round + 2,
                    chain[0] == *old(self),
                    chain.last().layers_view() == self.layers_view(),
                    self.same_graph(&chain.last()),
                    is_improving_run(chain),
                    improved ==> lex_less(defect_counts(current), start),
                    !improved ==> forall|l: int, q: int| 0 <= l < level ==> !#[trigger] self.improving_swap(l, q),
                    self.wf(),
                    self.same_graph(old(self)),
                    rc == self.real_count_view(),
                    points@ == self.real_points(),
                    defect_counts(current) == self.real_defects(),
                    lex_at_most(defect_counts(current), start),
                    start == old(self).real_defects(),
                    level <= self.layers_view().len(),
                decreases self.layers_view().len() - level,
            {
                let width = self.layers[level].len();
                assert(width == self.layers_view()[level as int].len());
                proof {
                    lemma_layer_within(self.layers_view(), self.levels_view(), level as int);
                }
                let mut position: usize = 0;
                while position + 1 < width
                    invariant
                        chain.len() >= round + 1,
                        improved ==> chain.len() >= round + 2,
                        chain[0] == *old(self),
                        chain.last().layers_view() == self.layers_view(),
                        self.same_graph(&chain.last()),
                        is_improving_run(chain),
                        improved ==> lex_less(defect_counts(current), start),
                        !improved ==> forall|l: int, q: int| 0 <= l < level ==> !#[trigger] self.improving_swap(l, q),
                        !improved ==> forall|q: int| q < position ==> !#[trigger] self.improving_swap(level as int, q),
                        position <= width,
                        width <= layered_limit(),
                        self.wf(),
                        self.same_graph(old(self)),
                        rc == self.real_count_view(),
                        points@ == self.real_points(),
                        defect_counts(current) == self.real_defects(),
                        lex_at_most(defect_counts(current), start),
                        start == old(self).real_defects(),
                        level < self.layers_view().len(),
                        width == self.layers_view()[level as int].len(),
                    decreases width - position,
                {
                    let left = self.layers[level][position];
                    let right = self.layers[level][position + 1];
                    assert(left == self.layers_view()[level as int][position as int]);
                    assert(right == self.layers_view()[level as int][position + 1]);
                    if left < rc || right < rc {
                        let mut moved: Vec<usize> = Vec::new();
                        if left < rc {
                            moved.push(left);
                        }
                        if right < rc {
                            moved.push(right);
                        }
                        let ghost before_self = *self;
                        let ghost before_points = points@;
                        proof {
                            assert(left != right) by {
                                assert(self.layers_view()[level as int][position as int] != self.layers_view()[level as int][position + 1]);
                            }
                            assert(distinct_entries(moved@));
                            self.lemma_real_points_bounded();
                            lemma_contribution_within_total(self.real_edges_view(), points@, moved@);
                        }
                        let old_contribution = straight_geometry_contribution(&self.real_edges, &points, &moved);
                        self.swap_adjacent(level, position);
                        proof {
                            Self::lemma_swap_effect(&before_self, self, level as int, position as int);
                        }
                        if left < rc {
                            assert(point_bounded(points@[left as int]));
                            let mut point = points[left];
                            point.x = point.x + 2;
                            points.set(left, point);
                        }
                        if right < rc {
                            assert(point_bounded(points@[right as int]));
                            let mut point = points[right];
                            point.x = point.x - 2;
                            points.set(right, point);
                        }
                        proof {
                            assert(points@ =~= self.real_points());
                            self.lemma_real_points_bounded();
                            assert forall|v: int|
                                0 <= v < before_points.len() && !moved@.contains(v as usize) implies #[trigger] before_points[v]
                                == points@[v] by {
                                if v == left {
                                    assert(moved@[0] == left);
                                }
                                if v == right {
                                    assert(moved@[moved@.len() - 1] == right);
                                }
                            }
                            lemma_contribution_isolates_moves(self.real_edges_view(), before_points, points@, moved@);
                            lemma_totals_fit(self.real_edges_view(), points@);
                        }
                        let new_contribution = straight_geometry_contribution(&self.real_edges, &points, &moved);
                        let candidate = current.replace_contribution(old_contribution, new_contribution);
                        proof {
                            assert(defect_counts(candidate) == self.real_defects());
                            assert(self.real_points() =~= before_self.points_after_swap(level as int, position as int));
                            assert(defect_counts(candidate) == before_self.swap_defects(level as int, position as int));
                        }
                        if candidate.is_fewer_than(&current) {
                            proof {
                                let last = chain.last();
                                Self::lemma_same_layers_same_swaps(&last, &before_self);
                                assert(last.improving_swap(level as int, position as int));
                                assert(improves_to(last, *self));
                                let grown = chain.push(*self);
                                assert forall|i: int| 0 <= i < grown.len() - 1 implies #[trigger] improves_to(
                                    grown[i],
                                    grown[i + 1],
                                ) by {
                                    if i < chain.len() - 1 {
                                        assert(grown[i] == chain[i] && grown[i + 1] == chain[i + 1]);
                                    }
                                }
                                assert(grown[0] == chain[0]);
                                chain = grown;
                            }
                            current = candidate;
                            improved = true;
                            if current.is_clean() {
                                return current;
                            }
                        } else {
                            self.swap_adjacent(level, position);
                            proof {
                                lemma_swap_partition(before_self.layers_view(), before_self.levels_view(), level as int, position as int);
                                assert(self.layers_view() == before_self.layers_view());
                            }
                            if left < rc {
                                let mut point = points[left];
                                point.x = point.x - 2;
                                points.set(left, point);
                            }
                            if right < rc {
                                let mut point = points[right];
                                point.x = point.x + 2;
                                points.set(right, point);
                            }
                            proof {
                                assert(points@ =~= before_points);
                                assert(self.real_points() == before_self.real_points());
                                assert(!before_self.improving_swap(level as int, position as int));
                                assert forall|l: int, q: int| #[trigger] self.improving_swap(l, q) == before_self.improving_swap(l, q) by {
                                    assert(self.points_after_swap(l, q) =~= before_self.points_after_swap(l, q));
                                }
                            }
                        }
                    } else {
                        proof {
                            assert(!self.improving_swap(level as int, position as int));
                        }
                    }
                    position += 1;
                }
                level += 1;
            }
            proof {
                if !improved {
                    assert forall|l: int, q: int| !#[trigger] self.improving_swap(l, q) by {
                        if 0 <= l < self.layers_view().len() {
                            assert(!self.improving_swap(l, q));
                        }
                    }
                }
            }
            improving = improved;
            round += 1;
        }
        current
    }
}

/// The layer `layer` reordered so that position `q` holds what was at
/// position `order[q]`.
pub open spec fn reordered(layer: Seq<usize>, order: Seq<usize>) -> Seq<usize> {
    Seq::new(order.len(), |q: int| layer[order[q] as int])
}

/// Reordering a layer by a permutation of its positions keeps the layers a
/// partition.
proof fn lemma_reorder_partition(layers: Seq<Seq<usize>>, levels: Seq<usize>, level: int, order: Seq<usize>)
    requires
        layers_partition(layers, levels),
        0 <= level < layers.len(),
        is_permutation(order, layers[level].len() as int),
    ensures
        layers_partition(layers.update(level, reordered(layers[level], order)), levels),
{
    let layer = layers[level];
    let w = layer.len() as int;
    let new_layer = reordered(layer, order);
    let new_layers = layers.update(level, new_layer);
    assert forall|q: int| 0 <= q < w implies #[trigger] order[q] < w by {
        assert(!bad_at(order, w, q));
    }
    assert forall|l: int, p: int|
        0 <= l < new_layers.len() && 0 <= p < new_layers[l].len() implies (#[trigger] new_layers[l][p]) < levels.len()
        && levels[new_layers[l][p] as int] == l by {
        if l == level {
            assert(order[p] < w);
            assert(new_layers[l][p] == layer[order[p] as int]);
        }
    }
    assert forall|l: int, p: int, q: int|
        0 <= l < new_layers.len() && 0 <= p < q < new_layers[l].len() implies #[trigger] new_layers[l][p]
        != #[trigger] new_layers[l][q] by {
        if l == level {
            assert(!bad_at(order, w, q));
            assert(order[p] != order[q]);
            assert(order[p] < w && order[q] < w);
            if order[p] < order[q] {
                assert(layer[order[p] as int] != layer[order[q] as int]);
            } else {
                assert(layers[level][order[q] as int] != layers[level][order[p] as int]);
            }
        }
    }
    assert forall|v: int| 0 <= v < levels.len() implies #[trigger] is_placed(new_layers, levels, v) by {
        assert(is_placed(layers, levels, v));
        let p = choose|p: int| #[trigger] placed_at(layers, levels, v, p);
        if levels[v] == level {
            lemma_permutation_onto(order, w, p);
            let q = choose|q: int| 0 <= q < w && #[trigger] order[q] == p;
            assert(placed_at(new_layers, levels, v, q));
        } else {
            assert(placed_at(new_layers, levels, v, p));
        }
    }
}

impl LayeredCoverGraph {
    /// The number of real vertices.
    pub fn real_count(&self) -> (r: usize)
        ensures
            r == self.real_count_view(),
    {
        self.real_count
    }

    /// The number of layers.
    pub fn layer_count(&self) -> (r: usize)
        ensures
            r == self.layers_view().len(),
    {
        self.layers.len()
    }

    /// The level of vertex `v`.
    pub fn level_of(&self, v: usize) -> (r: usize)
        requires
            v < self.levels_view().len(),
        ensures
            r == self.levels_view()[v as int],
    {
        self.levels[v]
    }

    /// The vertices of layer `level`, left to right.
    pub fn layer(&self, level: usize) -> (r: Vec<usize>)
        requires
            level < self.layers_view().len(),
        ensures
            r@ == self.layers_view()[level as int],
    {
        let r = self.layers[level].clone();
        assert(r@ == self.layers@[level as int]@);
        r
    }

    /// The lower neighbours of vertex `v`.
    pub fn incoming_of(&self, v: usize) -> (r: Vec<usize>)
        requires
            v < self.incoming_view().len(),
        ensures
            r@ == self.incoming_view()[v as int],
    {
        let r = self.incoming[v].clone();
        assert(r@ == self.incoming@[v as int]@);
        r
    }

    /// The upper neighbours of vertex `v`.
    pub fn outgoing_of(&self, v: usize) -> (r: Vec<usize>)
        requires
            v < self.outgoing_view().len(),
        ensures
            r@ == self.outgoing_view()[v as int],
    {
        let r = self.outgoing[v].clone();
        assert(r@ == self.outgoing@[v as int]@);
        r
    }

    /// A copy of the current order of every layer.
    pub fn layers_snapshot(&self) -> (r: Vec<Vec<usize>>)
        ensures
            seqs_of(r@) == self.layers_view(),
    {
        let mut r: Vec<Vec<usize>> = Vec::new();
        let mut l: usize = 0;
        while l < self.layers.len()
            invariant
                l <= self.layers@.len(),
                r@.len() == l,
                forall|k: int| 0 <= k < l ==> (#[trigger] r@[k])@ == self.layers@[k]@,
            decreases self.layers@.len() - l,
        {
            let layer = self.layers[l].clone();
            assert(layer@ == self.layers@[l as int]@);
            r.push(layer);
            l += 1;
        }
        assert(seqs_of(r@) =~= self.layers_view());
        r
    }

    /// Reorders layer `level` so that position `q` holds the vertex that was
    /// at position `order[q]`, when `order` is a permutation of the layer's
    /// positions; otherwise leaves the graph as it is.  Returns whether it
    /// reordered.
    pub fn permute_layer(&mut self, level: usize, order: &[usize]) -> (r: bool)
        requires
            old(self).wf(),
            level < old(self).layers_view().len(),
        ensures
            final(self).wf(),
            final(self).same_graph(old(self)),
            r == is_permutation(order@, old(self).layers_view()[level as int].len() as int),
            r ==> final(self).layers_view() == old(self).layers_view().update(
                level as int,
                reordered(old(self).layers_view()[level as int], order@),
            ),
            !r ==> final(self).layers_view() == old(self).layers_view(),
    {
        let width = self.layers[level].len();
        assert(width == self.layers_view()[level as int].len());
        if validate_permutation(level, width, order).is_err() {
            return false;
        }
        proof {
            lemma_reorder_partition(self.layers_view(), self.levels_view(), level as int, order@);
        }
        let ghost before = self.layers_view();
        let old_layer = self.layers[level].clone();
        assert(old_layer@ == before[level as int]);
        let mut new_layer: Vec<usize> = Vec::new();
        let mut q: usize = 0;
        while q < width
            invariant
                width == old_layer@.len(),
                order@.len() == width,
                is_permutation(order@, width as int),
                q <= width,
                new_layer@ == reordered(old_layer@, order@).take(q as int),
            decreases width - q,
        {
            assert(!bad_at(order@, width as int, q as int));
            new_layer.push(old_layer[order[q]]);
            assert(new_layer@ =~= reordered(old_layer@, order@).take(q + 1));
            q += 1;
        }
        assert(new_layer@ =~= reordered(old_layer@, order@));
        self.layers.set(level, new_layer);
        assert(self.layers_view() =~= before.update(level as int, reordered(before[level as int], order@)));
        true
    }
}

/// The number of entries of `s[..end]` greater than `x`.
pub open spec fn count_above(s: Seq<int>, x: int, end: int) -> int
    decreases end,
{
    if end <= 0 {
        0
    } else {
        count_above(s, x, end - 1) + if s[end - 1] > x {
            1int
        } else {
            0
        }
    }
}

/// The number of targets of the sources before `a` placed beyond `x`.
pub open spec fn earlier_above(targets: Seq<Seq<int>>, a: int, x: int) -> int
    decreases a,
{
    if a <= 0 {
        0
    } else {
        earlier_above(targets, a - 1, x) + count_above(targets[a - 1], x, targets[a - 1].len() as int)
    }
}

/// The crossings between the first `end` edges of source `a` and the edges
/// of the sources before it.
pub open spec fn source_crossings(targets: Seq<Seq<int>>, a: int, end: int) -> int
    decreases end,
{
    if end <= 0 {
        0
    } else {
        source_crossings(targets, a, end - 1) + earlier_above(targets, a, targets[a][end - 1])
    }
}

/// The crossings among the edges of the first `a` sources.
pub open spec fn level_crossings(targets: Seq<Seq<int>>, a: int) -> int
    decreases a,
{
    if a <= 0 {
        0
    } else {
        level_crossings(targets, a - 1) + source_crossings(targets, a - 1, targets[a - 1].len() as int)
    }
}

/// The horizontal extent of the first `end` edges of source `a`, measured
/// between centered slots.
pub open spec fn source_length(targets: Seq<Seq<int>>, a: int, lower: int, upper: int, end: int) -> int
    decreases end,
{
    if end <= 0 {
        0
    } else {
        source_length(targets, a, lower, upper, end - 1) + abs_diff_int(
            centered_slot(a, lower),
            centered_slot(targets[a][end - 1], upper),
        )
    }
}

/// The horizontal extent of the edges of the first `a` sources.
pub open spec fn level_length(targets: Seq<Seq<int>>, a: int, lower: int, upper: int) -> int
    decreases a,
{
    if a <= 0 {
        0
    } else {
        level_length(targets, a - 1, lower, upper) + source_length(targets, a - 1, lower, upper, targets[a - 1].len() as int)
    }
}

/// The distance between two integers.
pub open spec fn abs_diff_int(a: int, b: int) -> int {
    if a >= b {
        a - b
    } else {
        b - a
    }
}

/// `total` capped at `u64::MAX`, as saturating additions of nonnegative
/// amounts leave it.
pub open spec fn saturated(total: int) -> int {
    if total > u64::MAX {
        u64::MAX as int
    } else {
        total
    }
}

/// How a layer order is judged: first the exact defects of the straight real
/// edges, then the crossings of the routed layered edges, then their total
/// horizontal extent; each compared in that order.
#[derive(Debug, Clone, Copy, PartialEq, Eq, Structural, PartialOrd, Ord)]
pub struct OrderingScore {
    /// The defects of the straight real edges.
    pub geometry: StraightGeometryDefects,
    /// Crossings between layered edges of adjacent layers, capped at `u64::MAX`.
    pub routed_crossings: u64,
    /// The summed horizontal extent of layered edges, capped at `u64::MAX`.
    pub horizontal_length: u64,
}

/// `a` scores lower than `b`, field by field.
pub open spec fn score_lower(a: OrderingScore, b: OrderingScore) -> bool {
    let (x, y) = (defect_counts(a.geometry), defect_counts(b.geometry));
    if x != y {
        lex_at_most(x, y)
    } else if a.routed_crossings != b.routed_crossings {
        a.routed_crossings < b.routed_crossings
    } else {
        a.horizontal_length < b.horizontal_length
    }
}

impl OrderingScore {
    /// Whether `self` scores lower than `other`, field by field.
    pub fn is_lower_than(&self, other: &Self) -> (r: bool)
        ensures
            r == score_lower(*self, *other),
    {
        let a = self.geometry;
        let b = other.geometry;
        if a.proper_crossings != b.proper_crossings || a.node_intersections != b.node_intersections
            || a.collinear_overlaps != b.collinear_overlaps {
            a.is_fewer_than(&b)
        } else if self.routed_crossings != other.routed_crossings {
            self.routed_crossings < other.routed_crossings
        } else {
            self.horizontal_length < other.horizontal_length
        }
    }
}

impl LayeredCoverGraph {
    /// The positions of the upper neighbours of each vertex of layer `l`,
    /// left to right.
    pub open spec fn target_positions(&self, l: int) -> Seq<Seq<int>> {
        let layer = self.layers_view()[l];
        Seq::new(
            layer.len(),
            |a: int|
                Seq::new(
                    self.outgoing_view()[layer[a] as int].len(),
                    |t: int| self.position_of(self.outgoing_view()[layer[a] as int][t] as int),
                ),
        )
    }

    /// The routed crossings of the first `k` pairs of adjacent layers.
    pub open spec fn routed_total(&self, k: int) -> int
        decreases k,
    {
        if k <= 0 {
            0
        } else {
            self.routed_total(k - 1) + level_crossings(
                self.target_positions(k - 1),
                self.layers_view()[k - 1].len() as int,
            )
        }
    }

    /// The horizontal extent of the layered edges of the first `k` pairs of
    /// adjacent layers.
    pub open spec fn horizontal_total(&self, k: int) -> int
        decreases k,
    {
        if k <= 0 {
            0
        } else {
            self.horizontal_total(k - 1) + level_length(
                self.target_positions(k - 1),
                self.layers_view()[k - 1].len() as int,
                self.layers_view()[k - 1].len() as int,
                self.layers_view()[k].len() as int,
            )
        }
    }

    /// The number of pairs of adjacent layers.
    pub open spec fn gap_count(&self) -> int {
        if self.layers_view().len() == 0 {
            0
        } else {
            self.layers_view().len() - 1
        }
    }

    /// The score of the current order.
    pub open spec fn score_of(&self, score: OrderingScore) -> bool {
        &&& defect_counts(score.geometry) == self.real_defects()
        &&& score.routed_crossings == saturated(self.routed_total(self.gap_count()))
        &&& score.horizontal_length == saturated(self.horizontal_total(self.gap_count()))
    }
}

proof fn lemma_count_above_bounds(s: Seq<int>, x: int, end: int)
    requires
        0 <= end <= s.len(),
    ensures
        0 <= count_above(s, x, end) <= end,
        (forall|i: int| 0 <= i < end ==> #[trigger] s[i] > x) ==> count_above(s, x, end) == end,
    decreases end,
{
    if end > 0 {
        lemma_count_above_bounds(s, x, end - 1);
    }
}

proof fn lemma_earlier_above_bounds(targets: Seq<Seq<int>>, a: int, x: int)
    requires
        0 <= a <= targets.len(),
        forall|b: int| 0 <= b < targets.len() ==> (#[trigger] targets[b]).len() <= neighbour_limit(),
    ensures
        0 <= earlier_above(targets, a, x) <= a * neighbour_limit(),
    decreases a,
{
    if a > 0 {
        lemma_earlier_above_bounds(targets, a - 1, x);
        lemma_count_above_bounds(targets[a - 1], x, targets[a - 1].len() as int);
        assert((a - 1) * neighbour_limit() + neighbour_limit() == a * neighbour_limit()) by (nonlinear_arith);
    }
}

proof fn lemma_saturated_add(x: int, y: int)
    requires
        x >= 0,
        y >= 0,
    ensures
        saturated(saturated(x) + y) == saturated(x + y),
{
}

proof fn lemma_source_crossings_nonnegative(targets: Seq<Seq<int>>, a: int, end: int)
    requires
        0 <= a < targets.len(),
        end <= targets[a].len(),
    ensures
        source_crossings(targets, a, end) >= 0,
    decreases end,
{
    if end > 0 {
        lemma_source_crossings_nonnegative(targets, a, end - 1);
        lemma_earlier_above_nonnegative(targets, a, targets[a][end - 1]);
    }
}

proof fn lemma_earlier_above_nonnegative(targets: Seq<Seq<int>>, a: int, x: int)
    requires
        a <= targets.len(),
    ensures
        earlier_above(targets, a, x) >= 0,
    decreases a,
{
    if a > 0 {
        lemma_earlier_above_nonnegative(targets, a - 1, x);
        lemma_count_above_bounds(targets[a - 1], x, targets[a - 1].len() as int);
    }
}

proof fn lemma_level_nonnegative(targets: Seq<Seq<int>>, a: int, lower: int, upper: int)
    requires
        a <= targets.len(),
    ensures
        level_crossings(targets, a) >= 0,
        level_length(targets, a, lower, upper) >= 0,
    decreases a,
{
    if a > 0 {
        lemma_level_nonnegative(targets, a - 1, lower, upper);
        lemma_source_crossings_nonnegative(targets, a - 1, targets[a - 1].len() as int);
        lemma_source_length_nonnegative(targets, a - 1, lower, upper, targets[a - 1].len() as int);
    }
}

proof fn lemma_source_length_nonnegative(targets: Seq<Seq<int>>, a: int, lower: int, upper: int, end: int)
    ensures
        source_length(targets, a, lower, upper, end) >= 0,
    decreases end,
{
    if end > 0 {
        lemma_source_length_nonnegative(targets, a, lower, upper, end - 1);
    }
}

proof fn lemma_totals_nonnegative(graph: &LayeredCoverGraph, k: int)
    requires
        graph.wf(),
        k <= graph.gap_count(),
    ensures
        graph.routed_total(k) >= 0,
        graph.horizontal_total(k) >= 0,
    decreases k,
{
    if k > 0 {
        lemma_totals_nonnegative(graph, k - 1);
        let l = k - 1;
        lemma_level_nonnegative(
            graph.target_positions(l),
            graph.layers_view()[l].len() as int,
            graph.layers_view()[l].len() as int,
            graph.layers_view()[k].len() as int,
        );
    }
}

impl LayeredCoverGraph {
    /// The facts about the edges from layer `level` that scoring needs: the
    /// target positions of each source lie in the next layer and are
    /// bounded in number.
    proof fn lemma_level_targets(&self, level: int)
        requires
            self.wf(),
            0 <= level,
            level + 1 < self.layers_view().len(),
        ensures
            ({
                let targets = self.target_positions(level);
                let layer = self.layers_view()[level];
                &&& targets.len() == layer.len()
                &&& layer.len() <= layered_limit()
                &&& self.layers_view()[level + 1].len() <= layered_limit()
                &&& forall|a: int| 0 <= a < targets.len() ==> (#[trigger] targets[a]).len() <= neighbour_limit()
                &&& forall|a: int, t: int|
                    0 <= a < targets.len() && 0 <= t < targets[a].len() ==> 0 <= #[trigger] targets[a][t]
                        < self.layers_view()[level + 1].len()
                &&& forall|a: int| 0 <= a < layer.len() ==> (#[trigger] layer[a]) < self.levels_view().len()
                    && self.position_of(layer[a] as int) == a
            }),
    {
        let layers = self.layers_view();
        let levels = self.levels_view();
        let targets = self.target_positions(level);
        self.lemma_positions();
        lemma_layer_within(layers, levels, level);
        lemma_layer_within(layers, levels, level + 1);
        assert forall|a: int| 0 <= a < targets.len() implies (#[trigger] targets[a]).len() <= neighbour_limit() by {
            assert(layers[level][a] < levels.len());
            assert(self.outgoing_view()[layers[level][a] as int].len() <= neighbour_limit());
        }
        assert forall|a: int, t: int|
            0 <= a < targets.len() && 0 <= t < targets[a].len() implies 0 <= #[trigger] targets[a][t] < layers[level
            + 1].len() by {
            let source = layers[level][a] as int;
            assert(levels[source] == level);
            let target = self.outgoing_view()[source][t] as int;
            assert(levels[target] == levels[source] + 1);
            assert(placed_at(layers, levels, target, self.position_of(target)));
        }
        assert forall|a: int| 0 <= a < layers[level].len() implies (#[trigger] layers[level][a]) < levels.len()
            && self.position_of(layers[level][a] as int) == a by {
            let v = layers[level][a] as int;
            assert(placed_at(layers, levels, v, a));
            lemma_position_unique(layers, levels, v, a);
        }
    }

    /// Adds the routed crossings and the horizontal extent of the edges from
    /// layer `level` to the running totals.
    fn accumulate_level(
        &self,
        positions: &Vec<usize>,
        level: usize,
        routed: &mut u64,
        horizontal: &mut u64,
        Ghost(routed_before): Ghost<int>,
        Ghost(horizontal_before): Ghost<int>,
    )
        requires
            self.wf(),
            positions@.len() == self.levels_view().len(),
            forall|v: int| 0 <= v < self.levels_view().len() ==> #[trigger] positions@[v] == self.position_of(v),
            level + 1 < self.layers_view().len(),
            routed_before >= 0,
            horizontal_before >= 0,
            *old(routed) == saturated(routed_before),
            *old(horizontal) == saturated(horizontal_before),
        ensures
            *final(routed) == saturated(
                routed_before + level_crossings(
                    self.target_positions(level as int),
                    self.layers_view()[level as int].len() as int,
                ),
            ),
            *final(horizontal) == saturated(
                horizontal_before + level_length(
                    self.target_positions(level as int),
                    self.layers_view()[level as int].len() as int,
                    self.layers_view()[level as int].len() as int,
                    self.layers_view()[level + 1].len() as int,
                ),
            ),
    {
        let ghost targets = self.target_positions(level as int);
        proof {
            self.lemma_level_targets(level as int);
        }
        let lower_width = self.layers[level].len();
        let upper_width = self.layers[level + 1].len();
        assert(lower_width == self.layers_view()[level as int].len());
        assert(upper_width == self.layers_view()[level + 1].len());
        let ghost ws = lower_width as int;
        let ghost wt = upper_width as int;
        let mut tree = FenwickTree::new(upper_width);
        proof {
            assert forall|x: int| -1 <= x < wt implies sum_range(tree@, x + 1, wt) == earlier_above(targets, 0, x) by {
                lemma_sum_zero(tree@, x + 1, wt);
            }
        }
        let mut seen: u64 = 0;
        let mut a: usize = 0;
        while a < lower_width
            invariant
                self.wf(),
                positions@.len() == self.levels_view().len(),
                forall|v: int| 0 <= v < self.levels_view().len() ==> #[trigger] positions@[v] == self.position_of(v),
                level + 1 < self.layers_view().len(),
                targets == self.target_positions(level as int),
                ws == lower_width,
                wt == upper_width,
                lower_width == self.layers_view()[level as int].len(),
                upper_width == self.layers_view()[level + 1].len(),
                targets.len() == ws,
                ws <= layered_limit(),
                wt <= layered_limit(),
                forall|b: int| 0 <= b < targets.len() ==> (#[trigger] targets[b]).len() <= neighbour_limit(),
                forall|b: int, t: int| 0 <= b < targets.len() && 0 <= t < targets[b].len() ==> 0 <= #[trigger] targets[b][t] < wt,
                forall|b: int|
                    0 <= b < ws ==> (#[trigger] self.layers_view()[level as int][b]) < self.levels_view().len()
                        && self.position_of(self.layers_view()[level as int][b] as int) == b,
                a <= ws,
                tree.wf(),
                tree@.len() == wt,
                forall|x: int| -1 <= x < wt ==> #[trigger] sum_range(tree@, x + 1, wt) == earlier_above(targets, a as int, x),
                seen == earlier_above(targets, a as int, -1),
                routed_before >= 0,
                horizontal_before >= 0,
                *routed == saturated(routed_before + level_crossings(targets, a as int)),
                *horizontal == saturated(horizontal_before + level_length(targets, a as int, ws, wt)),
            decreases ws - a,
        {
            let source = self.layers[level][a];
            assert(source == self.layers_view()[level as int][a as int]);
            let out = self.outgoing[source].clone();
            assert(out@ == self.outgoing_view()[source as int]);
            let ghost row = targets[a as int];
            assert(row.len() == out@.len());
            proof {
                lemma_earlier_above_bounds(targets, a as int, -1);
                lemma_level_nonnegative(targets, a as int, ws, wt);
                assert(a * neighbour_limit() <= layered_limit() * neighbour_limit()) by (nonlinear_arith)
                    requires
                        0 <= a <= layered_limit(),
                ;
            }
            let mut t: usize = 0;
            while t < out.len()
                invariant
                    positions@.len() == self.levels_view().len(),
                    forall|v: int| 0 <= v < self.levels_view().len() ==> #[trigger] positions@[v] == self.position_of(v),
                    targets == self.target_positions(level as int),
                    row == targets[a as int],
                    a < ws,
                    targets.len() == ws,
                    out@ == self.outgoing_view()[source as int],
                    source < self.levels_view().len(),
                    source == self.layers_view()[level as int][a as int],
                    self.outgoing_view().len() == self.levels_view().len(),
                    adjacency_steps(self.outgoing_view(), self.levels_view(), 1),
                    row.len() == out@.len(),
                    forall|u: int| 0 <= u < row.len() ==> 0 <= #[trigger] row[u] < wt,
                    wt <= layered_limit(),
                    t <= out@.len(),
                    tree.wf(),
                    tree@.len() == wt,
                    forall|x: int| -1 <= x < wt ==> #[trigger] sum_range(tree@, x + 1, wt) == earlier_above(targets, a as int, x),
                    seen == earlier_above(targets, a as int, -1),
                    routed_before >= 0,
                    level_crossings(targets, a as int) >= 0,
                    *routed == saturated(routed_before + level_crossings(targets, a as int) + source_crossings(targets, a as int, t as int)),
                decreases out@.len() - t,
            {
                let target = out[t];
                assert(target < self.levels_view().len());
                let p = positions[target];
                assert(p == row[t as int]);
                proof {
                    let minus = -1int;
                    assert(sum_range(tree@, minus + 1, wt) == earlier_above(targets, a as int, minus));
                    lemma_sum_split(tree@, 0, p + 1, wt);
                    lemma_sum_nonnegative(tree@, p + 1, wt);
                    lemma_source_crossings_nonnegative(targets, a as int, t as int);
                    lemma_earlier_above_nonnegative(targets, a as int, p as int);
                    lemma_saturated_add(routed_before + level_crossings(targets, a as int) + source_crossings(targets, a as int, t as int), earlier_above(targets, a as int, p as int));
                }
                let below = tree.prefix_sum(p + 1);
                *routed = routed.saturating_add(seen - below);
                t += 1;
            }
            let mut t: usize = 0;
            let ghost base = *horizontal;
            while t < out.len()
                invariant
                    positions@.len() == self.levels_view().len(),
                    forall|v: int| 0 <= v < self.levels_view().len() ==> #[trigger] positions@[v] == self.position_of(v),
                    targets == self.target_positions(level as int),
                    row == targets[a as int],
                    a < ws,
                    ws == lower_width,
                    wt == upper_width,
                    targets.len() == ws,
                    ws <= layered_limit(),
                    wt <= layered_limit(),
                    out@ == self.outgoing_view()[source as int],
                    source < self.levels_view().len(),
                    source == self.layers_view()[level as int][a as int],
                    self.outgoing_view().len() == self.levels_view().len(),
                    adjacency_steps(self.outgoing_view(), self.levels_view(), 1),
                    row.len() == out@.len(),
                    row.len() <= neighbour_limit(),
                    forall|u: int| 0 <= u < row.len() ==> 0 <= #[trigger] row[u] < wt,
                    t <= out@.len(),
                    tree.wf(),
                    tree@.len() == wt,
                    forall|x: int|
                        -1 <= x < wt ==> #[trigger] sum_range(tree@, x + 1, wt) == earlier_above(targets, a as int, x)
                            + count_above(row, x, t as int),
                    seen == earlier_above(targets, a as int, -1) + t,
                    earlier_above(targets, a as int, -1) <= a * neighbour_limit(),
                    a * neighbour_limit() <= layered_limit() * neighbour_limit(),
                    horizontal_before >= 0,
                    level_length(targets, a as int, ws, wt) >= 0,
                    *horizontal == saturated(horizontal_before + level_length(targets, a as int, ws, wt) + source_length(targets, a as int, ws, wt, t as int)),
                decreases out@.len() - t,
            {
                let target = out[t];
                assert(target < self.levels_view().len());
                let p = positions[target];
                assert(p == row[t as int]);
                proof {
                    let minus = -1int;
                    assert(sum_range(tree@, minus + 1, wt) == earlier_above(targets, a as int, minus) + count_above(row, minus, t as int));
                    lemma_count_above_bounds(row, minus, t as int);
                    lemma_sum_split(tree@, 0, 0, wt);
                    assert(tree.total() == sum_range(tree@, 0, wt));
                    assert(sum_range(tree@, 0, wt) == seen);
                }
                let ghost before_tree = tree@;
                tree.add(p, 1);
                proof {
                    assert forall|x: int| -1 <= x < wt implies #[trigger] sum_range(tree@, x + 1, wt) == earlier_above(
                        targets,
                        a as int,
                        x,
                    ) + count_above(row, x, t + 1) by {
                        lemma_sum_update(before_tree, p as int, 1, x + 1, wt);
                        assert(before_tree.update(p as int, (before_tree[p as int] + 1) as nat) == tree@);
                    }
                }
                seen = seen + 1;
                let source_x = doubled_centered_slot(a, lower_width);
                let target_x = doubled_centered_slot(p, upper_width);
                let distance: u64 = if source_x >= target_x {
                    (source_x - target_x) as u64
                } else {
                    (target_x - source_x) as u64
                };
                proof {
                    lemma_source_length_nonnegative(targets, a as int, ws, wt, t as int);
                    lemma_saturated_add(horizontal_before + level_length(targets, a as int, ws, wt) + source_length(targets, a as int, ws, wt, t as int), distance as int);
                }
                *horizontal = horizontal.saturating_add(distance);
                t += 1;
            }
            proof {
                assert(count_above(row, -1, row.len() as int) == row.len()) by {
                    lemma_count_above_bounds(row, -1, row.len() as int);
                }
            }
            a += 1;
        }
    }

    /// The score of the current order: the exact defects of the straight
    /// real edges, then the routed crossings and horizontal extent of the
    /// layered edges, each capped at `u64::MAX`.
    pub fn ordering_score(&self) -> (r: OrderingScore)
        requires
            self.wf(),
        ensures
            self.score_of(r),
    {
        let positions = self.vertex_positions();
        let points = self.real_grid_points_with_positions(&positions);
        proof {
            self.lemma_real_points_bounded();
        }
        let geometry = straight_geometry_defects(&self.real_edges, &points);
        let mut routed: u64 = 0;
        let mut horizontal: u64 = 0;
        let gaps = if self.layers.len() == 0 { 0 } else { self.layers.len() - 1 };
        let mut level: usize = 0;
        while level < gaps
            invariant
                self.wf(),
                gaps == self.gap_count(),
                positions@.len() == self.levels_view().len(),
                forall|v: int| 0 <= v < self.levels_view().len() ==> #[trigger] positions@[v] == self.position_of(v),
                level <= gaps,
                routed == saturated(self.routed_total(level as int)),
                horizontal == saturated(self.horizontal_total(level as int)),
            decreases gaps - level,
        {
            proof {
                lemma_totals_nonnegative(self, level as int);
            }
            self.accumulate_level(
                &positions,
                level,
                &mut routed,
                &mut horizontal,
                Ghost(self.routed_total(level as int)),
                Ghost(self.horizontal_total(level as int)),
            );
            level += 1;
        }
        OrderingScore { geometry, routed_crossings: routed, horizontal_length: horizontal }
    }

    /// Records the current order as the best one when it scores lower than
    /// `best_score`.
    pub fn remember_if_better(&self, best_layers: &mut Vec<Vec<usize>>, best_score: &mut OrderingScore)
        requires
            self.wf(),
        ensures
            ({
                let score = choose|s: OrderingScore| self.score_of(s);
                if score_lower(score, *old(best_score)) {
                    &&& *final(best_score) == score
                    &&& seqs_of(final(best_layers)@) == self.layers_view()
                } else {
                    &&& *final(best_score) == *old(best_score)
                    &&& final(best_layers)@ == old(best_layers)@
                }
            }),
    {
        let score = self.ordering_score();
        proof {
            self.lemma_score_unique(score);
        }
        if score.is_lower_than(best_score) {
            *best_score = score;
            *best_layers = self.layers_snapshot();
        }
    }

    /// The score of an order is determined by it.
    proof fn lemma_score_unique(&self, score: OrderingScore)
        requires
            self.score_of(score),
        ensures
            (choose|s: OrderingScore| self.score_of(s)) == score,
    {
        let other = choose|s: OrderingScore| self.score_of(s);
        assert(self.score_of(other));
        assert(other.geometry == score.geometry);
    }
}

} // verus!
